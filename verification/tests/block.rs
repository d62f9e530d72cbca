use mca_parser::block::Block;
use mca_parser::error::TagError;
use mca_parser::tag::Tag;

fn text(name: &str, value: &str) -> Tag {
    Tag::Text(name.to_string(), value.to_string())
}

fn entry(children: Vec<Tag>) -> Tag {
    Tag::Compound(String::new(), children)
}

fn pairs(block: &Block) -> Vec<(&str, &str)> {
    block.properties().iter().map(|(k, v)| (k.as_str(), v.as_str())).collect()
}

#[test]
fn block_from_name_alone() {
    let block = Block::new(&entry(vec![text("Name", "minecraft:stone")])).unwrap();
    assert_eq!(block.identifier(), "minecraft:stone");
    assert!(block.properties().is_empty());
    assert!(!block.is_air());
}

#[test]
fn properties_are_sorted_by_name() {
    let block = Block::new(&entry(vec![
        Tag::Compound(
            "Properties".to_string(),
            vec![
                text("waterlogged", "false"),
                text("axis", "y"),
                Tag::Int("level".to_string(), 3),
                text("half", "top"),
                Tag::Other("shape".to_string()),
                text("axis", "x"),
                text("a", "1"),
                text("ax", "2"),
                text("", "empty"),
            ],
        ),
        text("Name", "minecraft:oak_log"),
    ]))
    .unwrap();
    assert_eq!(block.identifier(), "minecraft:oak_log");
    assert_eq!(
        pairs(&block),
        vec![
            ("", "empty"),
            ("a", "1"),
            ("ax", "2"),
            ("axis", "x"),
            ("half", "top"),
            ("waterlogged", "false"),
        ]
    );
}

#[test]
fn names_are_ordered_by_their_bytes() {
    let block = Block::with_properties(
        "minecraft:test".to_string(),
        vec![
            ("b".to_string(), "1".to_string()),
            ("B".to_string(), "2".to_string()),
            ("\u{e9}".to_string(), "3".to_string()),
            ("z".to_string(), "4".to_string()),
            ("\u{10348}".to_string(), "5".to_string()),
            ("\u{20ac}".to_string(), "6".to_string()),
        ],
    );
    let mut expected = vec!["b", "B", "\u{e9}", "z", "\u{10348}", "\u{20ac}"];
    expected.sort();
    let names: Vec<&str> = block.properties().iter().map(|(k, _)| k.as_str()).collect();
    assert_eq!(names, expected);
    assert_eq!(names, vec!["B", "b", "z", "\u{e9}", "\u{20ac}", "\u{10348}"]);
}

#[test]
fn block_needs_a_name() {
    assert_eq!(Block::new(&entry(vec![])).unwrap_err(), TagError::NotFound);
    assert_eq!(
        Block::new(&entry(vec![Tag::Int("Name".to_string(), 1)])).unwrap_err(),
        TagError::WrongType
    );
    assert_eq!(Block::new(&text("Name", "minecraft:stone")).unwrap_err(), TagError::WrongType);
}

#[test]
fn properties_of_another_kind_count_as_none() {
    let block = Block::new(&entry(vec![
        text("Name", "minecraft:water"),
        text("Properties", "level=0"),
    ]))
    .unwrap();
    assert!(block.properties().is_empty());
}

#[test]
fn first_child_of_a_name_is_read() {
    let block = Block::new(&entry(vec![
        text("Name", "minecraft:dirt"),
        text("Name", "minecraft:stone"),
    ]))
    .unwrap();
    assert_eq!(block.identifier(), "minecraft:dirt");
}

#[test]
fn default_block_is_air() {
    let air = Block::default();
    assert_eq!(air.identifier(), "minecraft:air");
    assert!(air.properties().is_empty());
    assert!(air.is_air());
    assert_eq!(air, Block::with_properties("minecraft:air".to_string(), Vec::new()));
}

#[test]
fn blocks_are_equal_by_identifier_and_properties() {
    let make = |id: &str, props: &[(&str, &str)]| {
        Block::with_properties(
            id.to_string(),
            props.iter().map(|(k, v)| (k.to_string(), v.to_string())).collect(),
        )
    };
    let water = make("minecraft:water", &[("level", "0")]);
    assert_eq!(water, make("minecraft:water", &[("level", "0")]));
    assert_ne!(water, make("minecraft:water", &[("level", "1")]));
    assert_ne!(water, make("minecraft:water", &[]));
    assert_ne!(water, make("minecraft:lava", &[("level", "0")]));
    assert_ne!(water, make("minecraft:water", &[("level", "0"), ("x", "y")]));
    assert_eq!(
        make("minecraft:stairs", &[("half", "top"), ("facing", "east")]),
        make("minecraft:stairs", &[("facing", "east"), ("half", "top")])
    );
    assert_eq!(
        make("minecraft:stairs", &[("half", "top"), ("half", "bottom")]),
        make("minecraft:stairs", &[("half", "bottom")])
    );
    assert_eq!(water.clone(), water);
    assert_eq!(pairs(&water.clone()), vec![("level", "0")]);
}

#[test]
fn tag_lookups() {
    let tag = entry(vec![
        Tag::Int("n".to_string(), -7),
        text("s", "hello"),
        Tag::LongArray("l".to_string(), vec![1, -2]),
        Tag::List("items".to_string(), vec![Tag::Int(String::new(), 1)]),
        Tag::Compound("c".to_string(), vec![text("inner", "x")]),
        Tag::Other("o".to_string()),
    ]);
    assert_eq!(tag.name(), "");
    assert_eq!(tag.get_int("n"), Ok(-7));
    assert_eq!(tag.get_int("s"), Err(TagError::WrongType));
    assert_eq!(tag.get_int("missing"), Err(TagError::NotFound));
    assert_eq!(tag.get_string("s").unwrap(), "hello");
    assert_eq!(tag.get_string("n").unwrap_err(), TagError::WrongType);
    assert_eq!(tag.get_long_array("l").unwrap(), &vec![1i64, -2]);
    assert_eq!(tag.get_long_array("o").unwrap_err(), TagError::WrongType);
    assert_eq!(tag.get_list("items").unwrap().len(), 1);
    assert_eq!(tag.get_list("c").unwrap_err(), TagError::WrongType);
    assert_eq!(tag.get_compound("c").unwrap().len(), 1);
    assert_eq!(tag.get_compound("items").unwrap_err(), TagError::WrongType);
    assert_eq!(tag.get("c").unwrap().get_string("inner").unwrap(), "x");
    assert_eq!(tag.get("nothing").unwrap_err(), TagError::NotFound);
    assert_eq!(Tag::Int("n".to_string(), 1).get("n").unwrap_err(), TagError::WrongType);
    assert_eq!(tag.get("o").unwrap().name(), "o");
}
