use mca_parser::block::Block;
use mca_parser::error::{McaParseError, TagError};
use mca_parser::network::network_payload;
use mca_parser::position::Position;
use mca_parser::region::Region;
use mca_parser::section::{unpack_indices, BlockIDGetter, PackOrder, Section};
use mca_parser::tag::Tag;
use std::cell::RefCell;

struct Table {
    asked: RefCell<Vec<String>>,
}

impl Table {
    fn new() -> Table {
        Table { asked: RefCell::new(Vec::new()) }
    }
}

fn id_for(name: &str) -> i32 {
    match name {
        "minecraft:air" => 0,
        "minecraft:stone" => 1,
        "minecraft:water" => 300,
        "minecraft:void" => -1,
        other => other.trim_start_matches("test:").parse().unwrap(),
    }
}

impl BlockIDGetter for Table {
    fn id_of(&self, block: &Block) -> i32 {
        self.asked.borrow_mut().push(block.identifier().clone());
        id_for(block.identifier())
    }
}

fn palette_entry(name: &str) -> Tag {
    Tag::Compound(String::new(), vec![Tag::Text("Name".to_string(), name.to_string())])
}

fn section_tag(names: &[&str], data: Option<Vec<i64>>) -> Tag {
    let mut states = vec![Tag::List(
        "palette".to_string(),
        names.iter().map(|n| palette_entry(n)).collect(),
    )];
    if let Some(d) = data {
        states.push(Tag::LongArray("data".to_string(), d));
    }
    Tag::Compound(
        String::new(),
        vec![Tag::Other("Y".to_string()), Tag::Compound("block_states".to_string(), states)],
    )
}

fn pack(cells: &[u64], bits: usize) -> Vec<i64> {
    let per = 64 / bits;
    cells
        .chunks(per)
        .map(|group| {
            group.iter().enumerate().fold(0u64, |acc, (i, v)| acc | (v << (bits * i))) as i64
        })
        .collect()
}

fn at(index: usize) -> Position {
    Position::new((index % 16) as i32, (index / 256) as i32, ((index / 16) % 16) as i32)
}

fn read_var_int(bytes: &[u8], at: &mut usize) -> i32 {
    let mut value: u32 = 0;
    let mut shift = 0;
    loop {
        let byte = bytes[*at];
        *at += 1;
        value |= ((byte & 0x7f) as u32) << shift;
        if byte < 128 {
            return value as i32;
        }
        shift += 7;
    }
}

fn read_longs(bytes: &[u8], at: &mut usize) -> Vec<u64> {
    let count = read_var_int(bytes, at) as usize;
    let mut longs = Vec::new();
    for _ in 0..count {
        longs.push(u64::from_be_bytes(bytes[*at..*at + 8].try_into().unwrap()));
        *at += 8;
    }
    longs
}

fn read_back(bytes: &[u8]) -> (i16, Vec<i32>) {
    let count = i16::from_be_bytes([bytes[0], bytes[1]]);
    let bits = bytes[2] as usize;
    let mut at = 3;
    let grid: Vec<i32> = if bits == 0 {
        let id = read_var_int(bytes, &mut at);
        assert_eq!(read_var_int(bytes, &mut at), 0);
        vec![id; 4096]
    } else if bits <= 8 {
        let n = read_var_int(bytes, &mut at) as usize;
        let ids: Vec<i32> = (0..n).map(|_| read_var_int(bytes, &mut at)).collect();
        let longs = read_longs(bytes, &mut at);
        let per = 64 / bits;
        (0..4096)
            .map(|p| ids[((longs[p / per] >> (bits * (p % per))) & ((1u64 << bits) - 1)) as usize])
            .collect()
    } else {
        let longs = read_longs(bytes, &mut at);
        let per = 64 / bits;
        (0..4096)
            .map(|p| ((longs[p / per] >> (bits * (p % per))) & ((1u64 << bits) - 1)) as i32)
            .collect()
    };
    assert_eq!(&bytes[at..], &[0, 8, 0]);
    (count, grid)
}

#[test]
fn single_palette_section_needs_no_data() {
    let section = Section::parse_section(&section_tag(&["minecraft:stone"], None)).unwrap();
    for index in [0, 1, 16, 256, 4095] {
        assert_eq!(section.get(at(index)).identifier(), "minecraft:stone");
    }
    let with_data =
        Section::parse_section(&section_tag(&["minecraft:stone"], Some(vec![-1; 3]))).unwrap();
    assert_eq!(with_data.get(at(7)), section.get(at(7)));
    let table = Table::new();
    let bytes = section.network_data(&table);
    assert_eq!(bytes, vec![0x10, 0x00, 0, 1, 0, 0, 8, 0]);
    assert_eq!(*table.asked.borrow(), vec!["minecraft:stone".to_string()]);
}

#[test]
fn low_bit_of_first_long_is_the_first_cell() {
    let mut data = vec![0i64; 256];
    data[0] = 1;
    let section =
        Section::parse_section(&section_tag(&["minecraft:air", "minecraft:water"], Some(data)))
            .unwrap();
    for index in 0..4096 {
        let expected = if index == 0 { "minecraft:water" } else { "minecraft:air" };
        assert_eq!(section.get(at(index)).identifier(), expected, "cell {}", index);
    }
    assert_eq!(section.get(Position::new(0, 0, 0)).identifier(), "minecraft:water");
    assert_eq!(section.get(Position::new(1, 0, 0)).identifier(), "minecraft:air");
    let bytes = section.network_data(&Table::new());
    assert_eq!(&bytes[0..2], &[0, 1]);
    assert_eq!(read_back(&bytes).0, 1);
}

#[test]
fn second_entry_of_first_long_is_the_cell_at_x_one() {
    let mut data = vec![0i64; 256];
    data[0] = 0x10;
    let section =
        Section::parse_section(&section_tag(&["minecraft:air", "minecraft:water"], Some(data)))
            .unwrap();
    for index in 0..4096 {
        let expected = if index == 1 { "minecraft:water" } else { "minecraft:air" };
        assert_eq!(section.get(at(index)).identifier(), expected, "cell {}", index);
    }
    assert_eq!(section.get(Position::new(1, 0, 0)).identifier(), "minecraft:water");
    let table = Table::new();
    let bytes = section.network_data(&table);
    assert_eq!(*table.asked.borrow(), vec!["minecraft:air".to_string(), "minecraft:water".to_string()]);
    let mut expected: Vec<u8> = vec![0, 1, 4, 2, 0, 0xac, 0x02, 0x80, 0x02];
    expected.extend_from_slice(&0x10u64.to_be_bytes());
    expected.extend_from_slice(&[0u8; 255 * 8]);
    expected.extend_from_slice(&[0, 8, 0]);
    assert_eq!(bytes, expected);
}

#[test]
fn palette_of_the_network_form_is_in_order_of_first_cells() {
    let cells: Vec<u64> = (0..4096).map(|i| if i < 3 { 2 } else if i % 2 == 0 { 0 } else { 2 }).collect();
    let section = Section::parse_section(&section_tag(
        &["minecraft:stone", "minecraft:air", "minecraft:water", "minecraft:stone"],
        Some(pack(&cells, 4)),
    ))
    .unwrap();
    let table = Table::new();
    let bytes = section.network_data(&table);
    assert_eq!(*table.asked.borrow(), vec!["minecraft:water".to_string(), "minecraft:stone".to_string()]);
    assert_eq!(&bytes[0..7], &[0x10, 0x00, 4, 2, 0xac, 0x02, 1]);
    let (count, grid) = read_back(&bytes);
    assert_eq!(count, 4096);
    let expected: Vec<i32> = cells.iter().map(|c| if *c == 2 { 300 } else { 1 }).collect();
    assert_eq!(grid, expected);
}

#[test]
fn equal_palette_entries_are_one_block_on_the_network() {
    let cells: Vec<u64> = (0..4096).map(|i| i % 3).collect();
    let section = Section::parse_section(&section_tag(
        &["minecraft:stone", "minecraft:stone", "minecraft:stone"],
        Some(pack(&cells, 4)),
    ))
    .unwrap();
    assert_eq!(section.network_data(&Table::new()), vec![0x10, 0x00, 0, 1, 0, 0, 8, 0]);
}

#[test]
fn five_bit_entries_leave_four_bits_unused() {
    let names: Vec<String> = (0..17).map(|i| format!("test:{}", i)).collect();
    let refs: Vec<&str> = names.iter().map(|s| s.as_str()).collect();
    let cells: Vec<u64> = (0..4096).map(|i| (i * 5 + 1) % 17).collect();
    let mut data = pack(&cells, 5);
    assert_eq!(data.len(), 342);
    for long in data.iter_mut() {
        *long |= (0xfu64 << 60) as i64;
    }
    let section = Section::parse_section(&section_tag(&refs, Some(data))).unwrap();
    for index in [0, 11, 12, 13, 4095] {
        assert_eq!(
            section.get(at(index)).identifier(),
            &format!("test:{}", cells[index]),
            "cell {}",
            index
        );
    }
    let (count, grid) = read_back(&section.network_data(&Table::new()));
    assert_eq!(count, 4096);
    let expected: Vec<i32> = cells.iter().map(|c| *c as i32).collect();
    assert_eq!(grid, expected);
}

#[test]
fn network_form_reads_back_at_every_width() {
    for (n, bits, longs) in [
        (2usize, 4u8, 256usize),
        (16, 4, 256),
        (17, 5, 342),
        (33, 6, 410),
        (65, 7, 456),
        (129, 8, 512),
        (256, 8, 512),
        (257, 15, 1024),
        (1000, 15, 1024),
    ] {
        let names: Vec<String> = (0..n).map(|i| format!("test:{}", i + 100)).collect();
        let refs: Vec<&str> = names.iter().map(|s| s.as_str()).collect();
        let cells: Vec<u64> = (0..4096).map(|i| (i % n) as u64).collect();
        let stored = if n <= 16 { 4 } else { (usize::BITS - (n - 1).leading_zeros()) as usize };
        let section = Section::parse_section(&section_tag(&refs, Some(pack(&cells, stored)))).unwrap();
        let bytes = section.network_data(&Table::new());
        assert_eq!(bytes[2], bits, "palette of {}", n);
        let (count, grid) = read_back(&bytes);
        assert_eq!(count, 4096);
        let expected: Vec<i32> = cells.iter().map(|c| *c as i32 + 100).collect();
        assert_eq!(grid, expected, "palette of {}", n);
        let ids_len: usize = if bits == 15 {
            0
        } else {
            (if n < 128 { 1 } else { 2 })
                + (0..n).map(|i| if i + 100 < 128 { 1 } else { 2 }).sum::<usize>()
        };
        assert_eq!(bytes.len(), 2 + 1 + ids_len + 2 + longs * 8 + 3, "palette of {}", n);
    }
}

#[test]
fn block_count_leaves_air_out() {
    let cells: Vec<u64> = (0..4096).map(|i| if i % 4 == 0 { 1 } else { 0 }).collect();
    let section = Section::parse_section(&section_tag(
        &["minecraft:air", "minecraft:stone"],
        Some(pack(&cells, 4)),
    ))
    .unwrap();
    let (count, _) = read_back(&section.network_data(&Table::new()));
    assert_eq!(count, 1024);
    let all_air = Section::parse_section(&section_tag(&["minecraft:air"], None)).unwrap();
    assert_eq!(all_air.network_data(&Table::new()), vec![0, 0, 0, 0, 0, 0, 8, 0]);
    let (used, indices, count) = section.used_blocks();
    assert_eq!(used.len(), 2);
    assert_eq!(used[0].identifier(), "minecraft:stone");
    assert_eq!(used[1].identifier(), "minecraft:air");
    assert_eq!(indices.len(), 4096);
    assert_eq!(&indices[0..5], &[0, 1, 1, 1, 0]);
    assert_eq!(count, 1024);
}

#[test]
fn negative_identifier_is_written_in_five_bytes() {
    let section = Section::parse_section(&section_tag(&["minecraft:void"], None)).unwrap();
    assert_eq!(
        section.network_data(&Table::new()),
        vec![0x10, 0x00, 0, 0xff, 0xff, 0xff, 0xff, 0x0f, 0, 0, 8, 0]
    );
}

#[test]
fn payload_from_identifiers_and_cells() {
    let cells: Vec<usize> = (0..4096).map(|i| i % 2).collect();
    let bytes = network_payload(7, &vec![5, 9], &cells);
    let mut expected: Vec<u8> = vec![0, 7, 4, 2, 5, 9, 0x80, 0x02];
    for _ in 0..256 {
        expected.extend_from_slice(&0x1010_1010_1010_1010u64.to_be_bytes());
    }
    expected.extend_from_slice(&[0, 8, 0]);
    assert_eq!(bytes, expected);
    assert_eq!(network_payload(0, &vec![77], &vec![0; 4096]), vec![0, 0, 0, 77, 0, 0, 8, 0]);
}

#[test]
fn section_errors() {
    let err = |tag: Tag| Section::parse_section(&tag).unwrap_err();
    assert_eq!(
        err(Tag::Compound(String::new(), vec![])),
        McaParseError::NbtParseError(TagError::NotFound)
    );
    assert_eq!(err(Tag::Other(String::new())), McaParseError::NbtParseError(TagError::WrongType));
    assert_eq!(
        err(Tag::Compound(
            String::new(),
            vec![Tag::Compound("block_states".to_string(), vec![])]
        )),
        McaParseError::NbtParseError(TagError::NotFound)
    );
    assert_eq!(
        err(Tag::Compound(
            String::new(),
            vec![Tag::Compound(
                "block_states".to_string(),
                vec![Tag::LongArray("palette".to_string(), vec![])]
            )]
        )),
        McaParseError::NbtParseError(TagError::WrongType)
    );
    assert_eq!(err(section_tag(&[], None)), McaParseError::NbtParseError(TagError::InvalidValue));
    assert_eq!(
        err(section_tag(&["minecraft:air", "minecraft:stone"], None)),
        McaParseError::NbtParseError(TagError::NotFound)
    );
    assert_eq!(
        err(section_tag(&["minecraft:air", "minecraft:stone"], Some(vec![0; 255]))),
        McaParseError::EndOfData
    );
    assert_eq!(
        err(section_tag(&["minecraft:air", "minecraft:stone"], Some(vec![]))),
        McaParseError::EndOfData
    );
    let mut bad = vec![0i64; 256];
    bad[255] = 2i64 << 60;
    assert_eq!(
        err(section_tag(&["minecraft:air", "minecraft:stone"], Some(bad))),
        McaParseError::NbtParseError(TagError::InvalidValue)
    );
    let nameless = Tag::Compound(
        String::new(),
        vec![Tag::Compound(
            "block_states".to_string(),
            vec![Tag::List(
                "palette".to_string(),
                vec![palette_entry("minecraft:air"), Tag::Compound(String::new(), vec![])],
            )],
        )],
    );
    assert_eq!(err(nameless), McaParseError::NbtParseError(TagError::NotFound));
}

#[test]
fn longer_data_is_read_up_to_the_last_cell() {
    let cells: Vec<u64> = (0..4096).map(|i| i % 2).collect();
    let mut data = pack(&cells, 4);
    data.push(-1);
    let section =
        Section::parse_section(&section_tag(&["minecraft:air", "minecraft:stone"], Some(data)))
            .unwrap();
    assert_eq!(section.get(at(4095)).identifier(), "minecraft:stone");
    assert_eq!(section.get(at(4094)).identifier(), "minecraft:air");
}

#[test]
fn unpacking_indices() {
    let cells: Vec<u64> = (0..4096).map(|i| i % 300).collect();
    let data = pack(&cells, 9);
    assert_eq!(data.len(), 586);
    let indices = unpack_indices(&data, 300, PackOrder::LowFirst).unwrap();
    assert_eq!(indices.len(), 4096);
    assert!(indices.iter().zip(cells.iter()).all(|(a, b)| *a as u64 == *b));
    assert_eq!(
        unpack_indices(&data, 299, PackOrder::LowFirst),
        Err(McaParseError::NbtParseError(TagError::InvalidValue))
    );
    assert_eq!(
        unpack_indices(&data[..585].to_vec(), 300, PackOrder::LowFirst),
        Err(McaParseError::EndOfData)
    );
    assert_eq!(unpack_indices(&vec![0; 256], 1, PackOrder::LowFirst), Ok(vec![0; 4096]));
    assert_eq!(unpack_indices(&vec![0; 256], 1, PackOrder::HighFirst), Ok(vec![0; 4096]));
}

#[test]
fn section_keeps_properties_of_its_blocks() {
    let water = Tag::Compound(
        String::new(),
        vec![
            Tag::Text("Name".to_string(), "minecraft:water".to_string()),
            Tag::Compound(
                "Properties".to_string(),
                vec![Tag::Text("level".to_string(), "0".to_string())],
            ),
        ],
    );
    let tag = Tag::Compound(
        String::new(),
        vec![Tag::Compound(
            "block_states".to_string(),
            vec![Tag::List("palette".to_string(), vec![water])],
        )],
    );
    let section = Section::parse_section(&tag).unwrap();
    let expected = Block::with_properties(
        "minecraft:water".to_string(),
        vec![("level".to_string(), "0".to_string())],
    );
    assert_eq!(section.get(Position::new(24, 60, 15)), expected);
    assert_eq!(section.clone().get(Position::new(-1, -1, -1)), expected);
}

fn pack_high_first(cells: &[u64], bits: usize) -> Vec<i64> {
    let per = 64 / bits;
    cells
        .chunks(per)
        .map(|group| {
            group
                .iter()
                .enumerate()
                .fold(0u64, |acc, (i, v)| acc | (v << (bits * (per - 1 - i)))) as i64
        })
        .collect()
}

#[test]
fn older_packing_counts_from_the_high_end() {
    let mut data = vec![0i64; 256];
    data[0] = 1i64 << 60;
    let tag = section_tag(&["minecraft:air", "minecraft:water"], Some(data));
    let section = Region::parse_section(&tag).unwrap();
    for index in 0..4096 {
        let expected = if index == 0 { "minecraft:water" } else { "minecraft:air" };
        assert_eq!(section.get(at(index)).identifier(), expected, "cell {}", index);
    }
    let current = Section::parse_section(&tag).unwrap();
    assert_eq!(current.get(at(15)).identifier(), "minecraft:water");
    assert_eq!(current.get(at(0)).identifier(), "minecraft:air");
    let names: Vec<String> = (0..17).map(|i| format!("test:{}", i)).collect();
    let refs: Vec<&str> = names.iter().map(|s| s.as_str()).collect();
    let cells: Vec<u64> = (0..4096).map(|i| (i * 3 + 2) % 17).collect();
    let mut data = pack_high_first(&cells, 5);
    for long in data.iter_mut() {
        *long |= (0xfu64 << 60) as i64;
    }
    let section = Section::parse_section_with(&section_tag(&refs, Some(data)), PackOrder::HighFirst)
        .unwrap();
    for index in [0, 1, 11, 12, 13, 4094, 4095] {
        assert_eq!(section.get(at(index)).identifier(), &format!("test:{}", cells[index]));
    }
    let indices = unpack_indices(&pack_high_first(&cells, 5), 17, PackOrder::HighFirst).unwrap();
    assert!(indices.iter().zip(cells.iter()).all(|(a, b)| *a as u64 == *b));
}
