use mca_parser::block::Block;
use mca_parser::chunk::Chunk;
use mca_parser::error::{McaParseError, TagError};
use mca_parser::position::Position;
use mca_parser::region::{
    chunk_frame, compression_from_code, parse_header, ChunkLocation, Compression, Region,
};
use mca_parser::section::BlockIDGetter;
use mca_parser::tag::Tag;
use std::cell::RefCell;

struct Stored {
    slot: usize,
    code: u8,
    payload: Vec<u8>,
    sectors: u8,
}

fn stored(slot: usize, code: u8, payload: &[u8]) -> Stored {
    Stored { slot, code, payload: payload.to_vec(), sectors: 1 }
}

fn region_file(chunks: &[Stored]) -> Vec<u8> {
    let mut data = vec![0u8; 8192];
    let mut sector: u32 = 2;
    for chunk in chunks {
        let at = chunk.slot * 4;
        data[at] = (sector >> 16) as u8;
        data[at + 1] = (sector >> 8) as u8;
        data[at + 2] = sector as u8;
        data[at + 3] = chunk.sectors;
        let stamp = 1_700_000_000u32 + chunk.slot as u32;
        data[4096 + at..4096 + at + 4].copy_from_slice(&stamp.to_be_bytes());
        let mut body = Vec::new();
        body.extend_from_slice(&(chunk.payload.len() as u32 + 1).to_be_bytes());
        body.push(chunk.code);
        body.extend_from_slice(&chunk.payload);
        body.resize(chunk.sectors as usize * 4096, 0);
        data.extend_from_slice(&body);
        sector += chunk.sectors as u32;
    }
    data
}

fn text(name: &str, value: &str) -> Tag {
    Tag::Text(name.to_string(), value.to_string())
}

fn section(block: &str) -> Tag {
    Tag::Compound(
        String::new(),
        vec![Tag::Compound(
            "block_states".to_string(),
            vec![Tag::List(
                "palette".to_string(),
                vec![Tag::Compound(String::new(), vec![text("Name", block)])],
            )],
        )],
    )
}

fn sections(special: usize, block: &str) -> Vec<Tag> {
    (0..24).map(|i| section(if i == special { block } else { "minecraft:air" })).collect()
}

fn chunk_tag(x: i32, z: i32, status: &str, sections: Vec<Tag>) -> Tag {
    Tag::Compound(
        String::new(),
        vec![
            Tag::Int("DataVersion".to_string(), 3465),
            Tag::Int("xPos".to_string(), x),
            Tag::Int("yPos".to_string(), -4),
            Tag::Int("zPos".to_string(), z),
            text("Status", status),
            Tag::Other("Heightmaps".to_string()),
            Tag::List("sections".to_string(), sections),
        ],
    )
}

fn decode_by_first_byte(_c: Compression, payload: Vec<u8>) -> Result<Tag, TagError> {
    match payload.first() {
        Some(0xff) => Err(TagError::Malformed),
        Some(0xfe) => Ok(Tag::Compound(String::new(), vec![Tag::Int("DataVersion".to_string(), 1)])),
        Some(b) => {
            let x = (*b % 32) as i32;
            let z = (*b / 32) as i32;
            Ok(chunk_tag(x, z, "minecraft:full", sections(7, "minecraft:stone")))
        }
        None => Ok(chunk_tag(0, 0, "minecraft:empty", Vec::new())),
    }
}

struct Zero;

impl BlockIDGetter for Zero {
    fn id_of(&self, block: &Block) -> i32 {
        if block.is_air() {
            0
        } else {
            1
        }
    }
}

#[test]
fn header_holds_two_tables() {
    let data = region_file(&[stored(0, 3, &[0]), stored(33, 2, &[33]), stored(1023, 1, &[5])]);
    let (locations, timestamps) = parse_header(&data).unwrap();
    assert_eq!(locations.len(), 1024);
    assert_eq!(timestamps.len(), 1024);
    assert_eq!(locations[0], ChunkLocation { offset: 2, sectors: 1 });
    assert_eq!(locations[33], ChunkLocation { offset: 3, sectors: 1 });
    assert_eq!(locations[1023], ChunkLocation { offset: 4, sectors: 1 });
    assert_eq!(locations[1], ChunkLocation { offset: 0, sectors: 0 });
    assert!(locations[0].is_present());
    assert!(!locations[1].is_present());
    assert!(!ChunkLocation { offset: 0, sectors: 2 }.is_present());
    assert!(!ChunkLocation { offset: 2, sectors: 0 }.is_present());
    assert_eq!(timestamps[33].modified_seconds, 1_700_000_033);
    assert_eq!(timestamps[2].modified_seconds, 0);
    let mut wide = vec![0u8; 8192];
    wide[4..8].copy_from_slice(&[0x12, 0x34, 0x56, 0x78]);
    wide[4100..4104].copy_from_slice(&[0xff, 0xfe, 0xfd, 0xfc]);
    let (locations, timestamps) = parse_header(&wide).unwrap();
    assert_eq!(locations[1], ChunkLocation { offset: 0x123456, sectors: 0x78 });
    assert_eq!(timestamps[1].modified_seconds, 0xfffe_fdfc);
}

#[test]
fn header_needs_8192_bytes() {
    assert_eq!(parse_header(&vec![0u8; 8191]).unwrap_err(), McaParseError::EndOfData);
    assert_eq!(parse_header(&Vec::new()).unwrap_err(), McaParseError::EndOfData);
    assert!(parse_header(&vec![0u8; 8192]).is_ok());
    let short = Region::parse_region(vec![0u8; 8191], decode_by_first_byte);
    assert_eq!(short.unwrap_err(), McaParseError::EndOfData);
}

#[test]
fn empty_region_has_no_chunks() {
    let region = Region::parse_region(vec![0u8; 0x2000], |_c: Compression, _p: Vec<u8>| {
        panic!("nothing to decode")
    })
    .unwrap();
    assert!(region.chunks().is_empty());
    assert_eq!(region.chunk_location_offsets().len(), 1024);
    assert_eq!(region.chunk_timestamps().len(), 1024);
    for x in -1..33 {
        for z in -1..33 {
            assert!(region.get_chunk(Position::new(x, 0, z)).is_none());
        }
    }
    assert_eq!(region.get(Position::new(8, 60, 8)), None);
}

#[test]
fn compression_codes() {
    assert_eq!(compression_from_code(1), Some(Compression::Gzip));
    assert_eq!(compression_from_code(2), Some(Compression::Zlib));
    assert_eq!(compression_from_code(3), Some(Compression::Uncompressed));
    assert_eq!(compression_from_code(0), None);
    assert_eq!(compression_from_code(4), None);
    assert_eq!(compression_from_code(255), None);
}

#[test]
fn frames_are_cut_by_sector() {
    let data = region_file(&[stored(0, 2, &[1, 2, 3]), stored(1, 3, &[])]);
    let frame = chunk_frame(&data, &ChunkLocation { offset: 2, sectors: 1 }).unwrap();
    assert_eq!(frame.compression, Compression::Zlib);
    assert_eq!(frame.payload, vec![1, 2, 3]);
    let frame = chunk_frame(&data, &ChunkLocation { offset: 3, sectors: 1 }).unwrap();
    assert_eq!(frame.compression, Compression::Uncompressed);
    assert_eq!(frame.payload, Vec::<u8>::new());
    let full: Vec<u8> = (0..4091).map(|i| i as u8).collect();
    let data = region_file(&[stored(0, 1, &full)]);
    let frame = chunk_frame(&data, &ChunkLocation { offset: 2, sectors: 1 }).unwrap();
    assert_eq!(frame.compression, Compression::Gzip);
    assert_eq!(frame.payload, full);
}

#[test]
fn frame_errors() {
    let err = |data: &Vec<u8>, offset: usize, sectors: usize| {
        chunk_frame(data, &ChunkLocation { offset, sectors }).unwrap_err()
    };
    let data = region_file(&[stored(0, 2, &[1, 2, 3])]);
    assert_eq!(err(&data, 3, 1), McaParseError::EndOfData);
    assert_eq!(err(&data, 2, 2), McaParseError::EndOfData);
    assert_eq!(err(&data, 2, 0), McaParseError::EndOfData);
    assert_eq!(err(&data, 0xff_ffff, 255), McaParseError::EndOfData);
    assert_eq!(err(&data[..data.len() - 1].to_vec(), 2, 1), McaParseError::EndOfData);
    let mut zero_length = data.clone();
    zero_length[8192..8196].copy_from_slice(&[0, 0, 0, 0]);
    assert_eq!(err(&zero_length, 2, 1), McaParseError::EndOfData);
    let mut too_long = data.clone();
    too_long[8192..8196].copy_from_slice(&4093u32.to_be_bytes());
    assert_eq!(err(&too_long, 2, 1), McaParseError::EndOfData);
    let mut fits = data.clone();
    fits[8192..8196].copy_from_slice(&4092u32.to_be_bytes());
    assert_eq!(chunk_frame(&fits, &ChunkLocation { offset: 2, sectors: 1 }).unwrap().payload.len(), 4091);
    let mut negative = data.clone();
    negative[8192..8196].copy_from_slice(&[0xff, 0xff, 0xff, 0xff]);
    assert_eq!(err(&negative, 2, 1), McaParseError::EndOfData);
    for code in [0u8, 4, 5, 127, 128, 255] {
        let data = region_file(&[stored(0, code, &[1, 2, 3])]);
        assert_eq!(err(&data, 2, 1), McaParseError::UnsupportedCompression(code));
    }
    let mut both = region_file(&[stored(0, 9, &[1, 2, 3])]);
    both[8192..8196].copy_from_slice(&5000u32.to_be_bytes());
    assert_eq!(err(&both, 2, 1), McaParseError::EndOfData);
}

#[test]
fn stone_in_the_only_chunk() {
    let data = region_file(&[stored(0, 3, &[0])]);
    let region = Region::parse_region(data, decode_by_first_byte).unwrap();
    assert_eq!(region.chunks().len(), 1);
    let chunk = &region.chunks()[0];
    assert!(chunk.is_finished());
    assert_eq!(chunk.status(), "minecraft:full");
    assert_eq!(chunk.data_version(), 3465);
    assert_eq!(*chunk.chunk_pos(), Position::new(0, -4, 0));
    assert_eq!(chunk.sections().len(), 24);
    let stone = region.get(Position::new(8, 60, 8)).unwrap();
    assert_eq!(stone.identifier(), "minecraft:stone");
    assert!(stone.properties().is_empty());
    assert_eq!(region.get(Position::new(8, 47, 8)).unwrap().identifier(), "minecraft:air");
    assert_eq!(region.get(Position::new(8, 48, 8)).unwrap().identifier(), "minecraft:stone");
    assert_eq!(region.get(Position::new(15, 63, 15)).unwrap().identifier(), "minecraft:stone");
    assert_eq!(region.get(Position::new(8, 64, 8)).unwrap().identifier(), "minecraft:air");
    assert_eq!(region.get(Position::new(8, -64, 8)).unwrap().identifier(), "minecraft:air");
    assert_eq!(region.get(Position::new(8, 319, 8)).unwrap().identifier(), "minecraft:air");
    assert_eq!(region.get(Position::new(8, -65, 8)), None);
    assert_eq!(region.get(Position::new(8, 320, 8)), None);
    assert_eq!(region.get(Position::new(16, 60, 8)), None);
    assert_eq!(region.get(Position::new(8, 60, 16)), None);
    assert_eq!(region.get(Position::new(-1, 60, 8)), None);
    assert!(region.get_chunk(Position::new(0, 99, 0)).is_some());
    assert!(region.get_chunk(Position::new(1, 0, 0)).is_none());
}

#[test]
fn decoder_sees_each_payload_in_slot_order() {
    let data = region_file(&[stored(40, 1, &[40, 9]), stored(3, 2, &[3]), stored(1023, 3, &[255 - 32, 7, 7])]);
    let seen: RefCell<Vec<(Compression, Vec<u8>)>> = RefCell::new(Vec::new());
    let region = Region::parse_region(data, |c: Compression, p: Vec<u8>| {
        seen.borrow_mut().push((c, p.clone()));
        decode_by_first_byte(c, p)
    })
    .unwrap();
    assert_eq!(
        *seen.borrow(),
        vec![
            (Compression::Zlib, vec![3u8]),
            (Compression::Gzip, vec![40u8, 9]),
            (Compression::Uncompressed, vec![223u8, 7, 7]),
        ]
    );
    let positions: Vec<Position> = region.chunks().iter().map(|c| *c.chunk_pos()).collect();
    assert_eq!(positions, vec![Position::new(3, -4, 0), Position::new(8, -4, 1), Position::new(31, -4, 6)]);
    assert_eq!(region.get(Position::new(3 * 16 + 2, 50, 5)).unwrap().identifier(), "minecraft:stone");
    assert_eq!(region.get(Position::new(8 * 16, 50, 31)).unwrap().identifier(), "minecraft:stone");
    assert_eq!(region.get(Position::new(8 * 16, 50, 15)), None);
    assert_eq!(*region.get_chunk(Position::new(31, 0, 6)).unwrap().chunk_pos(), Position::new(31, -4, 6));
}

#[test]
fn lookup_goes_by_the_position_that_the_chunk_names() {
    let data = region_file(&[stored(0, 3, &[5]), stored(1, 3, &[5])]);
    let region = Region::parse_region(data, decode_by_first_byte).unwrap();
    assert_eq!(region.chunks().len(), 2);
    assert!(region.get_chunk(Position::new(0, 0, 0)).is_none());
    assert!(region.get_chunk(Position::new(1, 0, 0)).is_none());
    assert!(region.get_chunk(Position::new(5, 0, 0)).is_some());
    assert_eq!(region.get(Position::new(80, 60, 0)).unwrap().identifier(), "minecraft:stone");
}

#[test]
fn chunk_without_sections_fails_the_region() {
    let data = region_file(&[stored(0, 2, &[0xfe])]);
    let result = Region::parse_region(data, decode_by_first_byte);
    assert_eq!(result.unwrap_err(), McaParseError::NbtParseError(TagError::NotFound));
}

#[test]
fn first_failure_ends_the_reading() {
    let calls = RefCell::new(0);
    let counting = |c: Compression, p: Vec<u8>| {
        *calls.borrow_mut() += 1;
        decode_by_first_byte(c, p)
    };
    let data = region_file(&[stored(0, 3, &[0]), stored(1, 3, &[0xff]), stored(2, 9, &[2])]);
    assert_eq!(
        Region::parse_region(data, &counting).unwrap_err(),
        McaParseError::NbtParseError(TagError::Malformed)
    );
    assert_eq!(*calls.borrow(), 2);
    let data = region_file(&[stored(0, 3, &[0]), stored(1, 9, &[1]), stored(2, 3, &[0xff])]);
    assert_eq!(
        Region::parse_region(data, &counting).unwrap_err(),
        McaParseError::UnsupportedCompression(9)
    );
    assert_eq!(*calls.borrow(), 3);
    let mut data = region_file(&[stored(5, 3, &[0xff]), stored(4, 3, &[4])]);
    data.truncate(8192 + 4096 + 100);
    assert_eq!(Region::parse_region(data, &counting).unwrap_err(), McaParseError::EndOfData);
    assert_eq!(*calls.borrow(), 3);
}

#[test]
fn slots_with_a_zero_offset_or_count_are_absent() {
    let mut data = region_file(&[stored(0, 3, &[0])]);
    data[4..8].copy_from_slice(&[0, 0, 0, 9]);
    data[8..12].copy_from_slice(&[0, 0, 2, 0]);
    let region = Region::parse_region(data, decode_by_first_byte).unwrap();
    assert_eq!(region.chunks().len(), 1);
}

#[test]
fn chunk_fields_are_read_in_order() {
    let err = |tag: Tag| Chunk::parse_chunk(&tag).unwrap_err();
    let full = |drop: &str| {
        let tag = chunk_tag(1, 2, "minecraft:full", sections(0, "minecraft:stone"));
        match tag {
            Tag::Compound(name, children) => Tag::Compound(
                name,
                children.into_iter().filter(|c| c.name() != drop).collect(),
            ),
            other => other,
        }
    };
    for field in ["sections", "DataVersion", "xPos", "yPos", "zPos", "Status"] {
        assert_eq!(err(full(field)), McaParseError::NbtParseError(TagError::NotFound), "{}", field);
    }
    assert!(Chunk::parse_chunk(&full("Heightmaps")).is_ok());
    let bad_section = chunk_tag(1, 2, "minecraft:full", vec![Tag::Other(String::new())]);
    assert_eq!(err(bad_section), McaParseError::NbtParseError(TagError::WrongType));
    let wrong_kind = Tag::Compound(
        String::new(),
        vec![Tag::List("sections".to_string(), vec![]), text("DataVersion", "1")],
    );
    assert_eq!(err(wrong_kind), McaParseError::NbtParseError(TagError::WrongType));
    let short_data = Tag::Compound(
        String::new(),
        vec![Tag::List(
            "sections".to_string(),
            vec![Tag::Compound(
                String::new(),
                vec![Tag::Compound(
                    "block_states".to_string(),
                    vec![
                        Tag::List(
                            "palette".to_string(),
                            vec![
                                Tag::Compound(String::new(), vec![text("Name", "a")]),
                                Tag::Compound(String::new(), vec![text("Name", "b")]),
                            ],
                        ),
                        Tag::LongArray("data".to_string(), vec![0; 10]),
                    ],
                )],
            )],
        )],
    );
    assert_eq!(err(short_data), McaParseError::EndOfData);
}

#[test]
fn chunk_with_few_sections_has_no_blocks_above_them() {
    let chunk = Chunk::parse_chunk(&chunk_tag(
        -3,
        4,
        "minecraft:features",
        vec![section("minecraft:bedrock"), section("minecraft:stone")],
    ))
    .unwrap();
    assert!(!chunk.is_finished());
    assert_eq!(chunk.get(Position::new(0, -64, 0)).unwrap().identifier(), "minecraft:bedrock");
    assert_eq!(chunk.get(Position::new(0, -48, 0)).unwrap().identifier(), "minecraft:stone");
    assert_eq!(chunk.get(Position::new(0, -33, 0)).unwrap().identifier(), "minecraft:stone");
    assert_eq!(chunk.get(Position::new(0, -32, 0)), None);
    assert_eq!(chunk.get(Position::new(0, 319, 0)), None);
    assert_eq!(chunk.get(Position::new(0, 320, 0)), None);
    let copy = chunk.clone();
    assert_eq!(*copy.chunk_pos(), Position::new(-3, -4, 4));
    assert_eq!(copy.status(), "minecraft:features");
    assert_eq!(copy.sections().len(), 2);
    assert_eq!(copy.get(Position::new(5, -60, 5)), chunk.get(Position::new(5, -60, 5)));
}

#[test]
fn chunk_network_data_is_that_of_its_sections() {
    let chunk = Chunk::parse_chunk(&chunk_tag(
        0,
        0,
        "minecraft:full",
        vec![section("minecraft:air"), section("minecraft:stone"), section("minecraft:air")],
    ))
    .unwrap();
    let bytes = chunk.network_data(&Zero);
    assert_eq!(
        bytes,
        vec![0, 0, 0, 0, 0, 0, 8, 0, 0x10, 0, 0, 1, 0, 0, 8, 0, 0, 0, 0, 0, 0, 0, 8, 0]
    );
    let mut joined = Vec::new();
    for s in chunk.sections() {
        joined.extend(s.network_data(&Zero));
    }
    assert_eq!(bytes, joined);
    let empty = Chunk::new(1, Position::new(0, 0, 0), "x".to_string(), Vec::new());
    assert_eq!(empty.network_data(&Zero), Vec::<u8>::new());
    assert_eq!(empty.data_version(), 1);
}
