use unity_asset::object::{Deserializer, Event, ObjectInfo, ReadTypeTreeError};
use unity_asset::reader::{ByteOrder, Reader};
use unity_asset::typetree::{get_level_length, TypeTreeNode};

fn node(level: u8, ty: &str, name: &str, meta_flag: i32) -> TypeTreeNode {
    TypeTreeNode {
        version: 1,
        level,
        type_: ty.to_string(),
        name: name.to_string(),
        byte_size: -1,
        index: 0,
        meta_flag,
    }
}

fn run(nodes: &[TypeTreeNode], bytes: &[u8], order: ByteOrder) -> (Result<Vec<Event>, ReadTypeTreeError>, usize, usize) {
    let mut de = Deserializer::new(nodes, Reader::new(bytes, order));
    let r = de.decode();
    (r, de.index, de.reader.pos)
}

#[test]
fn record_with_int_and_string() {
    let nodes = vec![
        node(0, "Base", "root", 0),
        node(1, "int", "x", 0),
        node(1, "string", "s", 0),
        node(2, "Array", "Array", 0),
        node(3, "char", "data", 0),
    ];
    let bytes = [5, 0, 0, 0, 3, 0, 0, 0, b'a', b'b', b'c', 0];
    let (r, _, pos) = run(&nodes, &bytes, ByteOrder::Little);
    let evs = r.unwrap();
    assert_eq!(
        evs,
        vec![
            Event::RecordStart,
            Event::Field(1),
            Event::I32(5),
            Event::Field(2),
            Event::Str { start: 8, len: 3 },
            Event::End,
        ]
    );
    assert_eq!(nodes[1].name, "x");
    assert_eq!(nodes[2].name, "s");
    assert_eq!(&bytes[8..11], b"abc");
    assert_eq!(pos, 12);
}

#[test]
fn map_of_two_int_pairs() {
    let nodes = vec![
        node(0, "map", "m", 0),
        node(1, "Array", "Array", 0),
        node(2, "int", "size", 0),
        node(2, "pair", "data", 0),
        node(3, "int", "first", 0),
        node(3, "int", "second", 0),
    ];
    let bytes = [2, 0, 0, 0, 1, 0, 0, 0, 10, 0, 0, 0, 2, 0, 0, 0, 20, 0, 0, 0];
    let (r, index, pos) = run(&nodes, &bytes, ByteOrder::Little);
    assert_eq!(
        r.unwrap(),
        vec![
            Event::MapStart(2),
            Event::I32(1),
            Event::I32(10),
            Event::I32(2),
            Event::I32(20),
            Event::End,
        ]
    );
    assert_eq!(index, 5);
    assert_eq!(pos, 20);
}

#[test]
fn array_of_three_floats() {
    let nodes = vec![
        node(0, "vector", "v", 0),
        node(1, "Array", "Array", 0),
        node(2, "int", "size", 0),
        node(2, "float", "data", 0),
    ];
    let mut bytes = vec![3, 0, 0, 0];
    for f in [1.0f32, 2.0, 3.0] {
        bytes.extend_from_slice(&f.to_le_bytes());
    }
    let (r, index, pos) = run(&nodes, &bytes, ByteOrder::Little);
    let evs = r.unwrap();
    assert_eq!(evs.len(), 5);
    assert_eq!(evs[0], Event::SeqStart(3));
    let floats: Vec<f32> = evs[1..4]
        .iter()
        .map(|e| match e {
            Event::F32(bits) => f32::from_bits(*bits),
            other => panic!("unexpected {:?}", other),
        })
        .collect();
    assert_eq!(floats, vec![1.0, 2.0, 3.0]);
    assert_eq!(evs[4], Event::End);
    assert_eq!(index, 3);
    assert_eq!(pos, 16);
}

#[test]
fn typeless_data_blob() {
    let nodes = vec![
        node(0, "TypelessData", "image data", 0),
        node(1, "int", "size", 0),
        node(1, "UInt8", "data", 0),
    ];
    let bytes = [4, 0, 0, 0, 0xDE, 0xAD, 0xBE, 0xEF];
    let (r, index, pos) = run(&nodes, &bytes, ByteOrder::Little);
    assert_eq!(r.unwrap(), vec![Event::Bytes { start: 4, len: 4 }]);
    assert_eq!(&bytes[4..8], &[0xDE, 0xAD, 0xBE, 0xEF]);
    assert_eq!(index, 2);
    assert_eq!(pos, 8);
}

fn one(ty: &str, bytes: &[u8], order: ByteOrder) -> Event {
    let nodes = vec![node(0, ty, "v", 0)];
    let (r, index, pos) = run(&nodes, bytes, order);
    assert_eq!(index, 0);
    assert_eq!(pos, bytes.len());
    let evs = r.unwrap();
    assert_eq!(evs.len(), 1);
    evs[0]
}

#[test]
fn primitives_round_trip_both_orders() {
    for order in [ByteOrder::Little, ByteOrder::Big] {
        let le = order == ByteOrder::Little;
        assert_eq!(one("SInt8", &[0x85], order), Event::I8(-123));
        assert_eq!(one("UInt8", &[200], order), Event::U8(200));
        assert_eq!(one("char", &[b'z'], order), Event::U8(b'z'));
        let b = if le { (-1234i16).to_le_bytes() } else { (-1234i16).to_be_bytes() };
        assert_eq!(one("short", &b, order), Event::I16(-1234));
        assert_eq!(one("SInt16", &b, order), Event::I16(-1234));
        let b = if le { 51234u16.to_le_bytes() } else { 51234u16.to_be_bytes() };
        assert_eq!(one("UInt16", &b, order), Event::U16(51234));
        assert_eq!(one("unsigned short", &b, order), Event::U16(51234));
        let b = if le { (-7654321i32).to_le_bytes() } else { (-7654321i32).to_be_bytes() };
        assert_eq!(one("int", &b, order), Event::I32(-7654321));
        assert_eq!(one("SInt32", &b, order), Event::I32(-7654321));
        let b = if le { 4000000000u32.to_le_bytes() } else { 4000000000u32.to_be_bytes() };
        assert_eq!(one("UInt32", &b, order), Event::U32(4000000000));
        assert_eq!(one("unsigned int", &b, order), Event::U32(4000000000));
        assert_eq!(one("Type*", &b, order), Event::U32(4000000000));
        let v = -9_000_000_000_000i64;
        let b = if le { v.to_le_bytes() } else { v.to_be_bytes() };
        assert_eq!(one("long long", &b, order), Event::I64(v));
        assert_eq!(one("SInt64", &b, order), Event::I64(v));
        let v = 18_000_000_000_000_000_000u64;
        let b = if le { v.to_le_bytes() } else { v.to_be_bytes() };
        assert_eq!(one("UInt64", &b, order), Event::U64(v));
        assert_eq!(one("unsigned long long", &b, order), Event::U64(v));
        assert_eq!(one("FileSize", &b, order), Event::U64(v));
        let f = -2.5f32;
        let b = if le { f.to_le_bytes() } else { f.to_be_bytes() };
        assert_eq!(one("float", &b, order), Event::F32(f.to_bits()));
        let d = 6.02e23f64;
        let b = if le { d.to_le_bytes() } else { d.to_be_bytes() };
        assert_eq!(one("double", &b, order), Event::F64(d.to_bits()));
        assert_eq!(one("bool", &[1], order), Event::Bool(true));
        assert_eq!(one("bool", &[7], order), Event::Bool(true));
        assert_eq!(one("bool", &[0], order), Event::Bool(false));
    }
}

#[test]
fn aligned_node_ends_on_four_bytes() {
    let nodes = vec![
        node(0, "Base", "root", 0),
        node(1, "bool", "flag", 0x4000),
        node(1, "int", "n", 0),
    ];
    let bytes = [1, 0xAA, 0xBB, 0xCC, 9, 0, 0, 0];
    let (r, index, pos) = run(&nodes, &bytes, ByteOrder::Little);
    assert_eq!(
        r.unwrap(),
        vec![Event::RecordStart, Event::Field(1), Event::Bool(true), Event::Field(2), Event::I32(9), Event::End]
    );
    assert_eq!(index, 2);
    assert_eq!(pos, 8);
}

#[test]
fn array_flag_on_child_aligns_container() {
    let nodes = vec![
        node(0, "vector", "v", 0),
        node(1, "Array", "Array", 0x4000),
        node(2, "int", "size", 0),
        node(2, "UInt8", "data", 0),
    ];
    let bytes = [3, 0, 0, 0, 7, 8, 9, 0];
    let (r, index, pos) = run(&nodes, &bytes, ByteOrder::Little);
    assert_eq!(
        r.unwrap(),
        vec![Event::SeqStart(3), Event::U8(7), Event::U8(8), Event::U8(9), Event::End]
    );
    assert_eq!(index, 3);
    assert_eq!(pos, 8);
}

#[test]
fn empty_record_has_no_fields() {
    let nodes = vec![node(0, "Base", "root", 0), node(1, "Empty", "e", 0), node(1, "int", "n", 0)];
    let bytes = [4, 0, 0, 0];
    let (r, index, pos) = run(&nodes, &bytes, ByteOrder::Little);
    assert_eq!(
        r.unwrap(),
        vec![
            Event::RecordStart,
            Event::Field(1),
            Event::RecordStart,
            Event::End,
            Event::Field(2),
            Event::I32(4),
            Event::End,
        ]
    );
    assert_eq!(index, 2);
    assert_eq!(pos, 4);
}

#[test]
fn short_buffer_is_buf_eof() {
    let nodes = vec![node(0, "int", "x", 0)];
    let (r, _, _) = run(&nodes, &[1, 2], ByteOrder::Little);
    assert!(matches!(r, Err(ReadTypeTreeError::BufEof)));
}

#[test]
fn negative_count_is_buf_eof() {
    let nodes = vec![
        node(0, "TypelessData", "image data", 0),
        node(1, "int", "size", 0),
        node(1, "UInt8", "data", 0),
    ];
    let (r, _, _) = run(&nodes, &[0xFF, 0xFF, 0xFF, 0xFF, 1, 2], ByteOrder::Little);
    assert!(matches!(r, Err(ReadTypeTreeError::BufEof)));
}

#[test]
fn missing_node_is_node_eof() {
    let nodes: Vec<TypeTreeNode> = Vec::new();
    let (r, _, _) = run(&nodes, &[1, 2, 3, 4], ByteOrder::Little);
    assert!(matches!(r, Err(ReadTypeTreeError::NodeEof)));
    let nodes = vec![node(0, "vector", "v", 0), node(1, "Array", "Array", 0), node(2, "int", "size", 0)];
    let (r, _, _) = run(&nodes, &[1, 0, 0, 0], ByteOrder::Little);
    assert!(matches!(r, Err(ReadTypeTreeError::NodeEof)));
}

#[test]
fn level_length_counts_subtree() {
    let nodes = vec![
        node(0, "Base", "root", 0),
        node(1, "int", "x", 0),
        node(1, "string", "s", 0),
        node(2, "Array", "Array", 0),
        node(3, "char", "data", 0),
    ];
    assert_eq!(get_level_length(&nodes, 0), 5);
    assert_eq!(get_level_length(&nodes, 1), 1);
    assert_eq!(get_level_length(&nodes, 2), 3);
    assert_eq!(get_level_length(&nodes, 5), 0);
}

#[test]
fn object_reads_from_its_start() {
    let info = ObjectInfo {
        asset_version: 22,
        bytes_start: 2,
        bytes_size: 4,
        data: vec![0xFF, 0xFF, 0, 0, 0, 1],
        bytes_order: ByteOrder::Big,
        type_id: 0,
        class_id: 28,
        is_destroyed: 0,
        stripped: 0,
        path_id: 1,
        nodes: vec![node(0, "UInt32", "v", 0)],
        version: [2020, 3, 1, 1],
    };
    assert_eq!(info.class().id, 28);
    assert_eq!(info.get_reader().data, &[0, 0, 0, 1]);
    assert_eq!(info.read_type_tree().unwrap(), vec![Event::U32(1)]);
}

#[test]
fn string_that_is_not_utf8_is_rejected() {
    let nodes = vec![
        node(0, "string", "s", 0),
        node(1, "Array", "Array", 0),
        node(2, "char", "data", 0),
    ];
    let bytes = [2, 0, 0, 0, 0xC3, 0x28, 0, 0];
    let (r, _, _) = run(&nodes, &bytes, ByteOrder::Little);
    assert!(matches!(r, Err(ReadTypeTreeError::Utf8)));
    let cut = [2, 0, 0, 0, 0xC3];
    let (r, _, _) = run(&nodes, &cut, ByteOrder::Little);
    assert!(matches!(r, Err(ReadTypeTreeError::BufEof)));
}

#[test]
fn node_eof_at_entry_leaves_the_walk_unchanged() {
    let nodes = vec![node(0, "int", "x", 0)];
    let bytes = [1, 0, 0, 0];
    let mut de = Deserializer::new(&nodes, Reader::new(&bytes, ByteOrder::Little));
    de.index = 3;
    assert!(matches!(de.decode(), Err(ReadTypeTreeError::NodeEof)));
    assert_eq!(de.index, 3);
    assert_eq!(de.reader.pos, 0);
}
