use nbtrock::reader::read_string;
use nbtrock::writer::write_string;
use nbtrock::{read_next_header, Error, Value, NBT};

fn s(x: &str) -> String {
    x.to_string()
}

fn example_tree() -> NBT {
    NBT { name: s("Test"), data: Value::Compound(vec![(s("key"), Value::Int(3))]) }
}

const EXAMPLE: [u8; 18] = [
    0x0A, 0x04, 0x00, b'T', b'e', b's', b't', 0x03, 0x03, 0x00, b'k', b'e', b'y', 0x03, 0x00, 0x00,
    0x00, 0x00,
];

fn payload(v: &Value) -> Vec<u8> {
    let mut out = Vec::new();
    v.write(&mut out).unwrap();
    out
}

#[test]
fn example_end_to_end() {
    let bytes = example_tree().bytes(false).unwrap();
    assert_eq!(bytes, EXAMPLE.to_vec());
    let back = NBT::from(bytes).unwrap();
    assert_eq!(back, example_tree());
}

#[test]
fn example_framed() {
    let bytes = example_tree().bytes(true).unwrap();
    let mut expected = vec![8, 0, 0, 0, 18, 0, 0, 0];
    expected.extend_from_slice(&EXAMPLE);
    assert_eq!(bytes, expected);
    let mut buf = bytes.clone();
    let back = NBT::new(&mut buf).unwrap();
    assert_eq!(buf, bytes);
    assert_eq!(back, example_tree());
}

#[test]
fn write_appends_to_buffer() {
    let mut out = vec![0xEE];
    example_tree().write(&mut out, false).unwrap();
    let mut expected = vec![0xEE];
    expected.extend_from_slice(&EXAMPLE);
    assert_eq!(out, expected);
}

#[test]
fn root_tag_rejected() {
    let bytes = vec![0x03, 0x01, 0x00, b'x', 0, 0, 0, 0];
    assert_eq!(NBT::read(&bytes), Err(Error::Root(3)));
}

#[test]
fn root_sentinel_rejected() {
    assert_eq!(NBT::read(&[0, 0, 0, 0]), Err(Error::Root(0)));
}

#[test]
fn stream_too_short() {
    assert_eq!(NBT::read(&[0x0A, 0x00]), Err(Error::UnexpectedEof));
}

#[test]
fn truncated_value() {
    let bytes = vec![0x0A, 0, 0, 0x03, 1, 0, b'a', 1, 0];
    assert_eq!(NBT::read(&bytes), Err(Error::UnexpectedEof));
}

#[test]
fn invalid_type_id() {
    let bytes = vec![0x0A, 0, 0, 0x0D, 1, 0, b'a', 0];
    assert_eq!(NBT::read(&bytes), Err(Error::InvalidTypeId(13)));
}

#[test]
fn invalid_utf8_name() {
    let bytes = vec![0x0A, 0x01, 0x00, 0xFF, 0x00];
    assert_eq!(NBT::read(&bytes), Err(Error::Utf8(4)));
}

#[test]
fn negative_list_count() {
    let bytes = vec![0x0A, 0, 0, 0x09, 1, 0, b'l', 0x03, 0xFF, 0xFF, 0xFF, 0xFF, 0];
    assert_eq!(NBT::read(&bytes), Err(Error::UnexpectedEof));
}

#[test]
fn heterogeneous_list_rejected() {
    let list = Value::List(vec![Value::Int(1), Value::Short(2)]);
    let mut out = vec![1, 2, 3];
    assert_eq!(list.write(&mut out), Err(Error::HeterogeneousList));
    assert_eq!(out, vec![1, 2, 3]);
    let tree = NBT { name: s(""), data: Value::Compound(vec![(s("l"), list)]) };
    assert_eq!(tree.bytes(false), Err(Error::HeterogeneousList));
    let mut out = vec![9];
    assert_eq!(tree.write(&mut out, true), Err(Error::HeterogeneousList));
    assert_eq!(out, vec![9]);
}

#[test]
fn nested_heterogeneous_list_rejected() {
    let inner = Value::List(vec![Value::Byte(1), Value::String(s("x"))]);
    let outer = Value::List(vec![Value::List(vec![]), inner]);
    let mut out = vec![7];
    assert_eq!(outer.write(&mut out), Err(Error::HeterogeneousList));
    assert_eq!(out, vec![7]);
}

#[test]
fn root_not_compound_rejected_on_write() {
    let tree = NBT { name: s("x"), data: Value::Int(1) };
    assert_eq!(tree.bytes(false), Err(Error::Root(3)));
}

#[test]
fn empty_string_round_trip() {
    assert_eq!(payload(&Value::String(s(""))), vec![0, 0]);
    let tree = NBT { name: s(""), data: Value::Compound(vec![(s("e"), Value::String(s("")))]) };
    let bytes = tree.bytes(false).unwrap();
    assert_eq!(bytes, vec![0x0A, 0, 0, 0x08, 1, 0, b'e', 0, 0, 0]);
    assert_eq!(NBT::read(&bytes).unwrap(), tree);
}

#[test]
fn empty_list_encoding() {
    assert_eq!(payload(&Value::List(vec![])), vec![0, 0, 0, 0, 0]);
}

#[test]
fn scalar_encodings() {
    assert_eq!(payload(&Value::Byte(-1)), vec![0xFF]);
    assert_eq!(payload(&Value::Short(-2)), vec![0xFE, 0xFF]);
    assert_eq!(payload(&Value::Int(0x01020304)), vec![4, 3, 2, 1]);
    assert_eq!(payload(&Value::Long(-1)), vec![0xFF; 8]);
    assert_eq!(payload(&Value::Long(1)), vec![1, 0, 0, 0, 0, 0, 0, 0]);
    assert_eq!(payload(&Value::Float(1.0f32.to_bits())), vec![0, 0, 0x80, 0x3F]);
    assert_eq!(payload(&Value::Double(1.0f64.to_bits())), vec![0, 0, 0, 0, 0, 0, 0xF0, 0x3F]);
}

#[test]
fn array_encodings() {
    assert_eq!(payload(&Value::ByteArray(vec![1, -1])), vec![2, 0, 0, 0, 1, 0xFF]);
    assert_eq!(
        payload(&Value::IntArray(vec![1, -1])),
        vec![2, 0, 0, 0, 1, 0, 0, 0, 0xFF, 0xFF, 0xFF, 0xFF]
    );
    assert_eq!(
        payload(&Value::LongArray(vec![2])),
        vec![1, 0, 0, 0, 2, 0, 0, 0, 0, 0, 0, 0]
    );
}

#[test]
fn string_and_list_encodings() {
    assert_eq!(payload(&Value::String(s("hé"))), vec![3, 0, b'h', 0xC3, 0xA9]);
    assert_eq!(
        payload(&Value::List(vec![Value::Short(1), Value::Short(2)])),
        vec![2, 2, 0, 0, 0, 1, 0, 2, 0]
    );
}

#[test]
fn duplicate_key_replaces_in_place() {
    let bytes = vec![
        0x0A, 0, 0, 0x01, 1, 0, b'a', 1, 0x01, 1, 0, b'b', 2, 0x01, 1, 0, b'a', 3, 0,
    ];
    let tree = NBT::read(&bytes).unwrap();
    assert_eq!(
        tree.data,
        Value::Compound(vec![(s("a"), Value::Byte(3)), (s("b"), Value::Byte(2))])
    );
}

#[test]
fn rich_tree_round_trip() {
    let inner = Value::Compound(vec![
        (s("pos"), Value::IntArray(vec![1, -2, 3])),
        (s("id"), Value::String(s("minecraft:stone"))),
    ]);
    let tree = NBT {
        name: s("structure"),
        data: Value::Compound(vec![
            (s("b"), Value::Byte(-5)),
            (s("s"), Value::Short(300)),
            (s("l"), Value::Long(-9_000_000_000)),
            (s("f"), Value::Float(0.5f32.to_bits())),
            (s("d"), Value::Double((-2.25f64).to_bits())),
            (s("ba"), Value::ByteArray(vec![0, 127, -128])),
            (s("la"), Value::LongArray(vec![i64::MIN, i64::MAX])),
            (s("empty"), Value::List(vec![])),
            (s("blocks"), Value::List(vec![inner, Value::Compound(vec![])])),
            (s("nested"), Value::List(vec![Value::List(vec![Value::Int(1)]), Value::List(vec![])])),
        ]),
    };
    for framed in [false, true] {
        let bytes = tree.bytes(framed).unwrap();
        assert_eq!(NBT::read(&bytes).unwrap(), tree);
    }
}

#[test]
fn header_probe() {
    let data: Vec<u8> = (1..=10).collect();
    assert_eq!(NBT::header(&data), Ok(Some([1, 2, 3, 4, 5, 6, 7, 8])));
    assert_eq!(NBT::header(&data[..8]), Ok(Some([1, 2, 3, 4, 5, 6, 7, 8])));
    assert_eq!(NBT::header(&data[..7]), Ok(None));
    assert_eq!(NBT::header(&[]), Ok(None));
}

#[test]
fn header_of_framed_bytes() {
    let bytes = example_tree().bytes(true).unwrap();
    assert_eq!(NBT::header(&bytes), Ok(Some([8, 0, 0, 0, 18, 0, 0, 0])));
}

#[test]
fn tag_ids_and_names() {
    assert_eq!(Value::Byte(0).tag(), 1);
    assert_eq!(Value::Int(0).tag(), 3);
    assert_eq!(Value::Compound(vec![]).tag(), 10);
    assert_eq!(Value::LongArray(vec![]).tag(), 12);
    assert_eq!(Value::Int(0).tag_name(), "TAG_Int");
    assert_eq!(Value::List(vec![]).tag_name(), "TAG_List");
    assert_eq!(Value::IntArray(vec![]).tag_name(), "TAG_IntArray");
}

#[test]
fn named_tree_is_empty_compound() {
    let tree = NBT::named("hello").unwrap();
    assert_eq!(tree.name, "hello");
    assert_eq!(tree.data, Value::Compound(vec![]));
    let mut tree = tree;
    tree.set_set_name(s("other"));
    assert_eq!(tree.name, "other");
}

#[test]
fn next_header_reads_id_and_name() {
    let bytes = [0x08, 2, 0, b'h', b'i', 0x00];
    assert_eq!(read_next_header(&bytes, 0), Ok((8, s("hi"), 5)));
    assert_eq!(read_next_header(&bytes, 5), Ok((0, s(""), 6)));
    assert_eq!(read_next_header(&bytes, 6), Err(Error::UnexpectedEof));
    assert_eq!(read_next_header(&[0x01, 5, 0, b'a'], 0), Err(Error::UnexpectedEof));
}

#[test]
fn string_read_and_write() {
    let mut out = vec![0xAA];
    write_string(&mut out, "ab");
    assert_eq!(out, vec![0xAA, 2, 0, b'a', b'b']);
    assert_eq!(read_string(&out, 1), Ok((s("ab"), 5)));
    assert_eq!(read_string(&[0, 0], 0), Ok((s(""), 2)));
    assert_eq!(read_string(&[2, 0, 0xC3, 0x28], 0), Err(Error::Utf8(4)));
}

#[test]
fn framing_magic_in_unframed_stream_is_taken_as_header() {
    // A stream whose first four bytes read 8 is always treated as framed.
    let mut bytes = vec![8, 0, 0, 0, 0, 0, 0, 0];
    bytes.extend_from_slice(&EXAMPLE);
    assert_eq!(NBT::read(&bytes).unwrap(), example_tree());
    assert_eq!(NBT::read(&[8, 0, 0, 0, 0x0A]), Err(Error::UnexpectedEof));
}
