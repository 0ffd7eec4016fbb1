use nbtrock::{Error, Value, NBT};

fn s(x: &str) -> String {
    x.to_string()
}

#[test]
fn set_creates_intermediates() {
    let mut tree = NBT::named("").unwrap();
    tree.set("a/b/c", Some(Value::String(s("x")))).unwrap();
    let expected = Value::Compound(vec![(
        s("a"),
        Value::Compound(vec![(s("b"), Value::Compound(vec![(s("c"), Value::String(s("x")))]))]),
    )]);
    assert_eq!(tree.data, expected);
}

#[test]
fn set_replaces_in_place() {
    let mut tree = NBT::named("t").unwrap();
    tree.set("x", Some(Value::Int(1))).unwrap();
    tree.set("y", Some(Value::Int(2))).unwrap();
    tree.set("x", Some(Value::Int(3))).unwrap();
    assert_eq!(
        tree.data,
        Value::Compound(vec![(s("x"), Value::Int(3)), (s("y"), Value::Int(2))])
    );
}

#[test]
fn set_removes_existing_key() {
    let mut tree = NBT::named("").unwrap();
    tree.set("a/b", Some(Value::Int(1))).unwrap();
    tree.set("a/c", Some(Value::Int(2))).unwrap();
    tree.set("a/b", None).unwrap();
    assert_eq!(
        tree.data,
        Value::Compound(vec![(s("a"), Value::Compound(vec![(s("c"), Value::Int(2))]))])
    );
}

#[test]
fn set_removing_absent_key_is_noop() {
    let mut tree = NBT::named("").unwrap();
    tree.set("a/b", Some(Value::Int(1))).unwrap();
    tree.set("a/zz", None).unwrap();
    tree.set("q", None).unwrap();
    assert_eq!(
        tree.data,
        Value::Compound(vec![(s("a"), Value::Compound(vec![(s("b"), Value::Int(1))]))])
    );
}

#[test]
fn set_through_non_container_fails() {
    let mut tree = NBT::named("").unwrap();
    tree.set("a", Some(Value::Int(1))).unwrap();
    tree.set("b", Some(Value::Int(2))).unwrap();
    assert_eq!(tree.set("a/c", Some(Value::Int(5))), Err(Error::InvalidPath(s("a"))));
    assert_eq!(
        tree.data,
        Value::Compound(vec![(s("a"), Value::Int(1)), (s("b"), Value::Int(2))])
    );
}

#[test]
fn set_on_non_compound_root_fails() {
    let mut tree = NBT { name: s(""), data: Value::Int(4) };
    assert_eq!(tree.set("a", Some(Value::Int(1))), Err(Error::Root(3)));
    assert_eq!(tree.data, Value::Int(4));
}

#[test]
fn set_with_empty_path_fails() {
    let mut tree = NBT::named("").unwrap();
    assert_eq!(tree.set("", Some(Value::Int(1))), Err(Error::InvalidPath(s(""))));
    assert_eq!(tree.set("//", None), Err(Error::InvalidPath(s(""))));
    assert_eq!(tree.data, Value::Compound(vec![]));
}

#[test]
fn set_skips_empty_segments() {
    let mut tree = NBT::named("").unwrap();
    tree.set("/a//b/", Some(Value::Byte(1))).unwrap();
    assert_eq!(
        tree.data,
        Value::Compound(vec![(s("a"), Value::Compound(vec![(s("b"), Value::Byte(1))]))])
    );
}

#[test]
fn set_repeated_segment_names() {
    let mut tree = NBT::named("").unwrap();
    tree.set("a/a", Some(Value::Short(7))).unwrap();
    assert_eq!(
        tree.data,
        Value::Compound(vec![(s("a"), Value::Compound(vec![(s("a"), Value::Short(7))]))])
    );
}

#[test]
fn edited_tree_encodes() {
    let mut tree = NBT::named("Test").unwrap();
    tree.set("key", Some(Value::Int(3))).unwrap();
    let bytes = tree.bytes(false).unwrap();
    assert_eq!(
        bytes,
        vec![0x0A, 4, 0, b'T', b'e', b's', b't', 3, 3, 0, b'k', b'e', b'y', 3, 0, 0, 0, 0]
    );
}

#[test]
fn removal_below_missing_parent_creates_it() {
    let mut tree = NBT::named("").unwrap();
    tree.set("x/y", None).unwrap();
    assert_eq!(tree.data, Value::Compound(vec![(s("x"), Value::Compound(vec![]))]));
}
