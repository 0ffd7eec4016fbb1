//! The typed values of the format, their mathematical model and their tag ids.
use vstd::prelude::*;

verus! {

broadcast use vstd::std_specs::vec::group_vec_axioms, vstd::seq::group_seq_axioms;

/// One tag of the tree. Floating-point payloads are held as their IEEE-754 bits.
#[derive(Debug, PartialEq)]
pub enum Value {
    Byte(i8),
    Short(i16),
    Int(i32),
    Long(i64),
    Float(u32),
    Double(u64),
    ByteArray(Vec<i8>),
    String(String),
    List(Vec<Value>),
    /// Entries in insertion order; a key occurs at most once.
    Compound(Vec<(String, Value)>),
    IntArray(Vec<i32>),
    LongArray(Vec<i64>),
}

/// The mathematical model of a [`Value`].
pub enum Node {
    Byte(i8),
    Short(i16),
    Int(i32),
    Long(i64),
    Float(u32),
    Double(u64),
    ByteArray(Seq<i8>),
    Str(Seq<char>),
    List(Seq<Node>),
    Compound(Seq<(Seq<char>, Node)>),
    IntArray(Seq<i32>),
    LongArray(Seq<i64>),
}

/// What can go wrong while reading, writing or editing a tree.
#[derive(Debug, Clone, PartialEq)]
pub enum Error {
    /// The byte stream ended, or declared a negative length, before a value was complete.
    UnexpectedEof,
    /// A string's bytes are not UTF-8; carries the stream position after them.
    Utf8(u64),
    /// The root (or the edited tree's root) is not a Compound; carries its tag id.
    Root(u8),
    /// A tag id outside the known range was met while reading.
    InvalidTypeId(u8),
    /// A List holds elements of different variants.
    HeterogeneousList,
    /// A path runs through a value that is not a Compound (carries that segment),
    /// or has no segment at all (carries the empty string).
    InvalidPath(String),
}

pub open spec fn node_of(v: Value) -> Node
    decreases v,
{
    match v {
        Value::Byte(x) => Node::Byte(x),
        Value::Short(x) => Node::Short(x),
        Value::Int(x) => Node::Int(x),
        Value::Long(x) => Node::Long(x),
        Value::Float(x) => Node::Float(x),
        Value::Double(x) => Node::Double(x),
        Value::ByteArray(a) => Node::ByteArray(a@),
        Value::String(s) => Node::Str(s@),
        Value::List(l) => Node::List(
            Seq::new(l@.len(), |i: int| if 0 <= i < l@.len() { node_of(l@[i]) } else { Node::Byte(0) }),
        ),
        Value::Compound(l) => Node::Compound(
            Seq::new(
                l@.len(),
                |i: int|
                    if 0 <= i < l@.len() {
                        (l@[i].0@, node_of(l@[i].1))
                    } else {
                        (Seq::empty(), Node::Byte(0))
                    },
            ),
        ),
        Value::IntArray(a) => Node::IntArray(a@),
        Value::LongArray(a) => Node::LongArray(a@),
    }
}

impl View for Value {
    type V = Node;

    open spec fn view(&self) -> Node {
        node_of(*self)
    }
}

/// The models of a sequence of values.
pub open spec fn nodes_of(l: Seq<Value>) -> Seq<Node> {
    Seq::new(l.len(), |i: int| node_of(l[i]))
}

/// The models of a sequence of compound entries.
pub open spec fn entries_of(l: Seq<(String, Value)>) -> Seq<(Seq<char>, Node)> {
    Seq::new(l.len(), |i: int| (l[i].0@, node_of(l[i].1)))
}

/// The model of a List is the models of its elements.
pub proof fn lemma_list_view(l: Vec<Value>)
    ensures
        node_of(Value::List(l)) == Node::List(nodes_of(l@)),
{
    assert(node_of(Value::List(l))->List_0 =~= nodes_of(l@));
}

/// The model of a Compound is the models of its entries.
pub proof fn lemma_compound_view(l: Vec<(String, Value)>)
    ensures
        node_of(Value::Compound(l)) == Node::Compound(entries_of(l@)),
{
    assert(node_of(Value::Compound(l))->Compound_0 =~= entries_of(l@));
}

/// The one-byte tag id of each variant: 1 to 12 in declaration order.
pub open spec fn tag_of(n: Node) -> u8 {
    match n {
        Node::Byte(_) => 1,
        Node::Short(_) => 2,
        Node::Int(_) => 3,
        Node::Long(_) => 4,
        Node::Float(_) => 5,
        Node::Double(_) => 6,
        Node::ByteArray(_) => 7,
        Node::Str(_) => 8,
        Node::List(_) => 9,
        Node::Compound(_) => 10,
        Node::IntArray(_) => 11,
        Node::LongArray(_) => 12,
    }
}

/// The label of each variant, as shown by a display of the tree.
pub open spec fn tag_name_of(t: u8) -> Seq<char> {
    if t == 1 {
        "TAG_Byte"@
    } else if t == 2 {
        "TAG_Short"@
    } else if t == 3 {
        "TAG_Int"@
    } else if t == 4 {
        "TAG_Long"@
    } else if t == 5 {
        "TAG_Float"@
    } else if t == 6 {
        "TAG_Double"@
    } else if t == 7 {
        "TAG_ByteArray"@
    } else if t == 8 {
        "TAG_String"@
    } else if t == 9 {
        "TAG_List"@
    } else if t == 10 {
        "TAG_Compound"@
    } else if t == 11 {
        "TAG_IntArray"@
    } else {
        "TAG_LongArray"@
    }
}

/// `i` is the first index of key `k` among the entries.
pub open spec fn first_key(es: Seq<(Seq<char>, Node)>, k: Seq<char>, i: int) -> bool {
    0 <= i < es.len() && es[i].0 == k && forall|j: int| 0 <= j < i ==> es[j].0 != k
}

/// The first index of key `k` among the entries, if it is there.
pub open spec fn key_index(es: Seq<(Seq<char>, Node)>, k: Seq<char>) -> Option<int> {
    if exists|i: int| first_key(es, k, i) {
        Some(choose|i: int| first_key(es, k, i))
    } else {
        None
    }
}

pub proof fn lemma_key_index_first(es: Seq<(Seq<char>, Node)>, k: Seq<char>, i: int)
    requires
        first_key(es, k, i),
    ensures
        key_index(es, k) == Some(i),
{
    let j = choose|j: int| first_key(es, k, j);
    assert(first_key(es, k, j));
    if j < i {
        assert(es[j].0 != k);
    } else if i < j {
        assert(es[i].0 != k);
    }
}

pub proof fn lemma_key_index_none(es: Seq<(Seq<char>, Node)>, k: Seq<char>)
    requires
        forall|j: int| 0 <= j < es.len() ==> (#[trigger] es[j]).0 != k,
    ensures
        key_index(es, k) is None,
{
}

/// No key occurs twice among the entries.
pub open spec fn keys_unique(es: Seq<(Seq<char>, Node)>) -> bool {
    forall|i: int, j: int| 0 <= i < j < es.len() ==> es[i].0 != es[j].0
}

/// Insert `v` under `k`: replace the value in place where `k` is present, else append.
pub open spec fn put(es: Seq<(Seq<char>, Node)>, k: Seq<char>, v: Node) -> Seq<(Seq<char>, Node)> {
    match key_index(es, k) {
        Some(i) => es.update(i, (k, v)),
        None => es.push((k, v)),
    }
}

/// Remove the entry under `k`, if any, keeping the order of the others.
pub open spec fn delete(es: Seq<(Seq<char>, Node)>, k: Seq<char>) -> Seq<(Seq<char>, Node)> {
    match key_index(es, k) {
        Some(i) => es.remove(i),
        None => es,
    }
}

/// Every Compound in the tree has unique keys.
pub open spec fn well_formed(n: Node) -> bool
    decreases n,
{
    match n {
        Node::List(l) => all_well_formed(l),
        Node::Compound(es) => keys_unique(es) && entries_well_formed(es),
        _ => true,
    }
}

pub open spec fn all_well_formed(l: Seq<Node>) -> bool
    decreases l,
{
    l.len() == 0 || (all_well_formed(l.drop_last()) && well_formed(l.last()))
}

pub open spec fn entries_well_formed(es: Seq<(Seq<char>, Node)>) -> bool
    decreases es,
{
    es.len() == 0 || (entries_well_formed(es.drop_last()) && well_formed(es.last().1))
}

pub proof fn lemma_all_well_formed(l: Seq<Node>)
    ensures
        all_well_formed(l) <==> forall|i: int| 0 <= i < l.len() ==> #[trigger] well_formed(l[i]),
    decreases l.len(),
{
    if l.len() > 0 {
        let d = l.drop_last();
        lemma_all_well_formed(d);
        assert(l.last() == l[l.len() - 1]);
        assert(forall|i: int| 0 <= i < d.len() ==> #[trigger] d[i] == l[i]);
        if all_well_formed(l) {
            assert forall|i: int| 0 <= i < l.len() implies #[trigger] well_formed(l[i]) by {
                if i < d.len() {
                    assert(d[i] == l[i]);
                }
            }
        }
        if forall|i: int| 0 <= i < l.len() ==> #[trigger] well_formed(l[i]) {
            assert forall|i: int| 0 <= i < d.len() implies #[trigger] well_formed(d[i]) by {
                assert(d[i] == l[i]);
            }
            assert(well_formed(l[l.len() - 1]));
        }
    }
}

pub proof fn lemma_entries_well_formed(es: Seq<(Seq<char>, Node)>)
    ensures
        entries_well_formed(es) <==> forall|i: int| 0 <= i < es.len() ==> #[trigger] well_formed(es[i].1),
    decreases es.len(),
{
    if es.len() > 0 {
        let d = es.drop_last();
        lemma_entries_well_formed(d);
        assert(es.last() == es[es.len() - 1]);
        assert(forall|i: int| 0 <= i < d.len() ==> #[trigger] d[i] == es[i]);
        if entries_well_formed(es) {
            assert forall|i: int| 0 <= i < es.len() implies #[trigger] well_formed(es[i].1) by {
                if i < d.len() {
                    assert(d[i] == es[i]);
                }
            }
        }
        if forall|i: int| 0 <= i < es.len() ==> #[trigger] well_formed(es[i].1) {
            assert forall|i: int| 0 <= i < d.len() implies #[trigger] well_formed(d[i].1) by {
                assert(d[i] == es[i]);
            }
            assert(well_formed(es[es.len() - 1].1));
        }
    }
}

impl Value {
    /// The tag id of this value's variant.
    pub fn tag(&self) -> (r: u8)
        ensures
            r == tag_of(self@),
            1 <= r <= 12,
    {
        match self {
            Value::Byte(_) => 1,
            Value::Short(_) => 2,
            Value::Int(_) => 3,
            Value::Long(_) => 4,
            Value::Float(_) => 5,
            Value::Double(_) => 6,
            Value::ByteArray(_) => 7,
            Value::String(_) => 8,
            Value::List(_) => 9,
            Value::Compound(_) => 10,
            Value::IntArray(_) => 11,
            Value::LongArray(_) => 12,
        }
    }

    /// The display label of this value's variant.
    pub fn tag_name(&self) -> (r: &'static str)
        ensures
            r@ == tag_name_of(tag_of(self@)),
    {
        let t = self.tag();
        let r = if t == 1 {
            "TAG_Byte"
        } else if t == 2 {
            "TAG_Short"
        } else if t == 3 {
            "TAG_Int"
        } else if t == 4 {
            "TAG_Long"
        } else if t == 5 {
            "TAG_Float"
        } else if t == 6 {
            "TAG_Double"
        } else if t == 7 {
            "TAG_ByteArray"
        } else if t == 8 {
            "TAG_String"
        } else if t == 9 {
            "TAG_List"
        } else if t == 10 {
            "TAG_Compound"
        } else if t == 11 {
            "TAG_IntArray"
        } else {
            "TAG_LongArray"
        };
        proof {
            reveal_strlit("TAG_Byte");
            reveal_strlit("TAG_Short");
            reveal_strlit("TAG_Int");
            reveal_strlit("TAG_Long");
            reveal_strlit("TAG_Float");
            reveal_strlit("TAG_Double");
            reveal_strlit("TAG_ByteArray");
            reveal_strlit("TAG_String");
            reveal_strlit("TAG_List");
            reveal_strlit("TAG_Compound");
            reveal_strlit("TAG_IntArray");
            reveal_strlit("TAG_LongArray");
        }
        r
    }
}

} // verus!
