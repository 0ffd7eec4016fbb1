//! The binary encoding of values.
use vstd::prelude::*;
use vstd::utf8::encode_utf8;
use crate::value::{Error, Node, Value, nodes_of, entries_of, tag_of, lemma_list_view, lemma_compound_view};
use crate::wire::{le, le_int, push_le, push_int, lemma_p256_values};

verus! {

broadcast use vstd::std_specs::vec::group_vec_axioms, vstd::seq::group_seq_axioms, vstd::seq_lib::group_seq_lib_default;

/// A string: its UTF-8 length in two bytes (modulo 65536), then its UTF-8 bytes.
pub open spec fn enc_str(s: Seq<char>) -> Seq<u8> {
    le(encode_utf8(s).len() as int, 2) + encode_utf8(s)
}

/// Integers of `k` bytes each, one after another.
pub open spec fn ints_le(a: Seq<int>, k: nat) -> Seq<u8> {
    Seq::new(a.len(), |i: int| le_int(a[i], k)).flatten()
}

/// The payload of a value, without its tag id or name.
pub open spec fn enc(n: Node) -> Seq<u8>
    decreases n,
{
    match n {
        Node::Byte(x) => le_int(x as int, 1),
        Node::Short(x) => le_int(x as int, 2),
        Node::Int(x) => le_int(x as int, 4),
        Node::Long(x) => le_int(x as int, 8),
        Node::Float(x) => le(x as int, 4),
        Node::Double(x) => le(x as int, 8),
        Node::ByteArray(a) => le(a.len() as int, 4) + ints_le(a.map_values(|x: i8| x as int), 1),
        Node::Str(s) => enc_str(s),
        Node::List(l) => if l.len() == 0 {
            seq![0u8] + le(0, 4)
        } else {
            seq![tag_of(l[0])] + le(l.len() as int, 4) + enc_list(l)
        },
        Node::Compound(es) => enc_entries(es) + seq![0u8],
        Node::IntArray(a) => le(a.len() as int, 4) + ints_le(a.map_values(|x: i32| x as int), 4),
        Node::LongArray(a) => le(a.len() as int, 4) + ints_le(a.map_values(|x: i64| x as int), 8),
    }
}

/// The payloads of a sequence of values, one after another.
pub open spec fn enc_list(l: Seq<Node>) -> Seq<u8>
    decreases l,
{
    if l.len() == 0 {
        Seq::empty()
    } else {
        enc_list(l.drop_last()) + enc(l.last())
    }
}

/// Compound entries, each as tag id, name and payload, one after another.
pub open spec fn enc_entries(es: Seq<(Seq<char>, Node)>) -> Seq<u8>
    decreases es,
{
    if es.len() == 0 {
        Seq::empty()
    } else {
        enc_entries(es.drop_last()) + seq![tag_of(es.last().1)] + enc_str(es.last().0) + enc(es.last().1)
    }
}

/// Every List in the tree holds elements of one variant only.
pub open spec fn homogeneous(n: Node) -> bool
    decreases n,
{
    match n {
        Node::List(l) => l.len() == 0 || list_homogeneous(l, tag_of(l[0])),
        Node::Compound(es) => entries_homogeneous(es),
        _ => true,
    }
}

/// Every element has tag id `t` and is itself homogeneous.
pub open spec fn list_homogeneous(l: Seq<Node>, t: u8) -> bool
    decreases l,
{
    l.len() == 0 || (list_homogeneous(l.drop_last(), t) && tag_of(l.last()) == t && homogeneous(l.last()))
}

pub open spec fn entries_homogeneous(es: Seq<(Seq<char>, Node)>) -> bool
    decreases es,
{
    es.len() == 0 || (entries_homogeneous(es.drop_last()) && homogeneous(es.last().1))
}

pub proof fn lemma_list_homogeneous(l: Seq<Node>, t: u8)
    ensures
        list_homogeneous(l, t) <==> forall|i: int|
            0 <= i < l.len() ==> tag_of(#[trigger] l[i]) == t && homogeneous(l[i]),
    decreases l.len(),
{
    if l.len() > 0 {
        let d = l.drop_last();
        lemma_list_homogeneous(d, t);
        assert(forall|i: int| 0 <= i < d.len() ==> #[trigger] d[i] == l[i]);
        if list_homogeneous(l, t) {
            assert forall|i: int| 0 <= i < l.len() implies tag_of(#[trigger] l[i]) == t && homogeneous(l[i]) by {
                if i < d.len() {
                    assert(d[i] == l[i]);
                }
            }
        }
        if forall|i: int| 0 <= i < l.len() ==> tag_of(#[trigger] l[i]) == t && homogeneous(l[i]) {
            assert forall|i: int| 0 <= i < d.len() implies tag_of(#[trigger] d[i]) == t && homogeneous(d[i]) by {
                assert(d[i] == l[i]);
            }
            assert(l.last() == l[l.len() - 1]);
        }
    }
}

pub proof fn lemma_entries_homogeneous(es: Seq<(Seq<char>, Node)>)
    ensures
        entries_homogeneous(es) <==> forall|i: int| 0 <= i < es.len() ==> #[trigger] homogeneous(es[i].1),
    decreases es.len(),
{
    if es.len() > 0 {
        let d = es.drop_last();
        lemma_entries_homogeneous(d);
        assert(es.last() == es[es.len() - 1]);
        assert(forall|i: int| 0 <= i < d.len() ==> #[trigger] d[i] == es[i]);
        if entries_homogeneous(es) {
            assert forall|i: int| 0 <= i < es.len() implies #[trigger] homogeneous(es[i].1) by {
                if i < d.len() {
                    assert(d[i] == es[i]);
                }
            }
        }
        if forall|i: int| 0 <= i < es.len() ==> #[trigger] homogeneous(es[i].1) {
            assert forall|i: int| 0 <= i < d.len() implies #[trigger] homogeneous(d[i].1) by {
                assert(d[i] == es[i]);
            }
            assert(homogeneous(es[es.len() - 1].1));
        }
    }
}

/// Append a string as its two-byte length and its UTF-8 bytes.
pub fn write_string(c: &mut Vec<u8>, s: &str)
    ensures
        final(c)@ == old(c)@ + enc_str(s@),
{
    let b = s.as_bytes();
    push_le(c, b.len() as u64, 2);
    let ghost mid = c@;
    let mut i: usize = 0;
    while i < b.len()
        invariant
            b@ == encode_utf8(s@),
            mid == old(c)@ + le(b@.len() as int, 2),
            0 <= i <= b@.len(),
            c@ == mid + b@.subrange(0, i as int),
        decreases b@.len() - i,
    {
        c.push(b[i]);
        i = i + 1;
        assert(c@ =~= mid + b@.subrange(0, i as int));
    }
    assert(b@.subrange(0, i as int) =~= b@);
    assert(c@ =~= old(c)@ + enc_str(s@));
}

/// Append each element as a 1-byte integer.
fn write_bytes(c: &mut Vec<u8>, a: &Vec<i8>)
    ensures
        final(c)@ == old(c)@ + ints_le(a@.map_values(|x: i8| x as int), 1),
{
    let ghost s = a@.map_values(|x: i8| x as int);
    let mut i: usize = 0;
    while i < a.len()
        invariant
            s == a@.map_values(|x: i8| x as int),
            0 <= i <= a@.len(),
            c@ == old(c)@ + Seq::new(i as nat, |j: int| le_int(s[j], 1)).flatten(),
        decreases a@.len() - i,
    {
        proof { lemma_p256_values(); }
        push_int(c, a[i] as i128, 1);
        proof {
            assert(s[i as int] == a@[i as int] as int);
            let prev = Seq::new(i as nat, |j: int| le_int(s[j], 1));
            assert(Seq::new((i + 1) as nat, |j: int| le_int(s[j], 1)) =~= prev.push(le_int(s[i as int], 1)));
            prev.lemma_flatten_push(le_int(s[i as int], 1));
        }
        i = i + 1;
    }
    assert(Seq::new(i as nat, |j: int| le_int(s[j], 1)) =~= Seq::new(s.len(), |j: int| le_int(s[j], 1)));
}

/// Append each element as a 4-byte integer.
fn write_i32s(c: &mut Vec<u8>, a: &Vec<i32>)
    ensures
        final(c)@ == old(c)@ + ints_le(a@.map_values(|x: i32| x as int), 4),
{
    let ghost s = a@.map_values(|x: i32| x as int);
    let mut i: usize = 0;
    while i < a.len()
        invariant
            s == a@.map_values(|x: i32| x as int),
            0 <= i <= a@.len(),
            c@ == old(c)@ + Seq::new(i as nat, |j: int| le_int(s[j], 4)).flatten(),
        decreases a@.len() - i,
    {
        proof { lemma_p256_values(); }
        push_int(c, a[i] as i128, 4);
        proof {
            assert(s[i as int] == a@[i as int] as int);
            let prev = Seq::new(i as nat, |j: int| le_int(s[j], 4));
            assert(Seq::new((i + 1) as nat, |j: int| le_int(s[j], 4)) =~= prev.push(le_int(s[i as int], 4)));
            prev.lemma_flatten_push(le_int(s[i as int], 4));
        }
        i = i + 1;
    }
    assert(Seq::new(i as nat, |j: int| le_int(s[j], 4)) =~= Seq::new(s.len(), |j: int| le_int(s[j], 4)));
}

/// Append each element as a 8-byte integer.
fn write_i64s(c: &mut Vec<u8>, a: &Vec<i64>)
    ensures
        final(c)@ == old(c)@ + ints_le(a@.map_values(|x: i64| x as int), 8),
{
    let ghost s = a@.map_values(|x: i64| x as int);
    let mut i: usize = 0;
    while i < a.len()
        invariant
            s == a@.map_values(|x: i64| x as int),
            0 <= i <= a@.len(),
            c@ == old(c)@ + Seq::new(i as nat, |j: int| le_int(s[j], 8)).flatten(),
        decreases a@.len() - i,
    {
        proof { lemma_p256_values(); }
        push_int(c, a[i] as i128, 8);
        proof {
            assert(s[i as int] == a@[i as int] as int);
            let prev = Seq::new(i as nat, |j: int| le_int(s[j], 8));
            assert(Seq::new((i + 1) as nat, |j: int| le_int(s[j], 8)) =~= prev.push(le_int(s[i as int], 8)));
            prev.lemma_flatten_push(le_int(s[i as int], 8));
        }
        i = i + 1;
    }
    assert(Seq::new(i as nat, |j: int| le_int(s[j], 8)) =~= Seq::new(s.len(), |j: int| le_int(s[j], 8)));
}

/// `a` begins `b`.
pub open spec fn starts(a: Seq<u8>, b: Seq<u8>) -> bool {
    a.len() <= b.len() && b.subrange(0, a.len() as int) == a
}

/// Beginning another sequence is transitive.
pub proof fn lemma_starts_trans(a: Seq<u8>, b: Seq<u8>, c: Seq<u8>)
    requires
        starts(a, b),
        starts(b, c),
    ensures
        starts(a, c),
{
    assert(c.subrange(0, a.len() as int) =~= c.subrange(0, b.len() as int).subrange(0, a.len() as int));
}

/// A sequence begins itself followed by anything.
pub proof fn lemma_starts_append(a: Seq<u8>, t: Seq<u8>)
    ensures
        starts(a, a + t),
{
    assert((a + t).subrange(0, a.len() as int) =~= a);
}

/// Append the payload of `v`; false (with only bytes appended) where a List is mixed.
fn write_value(v: &Value, c: &mut Vec<u8>) -> (r: bool)
    ensures
        r == homogeneous(v@),
        r ==> final(c)@ == old(c)@ + enc(v@),
        starts(old(c)@, final(c)@),
    decreases v@,
{
    proof {
        lemma_p256_values();
    }
    match v {
        Value::Byte(x) => push_int(c, *x as i128, 1),
        Value::Short(x) => push_int(c, *x as i128, 2),
        Value::Int(x) => push_int(c, *x as i128, 4),
        Value::Long(x) => push_int(c, *x as i128, 8),
        Value::Float(x) => push_le(c, *x as u64, 4),
        Value::Double(x) => push_le(c, *x, 8),
        Value::ByteArray(a) => {
            push_le(c, a.len() as u64, 4);
            write_bytes(c, a);
        },
        Value::String(s) => write_string(c, s.as_str()),
        Value::IntArray(a) => {
            push_le(c, a.len() as u64, 4);
            write_i32s(c, a);
        },
        Value::LongArray(a) => {
            push_le(c, a.len() as u64, 4);
            write_i64s(c, a);
        },
        Value::List(l) => {
            proof {
                lemma_list_view(*l);
            }
            let ghost ns = nodes_of(l@);
            assert(v@ == Node::List(ns));
            let n = l.len();
            if n == 0 {
                c.push(0);
                push_le(c, 0, 4);
                assert(ns.len() == 0);
            } else {
                let first = l[0].tag();
                let mut i: usize = 0;
                while i < n
                    invariant
                        n == l@.len(),
                        ns == nodes_of(l@),
                        v@ == Node::List(ns),
                        first == tag_of(ns[0]),
                        0 <= i <= n,
                        c@ == old(c)@,
                        forall|j: int| 0 <= j < i ==> tag_of(#[trigger] ns[j]) == first,
                    decreases n - i,
                {
                    if l[i].tag() != first {
                        proof {
                            assert(ns[i as int] == l@[i as int]@);
                            assert(tag_of(ns[i as int]) != tag_of(ns[0]));
                            lemma_list_homogeneous(ns, first);
                            assert(!list_homogeneous(ns, first));
                            assert(!homogeneous(Node::List(ns)));
                            lemma_starts_append(old(c)@, Seq::empty());
                            assert(old(c)@ + Seq::<u8>::empty() =~= old(c)@);
                        }
                        return false;
                    }
                    i = i + 1;
                }
                c.push(first);
                push_le(c, n as u64, 4);
                let ghost mid = c@;
                proof {
                    lemma_starts_append(old(c)@, mid.subrange(old(c)@.len() as int, mid.len() as int));
                    assert(old(c)@ + mid.subrange(old(c)@.len() as int, mid.len() as int) =~= mid);
                    assert(ns.take(0) =~= Seq::<Node>::empty());
                }
                let mut i: usize = 0;
                while i < n
                    invariant
                        n == l@.len(),
                        ns == nodes_of(l@),
                        v@ == Node::List(ns),
                        0 <= i <= n,
                        mid == old(c)@ + seq![first] + le(n as int, 4),
                        c@ == mid + enc_list(ns.take(i as int)),
                        starts(old(c)@, c@),
                        forall|j: int| 0 <= j < i ==> homogeneous(#[trigger] ns[j]),
                        forall|j: int| 0 <= j < n ==> tag_of(#[trigger] ns[j]) == first,
                    decreases n - i,
                {
                    let ghost before = c@;
                    proof {
                        assert(ns[i as int] == l@[i as int]@);
                        assert(decreases_to!(v@ => (v@)->List_0));
                        assert(decreases_to!(ns => ns[i as int]));
                    }
                    let ok = write_value(&l[i], c);
                    if !ok {
                        proof {
                            assert(ns[i as int] == l@[i as int]@);
                            lemma_list_homogeneous(ns, first);
                            lemma_starts_trans(old(c)@, before, c@);
                        }
                        return false;
                    }
                    proof {
                        assert(ns.take(i + 1).drop_last() =~= ns.take(i as int));
                        lemma_starts_trans(old(c)@, before, c@);
                    }
                    i = i + 1;
                }
                assert(ns.take(n as int) =~= ns);
                proof {
                    lemma_list_homogeneous(ns, first);
                    lemma_list_homogeneous(ns.take(n as int), first);
                }
                assert(c@ =~= old(c)@ + enc(v@));
            }
        },
        Value::Compound(es) => {
            proof {
                lemma_compound_view(*es);
            }
            let ghost ens = entries_of(es@);
            assert(v@ == Node::Compound(ens));
            let n = es.len();
            let mut i: usize = 0;
            proof {
                assert(ens.take(0) =~= Seq::<(Seq<char>, Node)>::empty());
                assert(old(c)@ + Seq::<u8>::empty() =~= old(c)@);
                lemma_starts_append(old(c)@, Seq::empty());
            }
            while i < n
                invariant
                    n == es@.len(),
                    ens == entries_of(es@),
                    v@ == Node::Compound(ens),
                    0 <= i <= n,
                    c@ == old(c)@ + enc_entries(ens.take(i as int)),
                    starts(old(c)@, c@),
                    forall|j: int| 0 <= j < i ==> homogeneous(#[trigger] ens[j].1),
                decreases n - i,
            {
                let ghost before = c@;
                let e = &es[i];
                c.push(e.1.tag());
                write_string(c, e.0.as_str());
                let ghost mid = c@;
                proof {
                    lemma_starts_append(before, mid.subrange(before.len() as int, mid.len() as int));
                    assert(before + mid.subrange(before.len() as int, mid.len() as int) =~= mid);
                    lemma_starts_trans(old(c)@, before, mid);
                }
                proof {
                    assert(ens[i as int].1 == es@[i as int].1@);
                    assert(decreases_to!(v@ => (v@)->Compound_0));
                    assert(decreases_to!(ens => ens[i as int]));
                    assert(decreases_to!(ens[i as int] => ens[i as int].1));
                }
                let ok = write_value(&e.1, c);
                if !ok {
                    proof {
                        assert(ens[i as int].1 == es@[i as int].1@);
                        lemma_entries_homogeneous(ens);
                        lemma_starts_trans(old(c)@, mid, c@);
                    }
                    return false;
                }
                proof {
                    assert(ens.take(i + 1).drop_last() =~= ens.take(i as int));
                    assert(c@ =~= old(c)@ + enc_entries(ens.take(i + 1)));
                    lemma_starts_append(old(c)@, enc_entries(ens.take(i + 1)));
                }
                i = i + 1;
            }
            assert(ens.take(n as int) =~= ens);
            proof {
                lemma_entries_homogeneous(ens);
            }
            c.push(0);
            assert(c@ =~= old(c)@ + enc(v@));
        },
    }
    proof {
        lemma_starts_append(old(c)@, enc(v@));
    }
    true
}

} // verus!
verus! {

impl Value {
    /// Append this value's payload (without tag id or name) to `c`. A List whose
    /// elements differ in variant, anywhere in the value, fails and leaves `c` as it was.
    pub fn write(&self, c: &mut Vec<u8>) -> (r: Result<(), Error>)
        ensures
            r is Ok <==> homogeneous(self@),
            r is Ok ==> final(c)@ == old(c)@ + enc(self@),
            r is Err ==> r == Err::<(), Error>(Error::HeterogeneousList) && final(c)@ == old(c)@,
    {
        let len = c.len();
        if write_value(self, c) {
            Ok(())
        } else {
            c.truncate(len);
            Err(Error::HeterogeneousList)
        }
    }
}

} // verus!
