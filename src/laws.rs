//! Properties that relate the reader, the writer and the path editor.
use vstd::prelude::*;
use vstd::utf8::{encode_utf8, decode_utf8, valid_utf8, encode_utf8_decode_utf8, encode_utf8_valid_utf8};
use crate::value::{Error, Node, tag_of, well_formed, keys_unique, lemma_all_well_formed, lemma_entries_well_formed, lemma_key_index_none, lemma_key_index_first, key_index, first_key, delete};
use crate::wire::{le, le_int, from_le, p256, lemma_p256_values, lemma_le_len, lemma_from_le_le, lemma_signed_le_int, lemma_from_le_bound};
use crate::writer::{enc, enc_str, enc_list, enc_entries, ints_le, homogeneous, lemma_list_homogeneous, lemma_entries_homogeneous, starts, lemma_starts_trans, lemma_starts_append};
use crate::path::set_path;
use crate::tree::{decode, encode, enc_body, body_start};
use crate::reader::{parse_str, parse_ints, parse_value, parse_elems, parse_entries, parse_header, int_at, ints_at};

verus! {

broadcast use vstd::seq::group_seq_axioms, vstd::seq_lib::group_seq_lib_default;

/// Every length in the tree fits its prefix: strings and names in two bytes,
/// arrays and lists in a non-negative four-byte count.
pub open spec fn fits(n: Node) -> bool
    decreases n,
{
    match n {
        Node::ByteArray(a) => a.len() < 0x8000_0000,
        Node::IntArray(a) => a.len() < 0x8000_0000,
        Node::LongArray(a) => a.len() < 0x8000_0000,
        Node::Str(s) => encode_utf8(s).len() <= 0xFFFF,
        Node::List(l) => l.len() < 0x8000_0000 && all_fit(l),
        Node::Compound(es) => entries_fit(es),
        _ => true,
    }
}

pub open spec fn all_fit(l: Seq<Node>) -> bool
    decreases l,
{
    l.len() == 0 || (all_fit(l.drop_last()) && fits(l.last()))
}

pub open spec fn entries_fit(es: Seq<(Seq<char>, Node)>) -> bool
    decreases es,
{
    es.len() == 0 || (entries_fit(es.drop_last()) && encode_utf8(es.last().0).len() <= 0xFFFF && fits(
        es.last().1,
    ))
}

/// A value that the writer accepts and the reader gives back unchanged.
pub open spec fn storable(n: Node) -> bool {
    homogeneous(n) && well_formed(n) && fits(n)
}

proof fn lemma_all_fit(l: Seq<Node>)
    ensures
        all_fit(l) <==> forall|i: int| 0 <= i < l.len() ==> #[trigger] fits(l[i]),
    decreases l.len(),
{
    if l.len() > 0 {
        let d = l.drop_last();
        lemma_all_fit(d);
        assert(l.last() == l[l.len() - 1]);
        assert(forall|i: int| 0 <= i < d.len() ==> #[trigger] d[i] == l[i]);
        if all_fit(l) {
            assert forall|i: int| 0 <= i < l.len() implies #[trigger] fits(l[i]) by {
                if i < d.len() {
                    assert(d[i] == l[i]);
                }
            }
        }
        if forall|i: int| 0 <= i < l.len() ==> #[trigger] fits(l[i]) {
            assert forall|i: int| 0 <= i < d.len() implies #[trigger] fits(d[i]) by {
                assert(d[i] == l[i]);
            }
            assert(fits(l[l.len() - 1]));
        }
    }
}

proof fn lemma_entries_fit(es: Seq<(Seq<char>, Node)>)
    ensures
        entries_fit(es) <==> forall|i: int|
            0 <= i < es.len() ==> encode_utf8((#[trigger] es[i]).0).len() <= 0xFFFF && fits(es[i].1),
    decreases es.len(),
{
    if es.len() > 0 {
        let d = es.drop_last();
        lemma_entries_fit(d);
        assert(es.last() == es[es.len() - 1]);
        assert(forall|i: int| 0 <= i < d.len() ==> #[trigger] d[i] == es[i]);
        if entries_fit(es) {
            assert forall|i: int| 0 <= i < es.len() implies encode_utf8((#[trigger] es[i]).0).len() <= 0xFFFF && fits(es[i].1) by {
                if i < d.len() {
                    assert(d[i] == es[i]);
                }
            }
        }
        if forall|i: int| 0 <= i < es.len() ==> encode_utf8((#[trigger] es[i]).0).len() <= 0xFFFF && fits(es[i].1) {
            assert forall|i: int| 0 <= i < d.len() implies encode_utf8((#[trigger] d[i]).0).len() <= 0xFFFF && fits(d[i].1) by {
                assert(d[i] == es[i]);
            }
            assert(fits(es[es.len() - 1].1));
        }
    }
}

/// Splitting a match of `x + y` at `pos` into matches of `x` and `y`.
proof fn lemma_split(b: Seq<u8>, pos: int, x: Seq<u8>, y: Seq<u8>)
    requires
        0 <= pos,
        pos + x.len() + y.len() <= b.len(),
        b.subrange(pos, pos + x.len() + y.len()) == x + y,
    ensures
        b.subrange(pos, pos + x.len()) == x,
        b.subrange(pos + x.len(), pos + x.len() + y.len()) == y,
{
    assert(b.subrange(pos, pos + x.len()) =~= (x + y).subrange(0, x.len() as int));
    assert(b.subrange(pos + x.len(), pos + x.len() + y.len()) =~= (x + y).subrange(
        x.len() as int,
        (x.len() + y.len()) as int,
    ));
}

/// A match of a longer sequence is a match of each prefix.
proof fn lemma_prefix_match(b: Seq<u8>, pos: int, x: Seq<u8>, y: Seq<u8>)
    requires
        0 <= pos,
        starts(x, y),
        pos + y.len() <= b.len(),
        b.subrange(pos, pos + y.len()) == y,
    ensures
        b.subrange(pos, pos + x.len()) == x,
{
    assert(b.subrange(pos, pos + x.len()) =~= y.subrange(0, x.len() as int));
}

pub proof fn lemma_enc_nonempty(n: Node)
    ensures
        enc(n).len() >= 1,
{
    lemma_p256_values();
    match n {
        Node::Byte(x) => lemma_le_len(x as int % p256(1), 1),
        Node::Short(x) => lemma_le_len(x as int % p256(2), 2),
        Node::Int(x) => lemma_le_len(x as int % p256(4), 4),
        Node::Long(x) => lemma_le_len(x as int % p256(8), 8),
        Node::Float(x) => lemma_le_len(x as int, 4),
        Node::Double(x) => lemma_le_len(x as int, 8),
        Node::ByteArray(a) => lemma_le_len(a.len() as int, 4),
        Node::IntArray(a) => lemma_le_len(a.len() as int, 4),
        Node::LongArray(a) => lemma_le_len(a.len() as int, 4),
        Node::Str(s) => lemma_le_len(encode_utf8(s).len() as int, 2),
        Node::List(l) => {},
        Node::Compound(es) => {},
    }
}

/// Pieces of one length `k` lie one after another in their concatenation.
proof fn lemma_flatten_uniform(ps: Seq<Seq<u8>>, k: nat)
    requires
        forall|i: int| 0 <= i < ps.len() ==> (#[trigger] ps[i]).len() == k,
    ensures
        ps.flatten().len() == k * ps.len(),
        forall|i: int| 0 <= i < ps.len() ==> #[trigger] ps.flatten().subrange(k * i, k * i + k) == ps[i],
    decreases ps.len(),
{
    if ps.len() == 0 {
        assert(k * ps.len() == 0) by (nonlinear_arith)
            requires
                ps.len() == 0,
        ;
    } else {
        let d = ps.drop_last();
        assert(forall|i: int| 0 <= i < d.len() ==> #[trigger] d[i] == ps[i]);
        lemma_flatten_uniform(d, k);
        assert(ps =~= d.push(ps.last()));
        d.lemma_flatten_push(ps.last());
        let f = ps.flatten();
        let fd = d.flatten();
        assert(f == fd + ps.last());
        assert(k * ps.len() == k * d.len() + k) by (nonlinear_arith)
            requires
                ps.len() == d.len() + 1,
        ;
        assert forall|i: int| 0 <= i < ps.len() implies #[trigger] f.subrange(k * i, k * i + k) == ps[i] by {
            if i < d.len() {
                assert(k * i + k <= k * d.len()) by (nonlinear_arith)
                    requires
                        0 <= i < d.len(),
                ;
                assert(0 <= k * i) by (nonlinear_arith)
                    requires
                        0 <= i,
                ;
                assert(f.subrange(k * i, k * i + k) =~= fd.subrange(k * i, k * i + k));
            } else {
                assert(f.subrange(k * i, k * i + k) =~= ps.last());
            }
        }
    }
}

/// A string written at `pos` reads back as itself.
proof fn lemma_parse_enc_str(s: Seq<char>, b: Seq<u8>, pos: int)
    requires
        encode_utf8(s).len() <= 0xFFFF,
        0 <= pos,
        pos + enc_str(s).len() <= b.len(),
        b.subrange(pos, pos + enc_str(s).len()) == enc_str(s),
    ensures
        parse_str(b, pos) == Ok::<(Seq<char>, int), crate::value::Error>((s, pos + enc_str(s).len())),
{
    let u = encode_utf8(s);
    let n = u.len() as int;
    lemma_p256_values();
    lemma_le_len(n, 2);
    lemma_split(b, pos, le(n, 2), u);
    lemma_from_le_le(n, 2);
    encode_utf8_decode_utf8(s);
    encode_utf8_valid_utf8(s);
    if n == 0 {
        assert(u =~= Seq::<u8>::empty());
        assert(decode_utf8(Seq::<u8>::empty()) =~= Seq::<char>::empty());
    }
}

/// Integers of `k` bytes written at `pos` behind their count read back as themselves.
proof fn lemma_parse_ints(a: Seq<int>, k: nat, b: Seq<u8>, pos: int)
    requires
        k == 1 || k == 4 || k == 8,
        a.len() < 0x8000_0000,
        forall|i: int| 0 <= i < a.len() ==> -(p256(k) / 2) <= #[trigger] a[i] < p256(k) / 2,
        0 <= pos,
        pos + 4 + ints_le(a, k).len() <= b.len(),
        b.subrange(pos, pos + 4 + ints_le(a, k).len()) == le(a.len() as int, 4) + ints_le(a, k),
    ensures
        parse_ints(b, pos, k) == Ok::<(Seq<int>, int), crate::value::Error>((a, pos + 4 + ints_le(a, k).len())),
{
    lemma_p256_values();
    let ps = Seq::new(a.len(), |i: int| le_int(a[i], k));
    assert forall|i: int| 0 <= i < ps.len() implies (#[trigger] ps[i]).len() == k by {
        lemma_le_len(a[i] % p256(k), k);
    }
    lemma_flatten_uniform(ps, k);
    let body = ints_le(a, k);
    assert(body == ps.flatten());
    lemma_le_len(a.len() as int, 4);
    lemma_split(b, pos, le(a.len() as int, 4), body);
    vstd::arithmetic::div_mod::lemma_small_mod(a.len(), p256(4) as nat);
    lemma_signed_le_int(a.len() as int, 4);
    assert(int_at(b, pos, 4) == a.len());
    let got = ints_at(b, pos + 4, a.len(), k);
    assert forall|i: int| 0 <= i < a.len() implies #[trigger] got[i] == a[i] by {
        assert(0 <= k * i && k * i + k <= k * a.len()) by (nonlinear_arith)
            requires
                0 <= i < a.len(),
        ;
        assert(b.subrange(pos + 4 + k * i, pos + 4 + k * i + k) =~= body.subrange(k * i, k * i + k));
        assert(ps[i] == le_int(a[i], k));
        lemma_signed_le_int(a[i], k);
    }
    assert(got =~= a);
}

proof fn lemma_enc_list_starts(l: Seq<Node>, j: int)
    requires
        0 <= j <= l.len(),
    ensures
        starts(enc_list(l.take(j)), enc_list(l)),
    decreases l.len() - j,
{
    if j == l.len() {
        assert(l.take(j) =~= l);
        lemma_starts_append(enc_list(l), Seq::empty());
        assert(enc_list(l) + Seq::<u8>::empty() =~= enc_list(l));
    } else {
        lemma_enc_list_starts(l, j + 1);
        assert(l.take(j + 1).drop_last() =~= l.take(j));
        assert(l.take(j + 1).last() == l[j]);
        lemma_starts_append(enc_list(l.take(j)), enc(l[j]));
        lemma_starts_trans(enc_list(l.take(j)), enc_list(l.take(j + 1)), enc_list(l));
    }
}

proof fn lemma_enc_entries_starts(es: Seq<(Seq<char>, Node)>, j: int)
    requires
        0 <= j <= es.len(),
    ensures
        starts(enc_entries(es.take(j)), enc_entries(es)),
    decreases es.len() - j,
{
    if j == es.len() {
        assert(es.take(j) =~= es);
        lemma_starts_append(enc_entries(es), Seq::empty());
        assert(enc_entries(es) + Seq::<u8>::empty() =~= enc_entries(es));
    } else {
        lemma_enc_entries_starts(es, j + 1);
        assert(es.take(j + 1).drop_last() =~= es.take(j));
        assert(es.take(j + 1).last() == es[j]);
        let e = es[j];
        let t = seq![tag_of(e.1)] + enc_str(e.0) + enc(e.1);
        assert(enc_entries(es.take(j + 1)) =~= enc_entries(es.take(j)) + t);
        lemma_starts_append(enc_entries(es.take(j)), t);
        lemma_starts_trans(enc_entries(es.take(j)), enc_entries(es.take(j + 1)), enc_entries(es));
    }
}

/// A storable value written at `pos` reads back as itself, and the reader stops
/// right after it.
pub proof fn lemma_parse_enc(n: Node, b: Seq<u8>, pos: int)
    requires
        storable(n),
        0 <= pos,
        pos + enc(n).len() <= b.len(),
        b.subrange(pos, pos + enc(n).len()) == enc(n),
    ensures
        parse_value(b, tag_of(n), pos) == Ok::<(Node, int), Error>((n, pos + enc(n).len())),
    decreases n, 0int,
{
    lemma_p256_values();
    lemma_enc_nonempty(n);
    match n {
        Node::Byte(x) => {
            lemma_le_len(x as int % p256(1), 1);
            lemma_signed_le_int(x as int, 1);
        },
        Node::Short(x) => {
            lemma_le_len(x as int % p256(2), 2);
            lemma_signed_le_int(x as int, 2);
        },
        Node::Int(x) => {
            lemma_le_len(x as int % p256(4), 4);
            lemma_signed_le_int(x as int, 4);
        },
        Node::Long(x) => {
            lemma_le_len(x as int % p256(8), 8);
            lemma_signed_le_int(x as int, 8);
        },
        Node::Float(x) => {
            lemma_le_len(x as int, 4);
            lemma_from_le_le(x as int, 4);
        },
        Node::Double(x) => {
            lemma_le_len(x as int, 8);
            lemma_from_le_le(x as int, 8);
        },
        Node::ByteArray(a) => {
            let ai = a.map_values(|x: i8| x as int);
            lemma_le_len(a.len() as int, 4);
            assert(enc(n) == le(a.len() as int, 4) + ints_le(ai, 1));
            assert(ai.len() == a.len());
            lemma_parse_ints(ai, 1, b, pos);
            assert(ai.map_values(|x: int| x as i8) =~= a);
        },
        Node::IntArray(a) => {
            let ai = a.map_values(|x: i32| x as int);
            lemma_le_len(a.len() as int, 4);
            assert(enc(n) == le(a.len() as int, 4) + ints_le(ai, 4));
            assert(ai.len() == a.len());
            lemma_parse_ints(ai, 4, b, pos);
            assert(ai.map_values(|x: int| x as i32) =~= a);
        },
        Node::LongArray(a) => {
            let ai = a.map_values(|x: i64| x as int);
            lemma_le_len(a.len() as int, 4);
            assert(enc(n) == le(a.len() as int, 4) + ints_le(ai, 8));
            assert(ai.len() == a.len());
            lemma_parse_ints(ai, 8, b, pos);
            assert(ai.map_values(|x: int| x as i64) =~= a);
        },
        Node::Str(s) => {
            lemma_parse_enc_str(s, b, pos);
        },
        Node::List(l) => {
            let len = l.len() as int;
            lemma_le_len(len, 4);
            vstd::arithmetic::div_mod::lemma_small_mod(len as nat, p256(4) as nat);
            lemma_signed_le_int(len, 4);
            if len == 0 {
                let h = seq![0u8] + le(0, 4);
                assert(enc(n) == h);
                lemma_split(b, pos, seq![0u8], le(0, 4));
                assert(b[pos] == b.subrange(pos, pos + 1)[0]);
                assert(l =~= Seq::<Node>::empty());
            } else {
                let t = tag_of(l[0]);
                let h = seq![t] + le(len, 4);
                assert(enc(n) == h + enc_list(l));
                lemma_split(b, pos, h, enc_list(l));
                lemma_split(b, pos, seq![t], le(len, 4));
                assert(b[pos] == b.subrange(pos, pos + 1)[0]);
                lemma_list_homogeneous(l, t);
                lemma_all_well_formed(l);
                lemma_all_fit(l);
                assert(l.take(0) =~= Seq::<Node>::empty());
                assert(decreases_to!(n => l));
                lemma_parse_elems(l, b, pos + 5, 0);
            }
        },
        Node::Compound(es) => {
            lemma_entries_homogeneous(es);
            lemma_entries_well_formed(es);
            lemma_entries_fit(es);
            lemma_split(b, pos, enc_entries(es), seq![0u8]);
            assert(b[pos + enc_entries(es).len()] == b.subrange(
                pos + enc_entries(es).len(),
                pos + enc_entries(es).len() + 1,
            )[0]);
            assert(es.take(0) =~= Seq::<(Seq<char>, Node)>::empty());
            assert(decreases_to!(n => es));
            lemma_parse_entries(es, b, pos, 0);
        },
    }
}

/// The elements of a storable non-empty List, from the `j`-th on, read back as themselves.
proof fn lemma_parse_elems(l: Seq<Node>, b: Seq<u8>, pos: int, j: int)
    requires
        l.len() > 0,
        forall|i: int| 0 <= i < l.len() ==> tag_of(#[trigger] l[i]) == tag_of(l[0]) && storable(l[i]),
        0 <= j <= l.len(),
        0 <= pos,
        pos + enc_list(l).len() <= b.len(),
        b.subrange(pos, pos + enc_list(l).len()) == enc_list(l),
    ensures
        parse_elems(b, tag_of(l[0]), (l.len() - j) as nat, pos + enc_list(l.take(j)).len(), l.take(j))
            == Ok::<(Seq<Node>, int), Error>((l, pos + enc_list(l).len())),
    decreases l, l.len() - j,
{
    lemma_enc_list_starts(l, j);
    let p = pos + enc_list(l.take(j)).len();
    if j == l.len() {
        assert(l.take(j) =~= l);
    } else {
        let x = l[j];
        assert(l.take(j + 1).drop_last() =~= l.take(j));
        assert(l.take(j + 1).last() == x);
        assert(enc_list(l.take(j + 1)) == enc_list(l.take(j)) + enc(x));
        lemma_enc_list_starts(l, j + 1);
        lemma_prefix_match(b, pos, enc_list(l.take(j + 1)), enc_list(l));
        lemma_split(b, pos, enc_list(l.take(j)), enc(x));
        assert(decreases_to!(l => l[j]));
        lemma_parse_enc(x, b, p);
        lemma_enc_nonempty(x);
        assert(l.take(j).push(x) =~= l.take(j + 1));
        lemma_parse_elems(l, b, pos, j + 1);
    }
}

/// The entries of a storable Compound, from the `j`-th on, read back as themselves.
proof fn lemma_parse_entries(es: Seq<(Seq<char>, Node)>, b: Seq<u8>, pos: int, j: int)
    requires
        keys_unique(es),
        forall|i: int|
            0 <= i < es.len() ==> encode_utf8((#[trigger] es[i]).0).len() <= 0xFFFF && storable(es[i].1),
        0 <= j <= es.len(),
        0 <= pos,
        pos + enc_entries(es).len() + 1 <= b.len(),
        b.subrange(pos, pos + enc_entries(es).len()) == enc_entries(es),
        b[pos + enc_entries(es).len()] == 0,
    ensures
        parse_entries(b, pos + enc_entries(es.take(j)).len(), es.take(j))
            == Ok::<(Seq<(Seq<char>, Node)>, int), Error>((es, pos + enc_entries(es).len() + 1)),
    decreases es, es.len() - j,
{
    lemma_enc_entries_starts(es, j);
    let p = pos + enc_entries(es.take(j)).len();
    if j == es.len() {
        assert(es.take(j) =~= es);
    } else {
        let e = es[j];
        let t = tag_of(e.1);
        let head = enc_entries(es.take(j));
        assert(es.take(j + 1).drop_last() =~= es.take(j));
        assert(es.take(j + 1).last() == e);
        assert(enc_entries(es.take(j + 1)) == head + seq![t] + enc_str(e.0) + enc(e.1));
        lemma_enc_entries_starts(es, j + 1);
        lemma_prefix_match(b, pos, enc_entries(es.take(j + 1)), enc_entries(es));
        lemma_split(b, pos, head + seq![t] + enc_str(e.0), enc(e.1));
        lemma_split(b, pos, head + seq![t], enc_str(e.0));
        lemma_split(b, pos, head, seq![t]);
        assert(b[p] == b.subrange(p, p + 1)[0]);
        lemma_parse_enc_str(e.0, b, p + 1);
        assert(decreases_to!(es => es[j]));
        assert(decreases_to!(es[j] => es[j].1));
        lemma_parse_enc(e.1, b, p + 1 + enc_str(e.0).len());
        lemma_enc_nonempty(e.1);
        let before = es.take(j);
        assert forall|i: int| 0 <= i < before.len() implies (#[trigger] before[i]).0 != e.0 by {
            assert(es[i].0 != es[j].0);
        }
        lemma_key_index_none(before, e.0);
        assert(before.push((e.0, e.1)) =~= es.take(j + 1));
        lemma_parse_entries(es, b, pos, j + 1);
    }
}

/// Round trip: writing a storable tree (a Compound root whose Lists are homogeneous,
/// whose Compounds have unique keys and whose lengths fit their prefixes, with a name
/// of at most 65535 UTF-8 bytes) and reading the bytes back gives the same name and
/// root, with or without the framing header.
pub proof fn lemma_round_trip(name: Seq<char>, root: Node, framed: bool)
    requires
        root is Compound,
        storable(root),
        encode_utf8(name).len() <= 0xFFFF,
    ensures
        decode(encode(name, root, framed)) == Ok::<(Seq<char>, Node), Error>((name, root)),
{
    lemma_p256_values();
    let body = enc_body(name, root);
    let b = encode(name, root, framed);
    let start: int = if framed { 8 } else { 0 };
    lemma_le_len(encode_utf8(name).len() as int, 2);
    lemma_enc_nonempty(root);
    lemma_le_len(8, 4);
    lemma_le_len(body.len() as int, 4);
    if framed {
        let h = le(8, 4) + le(body.len() as int, 4);
        assert(b == h + body);
        assert(b.subrange(start, start + body.len()) =~= body);
        assert(b.subrange(0, 4) =~= le(8, 4));
        lemma_from_le_le(8, 4);
    } else {
        assert(b.subrange(start, start + body.len()) =~= body);
        let s4 = b.subrange(0, 4);
        assert(s4[0] == 10);
        lemma_from_le_bound(s4.drop_first());
        assert(from_le(s4) != 8);
    }
    assert(body_start(b) == start);
    lemma_split(b, start, seq![10u8] + enc_str(name), enc(root));
    lemma_split(b, start, seq![10u8], enc_str(name));
    assert(b[start] == b.subrange(start, start + 1)[0]);
    lemma_parse_enc_str(name, b, start + 1);
    lemma_parse_enc(root, b, start + 1 + enc_str(name).len());
}

/// Root rejection: where the first header reads, a tag id other than Compound's
/// makes decoding fail with that id.
pub proof fn lemma_root_rejected(b: Seq<u8>)
    requires
        b.len() >= 4,
        parse_header(b, body_start(b)) is Ok,
        parse_header(b, body_start(b))->Ok_0.0 != 10,
    ensures
        decode(b) == Err::<(Seq<char>, Node), Error>(Error::Root(parse_header(b, body_start(b))->Ok_0.0)),
{
}

/// A List with two elements of different variants is not homogeneous, so writing
/// it (or a tree that holds it) fails and appends nothing.
pub proof fn lemma_mixed_list_rejected(l: Seq<Node>, i: int, j: int)
    requires
        0 <= i < l.len(),
        0 <= j < l.len(),
        tag_of(l[i]) != tag_of(l[j]),
    ensures
        !homogeneous(Node::List(l)),
{
    lemma_list_homogeneous(l, tag_of(l[0]));
}

/// An empty string is written as a two-byte zero length and nothing else, and reads back empty.
pub proof fn lemma_empty_string(b: Seq<u8>, pos: int)
    requires
        0 <= pos,
        pos + 2 <= b.len(),
        b[pos] == 0,
        b[pos + 1] == 0,
    ensures
        enc(Node::Str(Seq::empty())) == seq![0u8, 0u8],
        parse_value(b, 8, pos) == Ok::<(Node, int), Error>((Node::Str(Seq::empty()), pos + 2)),
{
    lemma_p256_values();
    let e = encode_utf8(Seq::<char>::empty());
    assert(e =~= Seq::<u8>::empty());
    assert(le(0, 0) =~= Seq::<u8>::empty());
    assert(le(0, 1) =~= seq![0u8]);
    assert(le(0, 2) =~= seq![0u8, 0u8]);
    assert(enc_str(Seq::empty()) =~= seq![0u8, 0u8]);
    let s = b.subrange(pos, pos + 2);
    assert(s.drop_first().drop_first() =~= Seq::<u8>::empty());
    assert(from_le(s.drop_first().drop_first()) == 0);
    assert(from_le(s.drop_first()) == 0);
    assert(from_le(s) == 0);
}

/// Every segment of `path` before the last names a Compound below `es`.
pub open spec fn reaches(es: Seq<(Seq<char>, Node)>, path: Seq<Seq<char>>) -> bool
    decreases path.len(),
{
    path.len() <= 1 || match key_index(es, path[0]) {
        Some(i) => es[i].1 is Compound && reaches(es[i].1->Compound_0, path.drop_first()),
        None => false,
    }
}

/// The entries of the Compound that holds the last segment of `path`.
pub open spec fn parent(es: Seq<(Seq<char>, Node)>, path: Seq<Seq<char>>) -> Seq<(Seq<char>, Node)>
    decreases path.len(),
{
    if path.len() <= 1 {
        es
    } else {
        match key_index(es, path[0]) {
            Some(i) => parent(es[i].1->Compound_0, path.drop_first()),
            None => es,
        }
    }
}

proof fn lemma_key_index_is_first(es: Seq<(Seq<char>, Node)>, k: Seq<char>)
    requires
        key_index(es, k) is Some,
    ensures
        first_key(es, k, key_index(es, k)->Some_0),
{
}

/// Removing a key that is absent from an existing parent Compound changes nothing.
pub proof fn lemma_remove_absent_is_noop(es: Seq<(Seq<char>, Node)>, path: Seq<Seq<char>>)
    requires
        path.len() >= 1,
        reaches(es, path),
        key_index(parent(es, path), path.last()) is None,
    ensures
        set_path(es, path, None) == Ok::<Seq<(Seq<char>, Node)>, Seq<char>>(es),
    decreases path.len(),
{
    if path.len() > 1 {
        let k = path[0];
        let i = key_index(es, k)->Some_0;
        lemma_key_index_is_first(es, k);
        let c = es[i].1->Compound_0;
        let rest = path.drop_first();
        assert(rest.last() == path.last());
        lemma_remove_absent_is_noop(c, rest);
        assert(es[i] == (k, Node::Compound(c)));
        assert(es.update(i, (k, Node::Compound(c))) =~= es);
    }
}

/// Removing at a path whose parent Compound exists deletes exactly the last key's
/// entry there (if any), and the path still leads to that parent afterwards.
pub proof fn lemma_remove_at_path(es: Seq<(Seq<char>, Node)>, path: Seq<Seq<char>>)
    requires
        path.len() >= 1,
        reaches(es, path),
    ensures
        set_path(es, path, None) is Ok,
        reaches(set_path(es, path, None)->Ok_0, path),
        parent(set_path(es, path, None)->Ok_0, path) == delete(parent(es, path), path.last()),
    decreases path.len(),
{
    if path.len() > 1 {
        let k = path[0];
        let i = key_index(es, k)->Some_0;
        lemma_key_index_is_first(es, k);
        let c = es[i].1->Compound_0;
        let rest = path.drop_first();
        assert(rest.last() == path.last());
        lemma_remove_at_path(c, rest);
        let c2 = set_path(c, rest, None)->Ok_0;
        let r = es.update(i, (k, Node::Compound(c2)));
        assert(set_path(es, path, None) == Ok::<Seq<(Seq<char>, Node)>, Seq<char>>(r));
        assert(first_key(r, k, i));
        lemma_key_index_first(r, k, i);
    }
}

/// Removing a key present in a Compound deletes exactly its entry and keeps the
/// others in order.
pub proof fn lemma_remove_present(es: Seq<(Seq<char>, Node)>, k: Seq<char>, j: int)
    requires
        first_key(es, k, j),
    ensures
        set_path(es, seq![k], None) == Ok::<Seq<(Seq<char>, Node)>, Seq<char>>(es.remove(j)),
{
    lemma_key_index_first(es, k, j);
}

/// A path that runs through a value that is not a Compound fails with that segment.
pub proof fn lemma_non_container(es: Seq<(Seq<char>, Node)>, path: Seq<Seq<char>>, value: Option<Node>)
    requires
        path.len() >= 2,
        key_index(es, path[0]) is Some,
        !(es[key_index(es, path[0])->Some_0].1 is Compound),
    ensures
        set_path(es, path, value) == Err::<Seq<(Seq<char>, Node)>, Seq<char>>(path[0]),
{
}

} // verus!
