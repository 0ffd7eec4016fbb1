//! Decoding values from bytes.
use vstd::prelude::*;
use vstd::utf8::{valid_utf8, decode_utf8};
use crate::value::{Error, Node, Value, entries_of, nodes_of, keys_unique, key_index, first_key, put, lemma_list_view, lemma_key_index_first, lemma_key_index_none, lemma_compound_view};
use crate::wire::{from_le, signed, read_le, read_int, lemma_p256_values, lemma_from_le_bound};

verus! {

broadcast use vstd::std_specs::vec::group_vec_axioms, vstd::seq::group_seq_axioms;

/// The two's-complement integer of `k` bytes at `b[p..p + k]`.
pub open spec fn int_at(b: Seq<u8>, p: int, k: nat) -> int {
    signed(from_le(b.subrange(p, p + k)), k)
}

/// `n` integers of `k` bytes each, starting at `p`.
pub open spec fn ints_at(b: Seq<u8>, p: int, n: nat, k: nat) -> Seq<int> {
    Seq::new(n, |i: int| int_at(b, p + k * i, k))
}

/// A string at `pos`: two-byte length, then that many UTF-8 bytes.
/// Gives the text and the position after it.
pub open spec fn parse_str(b: Seq<u8>, pos: int) -> Result<(Seq<char>, int), Error> {
    if pos + 2 > b.len() {
        Err(Error::UnexpectedEof)
    } else {
        let n = from_le(b.subrange(pos, pos + 2));
        let start = pos + 2;
        if n == 0 {
            Ok((Seq::empty(), start))
        } else if start + n > b.len() {
            Err(Error::UnexpectedEof)
        } else if valid_utf8(b.subrange(start, start + n)) {
            Ok((decode_utf8(b.subrange(start, start + n)), start + n))
        } else {
            Err(Error::Utf8((start + n) as u64))
        }
    }
}

/// A tag id and, unless it is 0, a name. Gives id, name and the position after them.
pub open spec fn parse_header(b: Seq<u8>, pos: int) -> Result<(u8, Seq<char>, int), Error> {
    if pos < 0 || pos >= b.len() {
        Err(Error::UnexpectedEof)
    } else if b[pos] == 0 {
        Ok((0u8, Seq::empty(), pos + 1))
    } else {
        match parse_str(b, pos + 1) {
            Ok((s, p)) => Ok((b[pos], s, p)),
            Err(e) => Err(e),
        }
    }
}

/// An array of `k`-byte integers at `pos`: four-byte count, then the elements.
/// Gives the elements and the position after them; a negative count cannot be read.
pub open spec fn parse_ints(b: Seq<u8>, pos: int, k: nat) -> Result<(Seq<int>, int), Error> {
    if pos + 4 > b.len() {
        Err(Error::UnexpectedEof)
    } else {
        let n = int_at(b, pos, 4);
        if n < 0 || pos + 4 + k * n > b.len() {
            Err(Error::UnexpectedEof)
        } else {
            Ok((ints_at(b, pos + 4, n as nat, k), pos + 4 + k * n))
        }
    }
}

/// The payload of a value with tag id `tag` at `pos`; gives it and the position after it.
pub open spec fn parse_value(b: Seq<u8>, tag: u8, pos: int) -> Result<(Node, int), Error>
    decreases b.len() - pos, 1int,
{
    if pos < 0 || pos > b.len() {
        Err(Error::UnexpectedEof)
    } else if tag == 1 {
        if pos + 1 > b.len() { Err(Error::UnexpectedEof) } else { Ok((Node::Byte(int_at(b, pos, 1) as i8), pos + 1)) }
    } else if tag == 2 {
        if pos + 2 > b.len() { Err(Error::UnexpectedEof) } else { Ok((Node::Short(int_at(b, pos, 2) as i16), pos + 2)) }
    } else if tag == 3 {
        if pos + 4 > b.len() { Err(Error::UnexpectedEof) } else { Ok((Node::Int(int_at(b, pos, 4) as i32), pos + 4)) }
    } else if tag == 4 {
        if pos + 8 > b.len() { Err(Error::UnexpectedEof) } else { Ok((Node::Long(int_at(b, pos, 8) as i64), pos + 8)) }
    } else if tag == 5 {
        if pos + 4 > b.len() { Err(Error::UnexpectedEof) } else { Ok((Node::Float(from_le(b.subrange(pos, pos + 4)) as u32), pos + 4)) }
    } else if tag == 6 {
        if pos + 8 > b.len() { Err(Error::UnexpectedEof) } else { Ok((Node::Double(from_le(b.subrange(pos, pos + 8)) as u64), pos + 8)) }
    } else if tag == 7 {
        match parse_ints(b, pos, 1) {
            Ok((a, p)) => Ok((Node::ByteArray(a.map_values(|x: int| x as i8)), p)),
            Err(e) => Err(e),
        }
    } else if tag == 8 {
        match parse_str(b, pos) {
            Ok((s, p)) => Ok((Node::Str(s), p)),
            Err(e) => Err(e),
        }
    } else if tag == 9 {
        if pos + 5 > b.len() {
            Err(Error::UnexpectedEof)
        } else {
            let n = int_at(b, pos + 1, 4);
            if n < 0 {
                Err(Error::UnexpectedEof)
            } else {
                match parse_elems(b, b[pos], n as nat, pos + 5, Seq::empty()) {
                    Ok((l, p)) => Ok((Node::List(l), p)),
                    Err(e) => Err(e),
                }
            }
        }
    } else if tag == 10 {
        match parse_entries(b, pos, Seq::empty()) {
            Ok((es, p)) => Ok((Node::Compound(es), p)),
            Err(e) => Err(e),
        }
    } else if tag == 11 {
        match parse_ints(b, pos, 4) {
            Ok((a, p)) => Ok((Node::IntArray(a.map_values(|x: int| x as i32)), p)),
            Err(e) => Err(e),
        }
    } else if tag == 12 {
        match parse_ints(b, pos, 8) {
            Ok((a, p)) => Ok((Node::LongArray(a.map_values(|x: int| x as i64)), p)),
            Err(e) => Err(e),
        }
    } else {
        Err(Error::InvalidTypeId(tag))
    }
}

/// `n` more List elements of tag id `id` at `pos`, after those in `acc`.
pub open spec fn parse_elems(b: Seq<u8>, id: u8, n: nat, pos: int, acc: Seq<Node>) -> Result<(Seq<Node>, int), Error>
    decreases b.len() - pos, 2int,
{
    if pos < 0 || pos > b.len() {
        Err(Error::UnexpectedEof)
    } else if n == 0 {
        Ok((acc, pos))
    } else {
        match parse_value(b, id, pos) {
            Ok((v, p)) => if p <= pos || p > b.len() {
                Err(Error::UnexpectedEof)
            } else {
                parse_elems(b, id, (n - 1) as nat, p, acc.push(v))
            },
            Err(e) => Err(e),
        }
    }
}

/// Compound entries at `pos` up to the terminating zero id, added to `acc`
/// (a repeated name replaces the earlier value in place).
pub open spec fn parse_entries(b: Seq<u8>, pos: int, acc: Seq<(Seq<char>, Node)>) -> Result<(Seq<(Seq<char>, Node)>, int), Error>
    decreases b.len() - pos, 0int,
{
    if pos < 0 || pos > b.len() {
        Err(Error::UnexpectedEof)
    } else {
        match parse_header(b, pos) {
            Ok((t, name, p2)) => if t == 0 {
                Ok((acc, p2))
            } else if p2 <= pos || p2 > b.len() {
                Err(Error::UnexpectedEof)
            } else {
                match parse_value(b, t, p2) {
                    Ok((v, p3)) => if p3 <= p2 || p3 > b.len() {
                        Err(Error::UnexpectedEof)
                    } else {
                        parse_entries(b, p3, put(acc, name, v))
                    },
                    Err(e) => Err(e),
                }
            },
            Err(e) => Err(e),
        }
    }
}

/// Relies on `String::from_utf8`: it succeeds exactly on valid UTF-8, and the
/// string it returns holds the characters those bytes encode.
#[verifier::external_body]
fn string_from_utf8(bytes: Vec<u8>) -> (r: Option<String>)
    ensures
        r is Some <==> valid_utf8(bytes@),
        r matches Some(s) ==> s@ == decode_utf8(bytes@),
{
    String::from_utf8(bytes).ok()
}

/// A string at `pos`: two-byte length, then its UTF-8 bytes.
pub fn read_string(b: &[u8], pos: usize) -> (r: Result<(String, usize), Error>)
    ensures
        match r {
            Ok((s, p)) => parse_str(b@, pos as int) == Ok::<(Seq<char>, int), Error>((s@, p as int))
                && pos + 2 <= p <= b@.len(),
            Err(e) => parse_str(b@, pos as int) == Err::<(Seq<char>, int), Error>(e),
        },
{
    if b.len() < 2 || pos > b.len() - 2 {
        return Err(Error::UnexpectedEof);
    }
    let n = read_le(b, pos, 2) as usize;
    proof {
        lemma_p256_values();
        lemma_from_le_bound(b@.subrange(pos as int, pos + 2));
    }
    let start = pos + 2;
    if n == 0 {
        return Ok((String::new(), start));
    }
    if n > b.len() - start {
        return Err(Error::UnexpectedEof);
    }
    let mut bytes: Vec<u8> = Vec::new();
    let mut i: usize = 0;
    while i < n
        invariant
            start + n <= b@.len(),
            b@.len() <= usize::MAX,
            0 <= i <= n,
            bytes@ == b@.subrange(start as int, start + i),
        decreases n - i,
    {
        bytes.push(b[start + i]);
        i = i + 1;
        assert(bytes@ =~= b@.subrange(start as int, start + i));
    }
    match string_from_utf8(bytes) {
        Some(s) => Ok((s, start + n)),
        None => Err(Error::Utf8((start + n) as u64)),
    }
}

/// A tag id and, unless it is 0, a name.
pub fn read_next_header(b: &[u8], pos: usize) -> (r: Result<(u8, String, usize), Error>)
    ensures
        match r {
            Ok((t, s, p)) => parse_header(b@, pos as int) == Ok::<(u8, Seq<char>, int), Error>((t, s@, p as int))
                && pos < p <= b@.len(),
            Err(e) => parse_header(b@, pos as int) == Err::<(u8, Seq<char>, int), Error>(e),
        },
{
    if pos >= b.len() {
        return Err(Error::UnexpectedEof);
    }
    let t = b[pos];
    if t == 0 {
        return Ok((0, String::new(), pos + 1));
    }
    match read_string(b, pos + 1) {
        Ok((s, p)) => Ok((t, s, p)),
        Err(e) => Err(e),
    }
}

/// An array of 1-byte integers at `pos`.
fn read_bytes(b: &[u8], pos: usize) -> (r: Result<(Vec<i8>, usize), Error>)
    requires
        pos <= b@.len(),
    ensures
        match r {
            Ok((a, p)) => parse_ints(b@, pos as int, 1) is Ok && parse_ints(b@, pos as int, 1)->Ok_0.1 == p
                && a@ == parse_ints(b@, pos as int, 1)->Ok_0.0.map_values(|x: int| x as i8)
                && pos < p <= b@.len(),
            Err(e) => parse_ints(b@, pos as int, 1) == Err::<(Seq<int>, int), Error>(e),
        },
{
    proof {
        lemma_p256_values();
    }
    if b.len() < 4 || pos > b.len() - 4 {
        return Err(Error::UnexpectedEof);
    }
    let n = read_int(b, pos, 4);
    if n < 0 || (n as usize) > (b.len() - pos - 4) / 1 {
        return Err(Error::UnexpectedEof);
    }
    let n = n as usize;
    let mut a: Vec<i8> = Vec::new();
    let mut i: usize = 0;
    let ghost start = pos + 4;
    while i < n
        invariant
            0 <= i <= n,
            start == pos + 4,
            b@.len() <= usize::MAX,
            start + 1 * n <= b@.len(),
            a@.len() == i,
            forall|j: int| 0 <= j < i ==> #[trigger] a@[j] as int == int_at(b@, start + 1 * j, 1),
        decreases n - i,
    {
        proof {
            lemma_p256_values();
        }
        let x = read_int(b, pos + 4 + 1 * i, 1);
        a.push(x as i8);
        i = i + 1;
    }
    let ghost ints = ints_at(b@, start, n as nat, 1);
    assert(a@ =~= ints.map_values(|x: int| x as i8));
    Ok((a, pos + 4 + 1 * n))
}

/// An array of 4-byte integers at `pos`.
fn read_i32s(b: &[u8], pos: usize) -> (r: Result<(Vec<i32>, usize), Error>)
    requires
        pos <= b@.len(),
    ensures
        match r {
            Ok((a, p)) => parse_ints(b@, pos as int, 4) is Ok && parse_ints(b@, pos as int, 4)->Ok_0.1 == p
                && a@ == parse_ints(b@, pos as int, 4)->Ok_0.0.map_values(|x: int| x as i32)
                && pos < p <= b@.len(),
            Err(e) => parse_ints(b@, pos as int, 4) == Err::<(Seq<int>, int), Error>(e),
        },
{
    proof {
        lemma_p256_values();
    }
    if b.len() < 4 || pos > b.len() - 4 {
        return Err(Error::UnexpectedEof);
    }
    let n = read_int(b, pos, 4);
    if n < 0 || (n as usize) > (b.len() - pos - 4) / 4 {
        return Err(Error::UnexpectedEof);
    }
    let n = n as usize;
    let mut a: Vec<i32> = Vec::new();
    let mut i: usize = 0;
    let ghost start = pos + 4;
    while i < n
        invariant
            0 <= i <= n,
            start == pos + 4,
            b@.len() <= usize::MAX,
            start + 4 * n <= b@.len(),
            a@.len() == i,
            forall|j: int| 0 <= j < i ==> #[trigger] a@[j] as int == int_at(b@, start + 4 * j, 4),
        decreases n - i,
    {
        proof {
            lemma_p256_values();
        }
        let x = read_int(b, pos + 4 + 4 * i, 4);
        a.push(x as i32);
        i = i + 1;
    }
    let ghost ints = ints_at(b@, start, n as nat, 4);
    assert(a@ =~= ints.map_values(|x: int| x as i32));
    Ok((a, pos + 4 + 4 * n))
}

/// An array of 8-byte integers at `pos`.
fn read_i64s(b: &[u8], pos: usize) -> (r: Result<(Vec<i64>, usize), Error>)
    requires
        pos <= b@.len(),
    ensures
        match r {
            Ok((a, p)) => parse_ints(b@, pos as int, 8) is Ok && parse_ints(b@, pos as int, 8)->Ok_0.1 == p
                && a@ == parse_ints(b@, pos as int, 8)->Ok_0.0.map_values(|x: int| x as i64)
                && pos < p <= b@.len(),
            Err(e) => parse_ints(b@, pos as int, 8) == Err::<(Seq<int>, int), Error>(e),
        },
{
    proof {
        lemma_p256_values();
    }
    if b.len() < 4 || pos > b.len() - 4 {
        return Err(Error::UnexpectedEof);
    }
    let n = read_int(b, pos, 4);
    if n < 0 || (n as usize) > (b.len() - pos - 4) / 8 {
        return Err(Error::UnexpectedEof);
    }
    let n = n as usize;
    let mut a: Vec<i64> = Vec::new();
    let mut i: usize = 0;
    let ghost start = pos + 4;
    while i < n
        invariant
            0 <= i <= n,
            start == pos + 4,
            b@.len() <= usize::MAX,
            start + 8 * n <= b@.len(),
            a@.len() == i,
            forall|j: int| 0 <= j < i ==> #[trigger] a@[j] as int == int_at(b@, start + 8 * j, 8),
        decreases n - i,
    {
        proof {
            lemma_p256_values();
        }
        let x = read_int(b, pos + 4 + 8 * i, 8);
        a.push(x as i64);
        i = i + 1;
    }
    let ghost ints = ints_at(b@, start, n as nat, 8);
    assert(a@ =~= ints.map_values(|x: int| x as i64));
    Ok((a, pos + 4 + 8 * n))
}

/// `put` keeps keys unique.
pub proof fn lemma_put_unique(es: Seq<(Seq<char>, Node)>, k: Seq<char>, v: Node)
    requires
        keys_unique(es),
    ensures
        keys_unique(put(es, k, v)),
{
    match key_index(es, k) {
        Some(i) => {
            assert(forall|x: int| 0 <= x < es.len() ==> #[trigger] put(es, k, v)[x].0 == es[x].0);
        },
        None => {
            let r = put(es, k, v);
            assert forall|x: int, y: int| 0 <= x < y < r.len() implies r[x].0 != r[y].0 by {
                if y == es.len() && es[x].0 == k {
                    assert(first_key(es, k, x));
                }
            }
        },
    }
}

/// Insert `v` under `k`: in place where `k` is present, else at the end.
pub fn put_entry(es: &mut Vec<(String, Value)>, k: String, v: Value)
    ensures
        entries_of(final(es)@) == put(entries_of(old(es)@), k@, v@),
        keys_unique(entries_of(old(es)@)) ==> keys_unique(entries_of(final(es)@)),
{
    let ghost m = entries_of(es@);
    proof {
        if keys_unique(m) {
            lemma_put_unique(m, k@, v@);
        }
    }
    let mut i: usize = 0;
    while i < es.len()
        invariant
            es@ == old(es)@,
            m == entries_of(es@),
            keys_unique(m) ==> keys_unique(put(m, k@, v@)),
            0 <= i <= es@.len(),
            forall|j: int| 0 <= j < i ==> (#[trigger] m[j]).0 != k@,
        decreases es@.len() - i,
    {
        if es[i].0 == k {
            proof {
                lemma_key_index_first(m, k@, i as int);
            }
            let ghost kv = k@;
            let ghost vv = v@;
            es.set(i, (k, v));
            assert(entries_of(es@) =~= m.update(i as int, (kv, vv)));
            return;
        }
        i = i + 1;
    }
    proof {
        lemma_key_index_none(m, k@);
    }
    let ghost kv = k@;
    let ghost vv = v@;
    es.push((k, v));
    assert(entries_of(es@) =~= m.push((kv, vv)));
}

impl Value {
    /// The payload of a value with tag id `tag` at `pos`, and the position after it.
    pub fn read(tag: u8, b: &[u8], pos: usize) -> (r: Result<(Value, usize), Error>)
        requires
            pos <= b@.len(),
        ensures
            match r {
                Ok((v, p)) => parse_value(b@, tag, pos as int) == Ok::<(Node, int), Error>((v@, p as int))
                    && pos < p <= b@.len(),
                Err(e) => parse_value(b@, tag, pos as int) == Err::<(Node, int), Error>(e),
            },
        decreases b@.len() - pos,
    {
        proof {
            lemma_p256_values();
        }
        let len = b.len();
        if tag == 1 {
            if pos >= len {
                return Err(Error::UnexpectedEof);
            }
            Ok((Value::Byte(read_int(b, pos, 1) as i8), pos + 1))
        } else if tag == 2 {
            if len < 2 || pos > len - 2 {
                return Err(Error::UnexpectedEof);
            }
            Ok((Value::Short(read_int(b, pos, 2) as i16), pos + 2))
        } else if tag == 3 {
            if len < 4 || pos > len - 4 {
                return Err(Error::UnexpectedEof);
            }
            Ok((Value::Int(read_int(b, pos, 4) as i32), pos + 4))
        } else if tag == 4 {
            if len < 8 || pos > len - 8 {
                return Err(Error::UnexpectedEof);
            }
            Ok((Value::Long(read_int(b, pos, 8) as i64), pos + 8))
        } else if tag == 5 {
            if len < 4 || pos > len - 4 {
                return Err(Error::UnexpectedEof);
            }
            proof {
                lemma_from_le_bound(b@.subrange(pos as int, pos + 4));
            }
            Ok((Value::Float(read_le(b, pos, 4) as u32), pos + 4))
        } else if tag == 6 {
            if len < 8 || pos > len - 8 {
                return Err(Error::UnexpectedEof);
            }
            Ok((Value::Double(read_le(b, pos, 8)), pos + 8))
        } else if tag == 7 {
            match read_bytes(b, pos) {
                Ok((a, p)) => {
                    let r = Value::ByteArray(a);
                    Ok((r, p))
                },
                Err(e) => Err(e),
            }
        } else if tag == 8 {
            match read_string(b, pos) {
                Ok((s, p)) => Ok((Value::String(s), p)),
                Err(e) => Err(e),
            }
        } else if tag == 9 {
            if len < 5 || pos > len - 5 {
                return Err(Error::UnexpectedEof);
            }
            let id = b[pos];
            let n = read_int(b, pos + 1, 4);
            if n < 0 {
                return Err(Error::UnexpectedEof);
            }
            let n = n as usize;
            let mut vals: Vec<Value> = Vec::new();
            let mut p = pos + 5;
            let mut left = n;
            assert(nodes_of(vals@) =~= Seq::<Node>::empty());
            while left > 0
                invariant
                    b@.len() <= usize::MAX,
                    pos + 5 <= p <= b@.len(),
                    pos + 5 <= b@.len(),
                    left <= n,
                    tag == 9,
                    id == b@[pos as int],
                    n as int == int_at(b@, pos + 1, 4),
                    parse_elems(b@, id, n as nat, (pos + 5) as int, Seq::empty())
                        == parse_elems(b@, id, left as nat, p as int, nodes_of(vals@)),
                decreases left,
            {
                match Value::read(id, b, p) {
                    Ok((v, p2)) => {
                        let ghost before = nodes_of(vals@);
                        let ghost vv = v@;
                        vals.push(v);
                        assert(nodes_of(vals@) =~= before.push(vv));
                        p = p2;
                        left = left - 1;
                    },
                    Err(e) => {
                        return Err(e);
                    },
                }
            }
            proof {
                lemma_list_view(vals);
            }
            Ok((Value::List(vals), p))
        } else if tag == 10 {
            let mut es: Vec<(String, Value)> = Vec::new();
            let mut p = pos;
            assert(entries_of(es@) =~= Seq::<(Seq<char>, Node)>::empty());
            loop
                invariant
                    b@.len() <= usize::MAX,
                    pos <= p <= b@.len(),
                    tag == 10,
                    keys_unique(entries_of(es@)),
                    parse_entries(b@, pos as int, Seq::empty()) == parse_entries(b@, p as int, entries_of(es@)),
                decreases b@.len() - p,
            {
                match read_next_header(b, p) {
                    Ok((t, name, p2)) => {
                        if t == 0 {
                            proof {
                                lemma_compound_view(es);
                            }
                            return Ok((Value::Compound(es), p2));
                        }
                        match Value::read(t, b, p2) {
                            Ok((v, p3)) => {
                                put_entry(&mut es, name, v);
                                p = p3;
                            },
                            Err(e) => {
                                return Err(e);
                            },
                        }
                    },
                    Err(e) => {
                        return Err(e);
                    },
                }
            }
        } else if tag == 11 {
            match read_i32s(b, pos) {
                Ok((a, p)) => Ok((Value::IntArray(a), p)),
                Err(e) => Err(e),
            }
        } else if tag == 12 {
            match read_i64s(b, pos) {
                Ok((a, p)) => Ok((Value::LongArray(a), p)),
                Err(e) => Err(e),
            }
        } else {
            Err(Error::InvalidTypeId(tag))
        }
    }
}

} // verus!
