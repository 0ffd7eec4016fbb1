//! Editing a tree at a slash-separated path.
use vstd::prelude::*;
use crate::value::{Error, Node, Value, entries_of, key_index, put, delete, tag_of, lemma_compound_view, lemma_key_index_first, lemma_key_index_none};
use crate::reader::put_entry;
use crate::tree::NBT;

verus! {

broadcast use vstd::std_specs::vec::group_vec_axioms, vstd::seq::group_seq_axioms;

/// The pieces of `s` between occurrences of `d`, in order, empty pieces included.
pub open spec fn split_on(s: Seq<char>, d: char) -> Seq<Seq<char>>
    decreases s.len(),
{
    if s.len() == 0 {
        seq![Seq::empty()]
    } else {
        let rest = split_on(s.drop_first(), d);
        if s[0] == d {
            seq![Seq::empty()] + rest
        } else {
            rest.update(0, seq![s[0]] + rest[0])
        }
    }
}

/// The non-empty pieces, in order.
pub open spec fn non_empty(ps: Seq<Seq<char>>) -> Seq<Seq<char>>
    decreases ps.len(),
{
    if ps.len() == 0 {
        Seq::empty()
    } else if ps.last().len() > 0 {
        non_empty(ps.drop_last()).push(ps.last())
    } else {
        non_empty(ps.drop_last())
    }
}

/// The segments of a path: its non-empty pieces between slashes.
pub open spec fn segments(path: Seq<char>) -> Seq<Seq<char>> {
    non_empty(split_on(path, '/'))
}

/// Setting (`Some`) or removing (`None`) the value at `path` below the entries `es`:
/// the new entries, or the segment that runs through a value that is not a Compound.
/// A missing segment before the last becomes an empty Compound.
pub open spec fn set_path(es: Seq<(Seq<char>, Node)>, path: Seq<Seq<char>>, value: Option<Node>) -> Result<
    Seq<(Seq<char>, Node)>,
    Seq<char>,
>
    decreases path.len(),
{
    if path.len() == 0 {
        Ok(es)
    } else if path.len() == 1 {
        match value {
            Some(v) => Ok(put(es, path[0], v)),
            None => Ok(delete(es, path[0])),
        }
    } else {
        let k = path[0];
        let sub: Option<Seq<(Seq<char>, Node)>> = match key_index(es, k) {
            None => Some(Seq::empty()),
            Some(i) => match es[i].1 {
                Node::Compound(c) => Some(c),
                _ => None,
            },
        };
        match sub {
            None => Err(k),
            Some(c) => match set_path(c, path.drop_first(), value) {
                Ok(c2) => Ok(put(es, k, Node::Compound(c2))),
                Err(e) => Err(e),
            },
        }
    }
}

pub open spec fn opt_node(v: Option<Value>) -> Option<Node> {
    match v {
        Some(x) => Some(x@),
        None => None,
    }
}

/// Relies on `str::split` with a `char` pattern: the pieces between the separators,
/// in order, empty ones included, turned into owned strings.
#[verifier::external_body]
fn split_slash(s: &str) -> (r: Vec<String>)
    ensures
        r@.map_values(|p: String| p@) == split_on(s@, '/'),
{
    s.split('/').map(String::from).collect()
}

/// The segments of `path`.
pub fn path_segments(path: &str) -> (r: Vec<String>)
    ensures
        r@.map_values(|p: String| p@) == segments(path@),
{
    let pieces = split_slash(path);
    let ghost ps = pieces@.map_values(|p: String| p@);
    let mut out: Vec<String> = Vec::new();
    let mut i: usize = 0;
    while i < pieces.len()
        invariant
            ps == pieces@.map_values(|p: String| p@),
            0 <= i <= pieces@.len(),
            out@.map_values(|p: String| p@) == non_empty(ps.take(i as int)),
        decreases pieces@.len() - i,
    {
        let ghost before = out@.map_values(|p: String| p@);
        assert(ps.take(i + 1).drop_last() =~= ps.take(i as int));
        if !pieces[i].as_str().is_empty() {
            out.push(pieces[i].clone());
            assert(out@.map_values(|p: String| p@) =~= before.push(ps[i as int]));
        }
        i = i + 1;
    }
    assert(ps.take(i as int) =~= ps);
    out
}

/// The first index of key `k` in `es`, if it is there.
fn find_key(es: &Vec<(String, Value)>, k: &String) -> (r: Option<usize>)
    ensures
        match r {
            Some(i) => key_index(entries_of(es@), k@) == Some(i as int),
            None => key_index(entries_of(es@), k@) is None,
        },
{
    let ghost m = entries_of(es@);
    let mut i: usize = 0;
    while i < es.len()
        invariant
            m == entries_of(es@),
            0 <= i <= es@.len(),
            forall|j: int| 0 <= j < i ==> (#[trigger] m[j]).0 != k@,
        decreases es@.len() - i,
    {
        if es[i].0 == *k {
            proof {
                lemma_key_index_first(m, k@, i as int);
            }
            return Some(i);
        }
        i = i + 1;
    }
    proof {
        lemma_key_index_none(m, k@);
    }
    None
}

/// Set or remove the value at `path[i..]` below the entries `es`.
fn set_in(es: &mut Vec<(String, Value)>, path: &Vec<String>, i: usize, value: Option<Value>) -> (r: Result<(), Error>)
    requires
        i < path@.len(),
    ensures
        match set_path(entries_of(old(es)@), path@.map_values(|p: String| p@).skip(i as int), opt_node(value)) {
            Ok(n) => r is Ok && entries_of(final(es)@) == n,
            Err(k) => (r matches Err(Error::InvalidPath(s)) && s@ == k) && entries_of(final(es)@) == entries_of(old(es)@),
        },
    decreases path@.len() - i,
{
    let ghost segs = path@.map_values(|p: String| p@).skip(i as int);
    let ghost m = entries_of(es@);
    assert(segs[0] == path[i as int]@);
    let k = &path[i];
    if i == path.len() - 1 {
        match value {
            Some(v) => {
                put_entry(es, k.clone(), v);
            },
            None => {
                match find_key(es, k) {
                    Some(j) => {
                        es.remove(j);
                        assert(entries_of(es@) =~= m.remove(j as int));
                    },
                    None => {},
                }
            },
        }
        return Ok(());
    }
    assert(segs.drop_first() =~= path@.map_values(|p: String| p@).skip(i + 1));
    match find_key(es, k) {
        None => {
            let mut sub: Vec<(String, Value)> = Vec::new();
            assert(entries_of(sub@) =~= Seq::<(Seq<char>, Node)>::empty());
            match set_in(&mut sub, path, i + 1, value) {
                Ok(_) => {},
                Err(e) => {
                    return Err(e);
                },
            }
            proof {
                lemma_compound_view(sub);
            }
            put_entry(es, k.clone(), Value::Compound(sub));
            Ok(())
        },
        Some(j) => {
            let (name, val) = es.remove(j);
            assert(m[j as int].0 == name@ && m[j as int].1 == val@);
            match val {
                Value::Compound(mut sub) => {
                    proof {
                        lemma_compound_view(sub);
                    }
                    let r = set_in(&mut sub, path, i + 1, value);
                    proof {
                        lemma_compound_view(sub);
                    }
                    let ghost nv = Value::Compound(sub)@;
                    es.insert(j, (name, Value::Compound(sub)));
                    match r {
                        Ok(_) => {
                            assert(entries_of(es@) =~= m.update(j as int, (k@, nv)));
                            Ok(())
                        },
                        Err(e) => {
                            assert(entries_of(es@) =~= entries_of(old(es)@));
                            Err(e)
                        },
                    }
                },
                other => {
                    es.insert(j, (name, other));
                    assert(es@ =~= old(es)@);
                    Err(Error::InvalidPath(k.clone()))
                },
            }
        },
    }
}

impl NBT {
    /// Set (`Some`) or remove (`None`) the value at a slash-separated path, making an
    /// empty Compound of each missing segment before the last. Empty segments are skipped.
    pub fn set(&mut self, path: &str, value: Option<Value>) -> (r: Result<(), Error>)
        ensures
            final(self).name == old(self).name,
            match old(self).data@ {
                Node::Compound(es) => if segments(path@).len() == 0 {
                    (r matches Err(Error::InvalidPath(s)) && s@.len() == 0) && final(self).data@ == old(self).data@
                } else {
                    match set_path(es, segments(path@), opt_node(value)) {
                        Ok(n) => r is Ok && final(self).data@ == Node::Compound(n),
                        Err(k) => (r matches Err(Error::InvalidPath(s)) && s@ == k) && final(self).data@ == old(self).data@,
                    }
                },
                other => r == Err::<(), Error>(Error::Root(tag_of(other))) && final(self).data@ == old(self).data@,
            },
    {
        let segs = path_segments(path);
        let mut data = Value::Byte(0);
        std::mem::swap(&mut self.data, &mut data);
        match data {
            Value::Compound(mut es) => {
                proof {
                    lemma_compound_view(es);
                }
                if segs.len() == 0 {
                    self.data = Value::Compound(es);
                    return Err(Error::InvalidPath(String::new()));
                }
                assert(segs@.map_values(|p: String| p@).skip(0) =~= segs@.map_values(|p: String| p@));
                let r = set_in(&mut es, &segs, 0, value);
                proof {
                    lemma_compound_view(es);
                }
                self.data = Value::Compound(es);
                r
            },
            other => {
                let t = other.tag();
                self.data = other;
                Err(Error::Root(t))
            },
        }
    }
}

} // verus!
