//! A named tree: the unit that is read from and written to bytes.
use vstd::prelude::*;
use crate::value::{Error, Node, Value, tag_of};
use crate::wire::{le, from_le, read_le, push_le, lemma_p256_values};
use crate::writer::{enc, enc_str, homogeneous, write_string};
use crate::reader::{parse_header, parse_value, read_next_header};

verus! {

/// The magic number that opens a framed stream.
pub const FRAME_MAGIC: u64 = 8;

/// A tree: a name and a root value, which is a Compound in a valid tree.
#[derive(Debug, PartialEq)]
pub struct NBT {
    pub name: String,
    pub data: Value,
}

/// Where the tags begin: after an eight-byte header when the first four bytes read 8.
pub open spec fn body_start(b: Seq<u8>) -> int {
    if from_le(b.subrange(0, 4)) == 8 {
        8
    } else {
        0
    }
}

/// What decoding gives: the name and the root, or the error.
pub open spec fn decode(b: Seq<u8>) -> Result<(Seq<char>, Node), Error> {
    if b.len() < 4 {
        Err(Error::UnexpectedEof)
    } else {
        match parse_header(b, body_start(b)) {
            Ok((t, name, p)) => if t != 10 {
                Err(Error::Root(t))
            } else {
                match parse_value(b, 10, p) {
                    Ok((v, _q)) => Ok((name, v)),
                    Err(e) => Err(e),
                }
            },
            Err(e) => Err(e),
        }
    }
}

/// The tags of a tree: Compound id, name, then the root's payload.
pub open spec fn enc_body(name: Seq<char>, root: Node) -> Seq<u8> {
    seq![10u8] + enc_str(name) + enc(root)
}

/// A tree's bytes, optionally behind the header: magic 8, then the body's length.
pub open spec fn encode(name: Seq<char>, root: Node, framed: bool) -> Seq<u8> {
    if framed {
        le(8, 4) + le(enc_body(name, root).len() as int, 4) + enc_body(name, root)
    } else {
        enc_body(name, root)
    }
}

impl NBT {
    /// The name and the model of the root.
    pub open spec fn model(&self) -> (Seq<char>, Node) {
        (self.name@, self.data@)
    }

    /// Decode a tree from bytes, framed or not.
    pub fn read(bytes: &[u8]) -> (r: Result<NBT, Error>)
        ensures
            match r {
                Ok(t) => decode(bytes@) == Ok::<(Seq<char>, Node), Error>(t.model()),
                Err(e) => decode(bytes@) == Err::<(Seq<char>, Node), Error>(e),
            },
    {
        if bytes.len() < 4 {
            return Err(Error::UnexpectedEof);
        }
        let start: usize = if read_le(bytes, 0, 4) == FRAME_MAGIC {
            8
        } else {
            0
        };
        match read_next_header(bytes, start) {
            Ok((t, name, p)) => {
                if t != 10 {
                    return Err(Error::Root(t));
                }
                match Value::read(10, bytes, p) {
                    Ok((data, _q)) => Ok(NBT { name, data }),
                    Err(e) => Err(e),
                }
            },
            Err(e) => Err(e),
        }
    }

    /// Decode a tree from a byte buffer, which is left as it was.
    pub fn new(bytes: &mut Vec<u8>) -> (r: Result<NBT, Error>)
        ensures
            final(bytes)@ == old(bytes)@,
            match r {
                Ok(t) => decode(old(bytes)@) == Ok::<(Seq<char>, Node), Error>(t.model()),
                Err(e) => decode(old(bytes)@) == Err::<(Seq<char>, Node), Error>(e),
            },
    {
        NBT::read(bytes.as_slice())
    }

    /// Decode a tree from bytes (an owned copy of them).
    pub fn from(bytes: Vec<u8>) -> (r: Result<NBT, Error>)
        ensures
            match r {
                Ok(t) => decode(bytes@) == Ok::<(Seq<char>, Node), Error>(t.model()),
                Err(e) => decode(bytes@) == Err::<(Seq<char>, Node), Error>(e),
            },
    {
        NBT::read(bytes.as_slice())
    }

    /// An empty tree with the given name.
    pub fn named(name: &str) -> (r: Result<NBT, Error>)
        ensures
            r matches Ok(t) && t.name@ == name@ && t.data@ == Node::Compound(Seq::empty()),
    {
        let entries: Vec<(String, Value)> = Vec::new();
        proof {
            crate::value::lemma_compound_view(entries);
        }
        let data = Value::Compound(entries);
        assert(data@->Compound_0 =~= Seq::<(Seq<char>, Node)>::empty());
        Ok(NBT { name: name.to_owned(), data })
    }

    /// Append the tree's bytes to `vec`, behind the eight-byte header if `bedrock_header`.
    /// Fails, appending nothing, where a List mixes variants or the root is not a Compound.
    pub fn write(&self, vec: &mut Vec<u8>, bedrock_header: bool) -> (r: Result<(), Error>)
        ensures
            match r {
                Ok(_) => self.data@ is Compound && homogeneous(self.data@)
                    && final(vec)@ == old(vec)@ + encode(self.name@, self.data@, bedrock_header),
                Err(e) => final(vec)@ == old(vec)@ && if self.data@ is Compound {
                    !homogeneous(self.data@) && e == Error::HeterogeneousList
                } else {
                    e == Error::Root(tag_of(self.data@))
                },
            },
    {
        let t = self.data.tag();
        if t != 10 {
            return Err(Error::Root(t));
        }
        let mut buf: Vec<u8> = Vec::new();
        buf.push(10);
        write_string(&mut buf, self.name.as_str());
        match self.data.write(&mut buf) {
            Ok(_) => {},
            Err(e) => {
                return Err(e);
            },
        }
        assert(buf@ =~= enc_body(self.name@, self.data@));
        if bedrock_header {
            proof {
                lemma_p256_values();
            }
            push_le(vec, FRAME_MAGIC, 4);
            push_le(vec, buf.len() as u64, 4);
        }
        let ghost mid = vec@;
        let mut i: usize = 0;
        while i < buf.len()
            invariant
                0 <= i <= buf@.len(),
                vec@ == mid + buf@.subrange(0, i as int),
            decreases buf@.len() - i,
        {
            vec.push(buf[i]);
            i = i + 1;
            assert(vec@ =~= mid + buf@.subrange(0, i as int));
        }
        assert(buf@.subrange(0, i as int) =~= buf@);
        assert(vec@ =~= old(vec)@ + encode(self.name@, self.data@, bedrock_header));
        Ok(())
    }

    /// The tree's bytes, behind the eight-byte header if `bedrock_header`.
    pub fn bytes(&self, bedrock_header: bool) -> (r: Result<Vec<u8>, Error>)
        ensures
            match r {
                Ok(b) => self.data@ is Compound && homogeneous(self.data@)
                    && b@ == encode(self.name@, self.data@, bedrock_header),
                Err(e) => if self.data@ is Compound {
                    !homogeneous(self.data@) && e == Error::HeterogeneousList
                } else {
                    e == Error::Root(tag_of(self.data@))
                },
            },
    {
        let mut v: Vec<u8> = Vec::new();
        match self.write(&mut v, bedrock_header) {
            Ok(_) => {
                assert(v@ =~= encode(self.name@, self.data@, bedrock_header));
                Ok(v)
            },
            Err(e) => Err(e),
        }
    }

    /// The first eight bytes of a stream, where it has that many.
    pub fn header(r: &[u8]) -> (h: Result<Option<[u8; 8]>, Error>)
        ensures
            h is Ok,
            r@.len() < 8 <==> h == Ok::<Option<[u8; 8]>, Error>(None),
            h matches Ok(Some(a)) ==> a@ == r@.subrange(0, 8),
    {
        if r.len() < 8 {
            return Ok(None);
        }
        let a: [u8; 8] = [r[0], r[1], r[2], r[3], r[4], r[5], r[6], r[7]];
        assert(a@ =~= r@.subrange(0, 8));
        Ok(Some(a))
    }

    /// Rename the tree.
    pub fn set_set_name(&mut self, s: String)
        ensures
            final(self).name == s,
            final(self).data == old(self).data,
    {
        self.name = s;
    }
}

} // verus!
