//! The unit of data crossing every interface of the pipeline: an immutable,
//! sliceable byte sequence. Once constructed its contents never change;
//! every transformation produces a new `Buffer`.

use vstd::prelude::*;

verus! {

/// An immutable byte sequence. Abstractly a `Seq<u8>`.
pub struct Buffer {
    bytes: Vec<u8>,
}

impl View for Buffer {
    type V = Seq<u8>;

    closed spec fn view(&self) -> Seq<u8> {
        self.bytes@
    }
}

impl Buffer {
    /// The empty buffer.
    pub fn new() -> (r: Buffer)
        ensures
            r@ == Seq::<u8>::empty(),
    {
        Buffer { bytes: Vec::new() }
    }

    /// Takes ownership of a byte vector.
    pub fn from_vec(bytes: Vec<u8>) -> (r: Buffer)
        ensures
            r@ == bytes@,
    {
        Buffer { bytes }
    }

    /// A copy of the contents as a contiguous byte vector.
    pub fn to_vec(&self) -> (r: Vec<u8>)
        ensures
            r@ == self@,
    {
        let mut out: Vec<u8> = Vec::new();
        let mut i: usize = 0;
        while i < self.bytes.len()
            invariant
                i <= self.bytes.len(),
                out@ == self.bytes@.subrange(0, i as int),
            decreases self.bytes.len() - i,
        {
            out.push(self.bytes[i]);
            i = i + 1;
            proof {
                assert(out@ =~= self.bytes@.subrange(0, i as int));
            }
        }
        proof {
            assert(out@ =~= self.bytes@);
        }
        out
    }

    pub fn len(&self) -> (r: usize)
        ensures
            r == self@.len(),
    {
        self.bytes.len()
    }

    pub fn is_empty(&self) -> (r: bool)
        ensures
            r == (self@.len() == 0),
    {
        self.bytes.len() == 0
    }

    /// The byte at position `i`.
    pub fn get(&self, i: usize) -> (r: u8)
        requires
            i < self@.len(),
        ensures
            r == self@[i as int],
    {
        self.bytes[i]
    }

    /// A new buffer holding the sub-range `[start, end)` of this one.
    pub fn slice(&self, start: usize, end: usize) -> (r: Buffer)
        requires
            start <= end <= self@.len(),
        ensures
            r@ == self@.subrange(start as int, end as int),
    {
        let mut out: Vec<u8> = Vec::new();
        let mut i: usize = start;
        while i < end
            invariant
                start <= i <= end <= self.bytes.len(),
                out@ == self.bytes@.subrange(start as int, i as int),
            decreases end - i,
        {
            out.push(self.bytes[i]);
            i = i + 1;
            proof {
                assert(out@ =~= self.bytes@.subrange(start as int, i as int));
            }
        }
        Buffer { bytes: out }
    }

    /// A new buffer holding this one's contents followed by `other`'s.
    pub fn concat(&self, other: &Buffer) -> (r: Buffer)
        ensures
            r@ == self@ + other@,
    {
        let mut out = self.to_vec();
        let mut i: usize = 0;
        while i < other.bytes.len()
            invariant
                i <= other.bytes.len(),
                out@ == self@ + other.bytes@.subrange(0, i as int),
            decreases other.bytes.len() - i,
        {
            out.push(other.bytes[i]);
            i = i + 1;
            proof {
                assert(out@ =~= self@ + other.bytes@.subrange(0, i as int));
            }
        }
        proof {
            assert(out@ =~= self@ + other@);
        }
        Buffer { bytes: out }
    }
}

} // verus!
