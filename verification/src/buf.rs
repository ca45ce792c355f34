//! A contiguous read cursor: the input side of every decoder.

use vstd::prelude::*;

verus! {

/// Bytes to be read, with a cursor; what is left to read is `data[pos..]`.
pub struct ReadBuf {
    data: Vec<u8>,
    pos: usize,
}

impl View for ReadBuf {
    type V = Seq<u8>;

    /// The bytes that remain to be read.
    closed spec fn view(&self) -> Seq<u8> {
        self.data@.skip(self.pos as int)
    }
}

impl ReadBuf {
    #[verifier::type_invariant]
    spec fn inv(self) -> bool {
        self.pos <= self.data@.len()
    }

    /// A cursor at the start of `data`.
    pub fn new(data: Vec<u8>) -> (r: ReadBuf)
        ensures
            r@ == data@,
    {
        let r = ReadBuf { data, pos: 0 };
        assert(r.data@.skip(0) =~= r.data@);
        r
    }

    /// Number of bytes left to read.
    pub fn remaining(&self) -> (n: usize)
        ensures
            n == self@.len(),
    {
        proof {
            use_type_invariant(self);
        }
        self.data.len() - self.pos
    }

    /// Whether any byte is left to read.
    pub fn has_remaining(&self) -> (b: bool)
        ensures
            b == (self@.len() > 0),
    {
        self.remaining() > 0
    }

    /// The bytes left to read, as one slice.
    pub fn chunk(&self) -> (s: &[u8])
        ensures
            s@ == self@,
    {
        proof {
            use_type_invariant(self);
        }
        let (_, rest) = self.data.as_slice().split_at(self.pos);
        rest
    }

    /// Skips `cnt` bytes.
    pub fn advance(&mut self, cnt: usize)
        requires
            cnt <= old(self)@.len(),
        ensures
            final(self)@ == old(self)@.skip(cnt as int),
    {
        proof {
            use_type_invariant(&*self);
        }
        assert(self@.len() == self.data.len() - self.pos);
        let new_pos: usize = self.pos + cnt;
        self.pos = new_pos;
        assert(self.data@.skip(self.pos as int) =~= old(self)@.skip(cnt as int));
    }

    /// Takes the next `len` bytes out as a vector.
    pub fn copy_to_vec(&mut self, len: usize) -> (v: Vec<u8>)
        requires
            len <= old(self)@.len(),
        ensures
            v@ == old(self)@.take(len as int),
            final(self)@ == old(self)@.skip(len as int),
    {
        proof {
            use_type_invariant(&*self);
        }
        assert(self@.len() == self.data.len() - self.pos);
        let end: usize = self.pos + len;
        let v = vstd::slice::slice_to_vec(vstd::slice::slice_subrange(self.data.as_slice(), self.pos, end));
        assert(v@ =~= old(self)@.take(len as int));
        self.pos = end;
        assert(self.data@.skip(self.pos as int) =~= old(self)@.skip(len as int));
        v
    }

    /// Reads one byte.
    pub fn get_u8(&mut self) -> (b: u8)
        requires
            old(self)@.len() > 0,
        ensures
            b == old(self)@[0],
            final(self)@ == old(self)@.drop_first(),
    {
        proof {
            use_type_invariant(&*self);
        }
        assert(self@.len() == self.data.len() - self.pos);
        let b = self.data[self.pos];
        let new_pos: usize = self.pos + 1;
        self.pos = new_pos;
        assert(self.data@.skip(self.pos as int) =~= old(self)@.drop_first());
        b
    }
}

} // verus!
