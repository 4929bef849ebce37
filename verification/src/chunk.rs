//! An owned chunk of bytes, consumed from the front and extendable at the back.

use vstd::prelude::*;

verus! {

/// An ordered, finite sequence of bytes produced by one read operation.
///
/// Bytes are consumed from the front, one at a time or in blocks; the view of
/// the chunk is the sequence of bytes not yet consumed.
pub struct ByteChunk {
    data: Vec<u8>,
}

impl View for ByteChunk {
    type V = Seq<u8>;

    closed spec fn view(&self) -> Seq<u8> {
        self.data@
    }
}

impl ByteChunk {
    /// Creates an empty chunk.
    pub fn new() -> (r: ByteChunk)
        ensures
            r@ == Seq::<u8>::empty(),
    {
        let r = ByteChunk { data: Vec::new() };
        proof {
            assert(r@ =~= Seq::<u8>::empty());
        }
        r
    }

    /// Appends the given bytes at the back of the chunk.
    pub fn put_slice(&mut self, bytes: &[u8])
        ensures
            final(self)@ == old(self)@ + bytes@,
    {
        let mut i: usize = 0;
        while i < bytes.len()
            invariant
                i <= bytes.len(),
                self.data@ == old(self).data@ + bytes@.take(i as int),
            decreases bytes.len() - i,
        {
            self.data.push(bytes[i]);
            i = i + 1;
            proof {
                assert(self.data@ =~= old(self).data@ + bytes@.take(i as int));
            }
        }
        proof {
            assert(bytes@.take(bytes@.len() as int) =~= bytes@);
        }
    }

    /// The number of bytes not yet consumed.
    pub fn remaining(&self) -> (r: usize)
        ensures
            r == self@.len(),
    {
        self.data.len()
    }

    /// True when at least one byte is not yet consumed.
    pub fn has_remaining(&self) -> (r: bool)
        ensures
            r == (self@.len() > 0),
    {
        self.remaining() > 0
    }

    /// Consumes and returns the first remaining byte.
    pub fn get_u8(&mut self) -> (r: u8)
        requires
            old(self)@.len() > 0,
        ensures
            r == old(self)@[0],
            final(self)@ == old(self)@.skip(1),
    {
        let b = self.data.remove(0);
        proof {
            assert(self@ =~= old(self)@.skip(1));
        }
        b
    }

    /// Consumes the first `cnt` remaining bytes without returning them.
    pub fn advance(&mut self, cnt: usize)
        requires
            cnt <= old(self)@.len(),
        ensures
            final(self)@ == old(self)@.skip(cnt as int),
    {
        let mut i: usize = 0;
        while i < cnt
            invariant
                i <= cnt,
                cnt <= old(self)@.len(),
                self@ == old(self)@.skip(i as int),
            decreases cnt - i,
        {
            let _ = self.data.remove(0);
            i = i + 1;
            proof {
                assert(self@ =~= old(self)@.skip(i as int));
            }
        }
    }
}

} // verus!
