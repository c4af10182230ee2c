use vstd::prelude::*;

verus! {

/// A forward-only cursor over the bytes of an archive held in memory.
///
/// Its view is the sequence of bytes that have not been consumed yet.
pub struct ByteSource {
    data: Vec<u8>,
    pos: usize,
}

impl View for ByteSource {
    type V = Seq<u8>;

    closed spec fn view(&self) -> Seq<u8> {
        self.data@.skip(self.pos as int)
    }
}

impl ByteSource {
    #[verifier::type_invariant]
    spec fn well_formed(&self) -> bool {
        self.pos <= self.data@.len()
    }

    /// Starts reading at the first byte of `data`.
    pub fn new(data: Vec<u8>) -> (source: ByteSource)
        ensures
            source@ == data@,
    {
        ByteSource { data, pos: 0 }
    }

    /// How many bytes are left.
    pub fn remaining(&self) -> (n: usize)
        ensures
            n == self@.len(),
    {
        proof {
            use_type_invariant(self);
        }
        self.data.len() - self.pos
    }

    /// Whether every byte has been consumed.
    pub fn is_exhausted(&self) -> (done: bool)
        ensures
            done == (self@.len() == 0),
    {
        self.remaining() == 0
    }

    /// Consumes one byte, if there is one.
    pub fn next(&mut self) -> (byte: Option<u8>)
        ensures
            old(self)@.len() == 0 ==> byte.is_none() && final(self)@ == old(self)@,
            old(self)@.len() > 0 ==> byte == Some(old(self)@[0]) && final(self)@ == old(self)@.skip(1),
    {
        proof {
            use_type_invariant(&*self);
        }
        if self.pos < self.data.len() {
            let byte = self.data[self.pos];
            self.pos = self.pos + 1;
            assert(self@ =~= old(self)@.skip(1));
            Some(byte)
        } else {
            None
        }
    }

    /// Consumes `count` bytes without looking at them, or all the bytes that
    /// are left where there are fewer.
    pub fn discard(&mut self, count: usize)
        ensures
            count <= old(self)@.len() ==> final(self)@ == old(self)@.skip(count as int),
            count > old(self)@.len() ==> final(self)@ == Seq::<u8>::empty(),
    {
        proof {
            use_type_invariant(&*self);
        }
        if count <= self.data.len() - self.pos {
            self.pos = self.pos + count;
            assert(self@ =~= old(self)@.skip(count as int));
        } else {
            self.pos = self.data.len();
            assert(self@ =~= Seq::<u8>::empty());
        }
    }
}

} // verus!
