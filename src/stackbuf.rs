use vstd::prelude::*;

use crate::BUFFER_SIZE;

verus! {

/// A fixed-capacity scratch buffer of `BUFFER_SIZE` bytes that is filled before a flush.
pub struct StackBuf {
    buf: Vec<u8>,
}

impl View for StackBuf {
    type V = Seq<u8>;

    /// The bytes written since the last clear.
    closed spec fn view(&self) -> Seq<u8> {
        self.buf@
    }
}

impl StackBuf {
    /// The written bytes fit in the capacity.
    pub open spec fn wf(&self) -> bool {
        self@.len() <= BUFFER_SIZE
    }

    pub fn new() -> (r: StackBuf)
        ensures
            r.wf(),
            r@ == Seq::<u8>::empty(),
    {
        StackBuf { buf: Vec::with_capacity(BUFFER_SIZE) }
    }

    /// Appends `word`, which must fit in the room that is left.
    pub fn write(&mut self, word: &[u8])
        requires
            old(self).wf(),
            old(self)@.len() + word@.len() <= BUFFER_SIZE,
        ensures
            final(self).wf(),
            final(self)@ == old(self)@ + word@,
    {
        let mut i: usize = 0;
        while i < word.len()
            invariant
                i <= word@.len(),
                self.buf@ == old(self)@ + word@.subrange(0, i as int),
            decreases word@.len() - i,
        {
            self.buf.push(word[i]);
            assert(self.buf@ == old(self)@ + word@.subrange(0, i + 1));
            i = i + 1;
        }
        assert(word@.subrange(0, word@.len() as int) == word@);
    }

    /// Forgets the written bytes.
    pub fn clear(&mut self)
        ensures
            final(self).wf(),
            final(self)@ == Seq::<u8>::empty(),
    {
        self.buf.clear();
    }

    /// The written bytes.
    pub fn getdata(&self) -> (r: &[u8])
        ensures
            r@ == self@,
    {
        self.buf.as_slice()
    }

    /// Number of written bytes.
    pub fn pos(&self) -> (r: usize)
        ensures
            r == self@.len(),
    {
        self.buf.len()
    }

    /// The capacity.
    pub fn len(&self) -> (r: usize)
        ensures
            r == BUFFER_SIZE,
    {
        BUFFER_SIZE
    }

    /// Whether the capacity is zero, which it never is.
    pub fn is_empty(&self) -> (r: bool)
        ensures
            r == (BUFFER_SIZE == 0),
            !r,
    {
        self.len() == 0
    }
}

impl Default for StackBuf {
    fn default() -> (r: StackBuf)
        ensures
            r.wf(),
            r@ == Seq::<u8>::empty(),
    {
        StackBuf::new()
    }
}

} // verus!
