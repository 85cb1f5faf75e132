use vstd::prelude::*;
use vstd::slice::slice_subrange;
use crate::error::{CerealError, CerealResult, IoFailure, end_of_stream};

verus! {

/// A byte buffer that is read front to back.
pub struct Source<'a> {
    bytes: &'a [u8],
    position: usize,
}

impl<'a> Source<'a> {
    #[verifier::type_invariant]
    spec fn bounded(self) -> bool {
        self.position <= self.bytes@.len()
    }

    /// All bytes of the buffer, read or not.
    pub closed spec fn bytes(self) -> Seq<u8> {
        self.bytes@
    }

    /// How many bytes have been read: never more than there are.
    pub closed spec fn consumed(self) -> nat {
        if self.position <= self.bytes@.len() {
            self.position as nat
        } else {
            self.bytes@.len()
        }
    }

    /// The bytes not yet read.
    pub open spec fn remaining(self) -> Seq<u8> {
        self.bytes().skip(self.consumed() as int)
    }

    /// What is left after `count` more bytes were read is what was left before, less its
    /// first `count` bytes.
    pub proof fn lemma_remaining_after(self, before: Source, count: nat)
        requires
            self.bytes() == before.bytes(),
            self.consumed() == before.consumed() + count,
        ensures
            count <= before.remaining().len(),
            self.remaining() == before.remaining().skip(count as int),
    {
    }

    /// A buffer of which nothing has been read.
    pub fn new(bytes: &'a [u8]) -> (source: Source<'a>)
        ensures
            source.bytes() == bytes@,
            source.consumed() == 0,
    {
        Source { bytes, position: 0 }
    }

    /// How many bytes have been read.
    pub fn position(&self) -> (position: usize)
        ensures
            position == self.consumed(),
    {
        proof {
            use_type_invariant(self);
        }
        self.position
    }

    /// How many bytes are left to read.
    pub fn remaining_len(&self) -> (len: usize)
        ensures
            len == self.remaining().len(),
    {
        proof {
            use_type_invariant(self);
        }
        self.bytes.len() - self.position
    }

    /// Reads the next `count` bytes, or fails where fewer are left.
    pub fn take(&mut self, count: usize) -> (r: CerealResult<&'a [u8]>)
        ensures
            final(self).bytes() == old(self).bytes(),
            old(self).remaining().len() >= count ==> (r matches Ok(chunk)
                && chunk@ == old(self).remaining().take(count as int)
                && final(self).consumed() == old(self).consumed() + count),
            old(self).remaining().len() < count ==> r == Err::<&[u8], CerealError>(end_of_stream())
                && final(self).consumed() == old(self).consumed(),
    {
        proof {
            use_type_invariant(&*self);
        }
        if count <= self.bytes.len() - self.position {
            let chunk = slice_subrange(self.bytes, self.position, self.position + count);
            assert(chunk@ == self.remaining().take(count as int));
            self.position = self.position + count;
            Ok(chunk)
        } else {
            Err(CerealError::Io(IoFailure::UnexpectedEof))
        }
    }
}

} // verus!
