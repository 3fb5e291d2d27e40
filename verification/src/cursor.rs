//! Sequential, position-tracked access to an in-memory byte stream.
//!
//! The cursor is the decoder's only view of the stream: all movement is
//! forward-only consumption, and a failed read consumes nothing, so the
//! position stays meaningful for the caller after any failure.

use crate::errors::ParseError;
use vstd::prelude::*;
use vstd::slice::slice_subrange;
use vstd::slice::slice_to_vec;

verus! {

/// A forward-only cursor over a fully buffered byte stream.
pub struct ByteCursor {
    data: Vec<u8>,
    pos: usize,
}

impl ByteCursor {
    /// The position never runs past the end of the stream, and the stream
    /// is an in-memory buffer, so its length fits the machine.
    pub open spec fn wf(&self) -> bool {
        0 <= self.spec_position() <= self.stream().len() <= usize::MAX
    }

    /// The whole underlying byte stream, which never changes.
    pub closed spec fn stream(&self) -> Seq<u8> {
        self.data@
    }

    /// How many bytes have been consumed since the start of the stream.
    pub closed spec fn spec_position(&self) -> int {
        self.pos as int
    }

    pub fn new(data: Vec<u8>) -> (c: ByteCursor)
        ensures
            c.wf(),
            c.stream() == data@,
            c.spec_position() == 0,
    {
        proof {
            vstd::std_specs::vec::axiom_spec_len(&data);
        }
        ByteCursor { data, pos: 0 }
    }

    /// Bytes consumed so far.
    pub fn position(&self) -> (p: usize)
        ensures
            p == self.spec_position(),
    {
        self.pos
    }

    /// Bytes still unread.
    pub fn remaining(&self) -> (n: usize)
        requires
            self.wf(),
        ensures
            n == self.stream().len() - self.spec_position(),
    {
        self.data.len() - self.pos
    }

    /// Returns exactly the next `n` bytes, or fails without consuming
    /// anything when fewer than `n` bytes remain.
    pub fn read_exact(&mut self, n: usize) -> (r: Result<Vec<u8>, ParseError>)
        requires
            old(self).wf(),
        ensures
            final(self).wf(),
            final(self).stream() == old(self).stream(),
            r is Ok <==> old(self).spec_position() + n <= old(self).stream().len(),
            r matches Ok(taken) ==> taken@ == old(self).stream().subrange(
                old(self).spec_position(),
                old(self).spec_position() + n,
            ) && final(self).spec_position() == old(self).spec_position() + n,
            r is Err ==> (r matches Err(e) && e == ParseError::UnexpectedEndOfStream
                && *final(self) == *old(self)),
    {
        if n > self.data.len() - self.pos {
            return Err(ParseError::UnexpectedEndOfStream);
        }
        let end = self.pos + n;
        let out = slice_to_vec(slice_subrange(self.data.as_slice(), self.pos, end));
        self.pos = end;
        Ok(out)
    }
}

} // verus!
