//! A reader over a buffer that keeps its position as an offset.

use vstd::prelude::*;

use super::{End, Remaining};
use crate::buf::Buf;

verus! {

/// A reader that reads from a [`Buf`], keeping its position as an offset
/// into it.
#[derive(Clone, Debug)]
pub struct Cursor<B> {
    buf: B,
    offset: usize,
}

/// A number of bytes to read.
#[derive(Clone, Copy, Debug, PartialEq, Eq)]
pub struct Length(pub usize);

impl<B> Cursor<B> {
    /// The buffer read from.
    pub closed spec fn spec_buf(&self) -> B {
        self.buf
    }

    /// The offset of the next byte to read.
    pub closed spec fn spec_offset(&self) -> usize {
        self.offset
    }

    /// A cursor at the start of `buf`.
    pub fn new(buf: B) -> (r: Self)
        ensures
            r.spec_buf() == buf,
            r.spec_offset() == 0,
    {
        Self::with_offset(buf, 0)
    }

    /// A cursor at `offset` in `buf`.
    pub fn with_offset(buf: B, offset: usize) -> (r: Self)
        ensures
            r.spec_buf() == buf,
            r.spec_offset() == offset,
    {
        Cursor { buf, offset }
    }

    /// Returns the buffer read from.
    pub fn into_inner(self) -> (r: B)
        ensures
            r == self.spec_buf(),
    {
        self.buf
    }

    /// Returns the offset of the next byte to read.
    pub fn position(&self) -> (n: usize)
        ensures
            n == self.spec_offset(),
    {
        self.offset
    }

    /// Moves the cursor to `position`.
    pub fn set_position(&mut self, position: usize)
        ensures
            (*final(self)).spec_buf() == old(self).spec_buf(),
            (*final(self)).spec_offset() == position,
    {
        self.offset = position;
    }
}

/// The bytes of `bytes` after `offset`; none if `offset` lies beyond them.
pub open spec fn spec_after(bytes: Seq<u8>, offset: nat) -> Seq<u8> {
    if offset <= bytes.len() {
        bytes.skip(offset as int)
    } else {
        Seq::empty()
    }
}

impl<B: Buf> Cursor<B> {
    /// What is left to read is the bytes of the buffer after the offset: all
    /// of them for a new cursor.
    pub proof fn lemma_remaining(&self)
        ensures
            self.spec_remaining() == spec_after(self.spec_buf().bytes(), self.spec_offset() as nat).len(),
            self.spec_offset() == 0 ==> self.spec_remaining() == self.spec_buf().bytes().len(),
    {
    }

    /// Skips `n` bytes; fails, and stays, if the buffer doesn't hold them.
    pub fn skip(&mut self, n: usize) -> (r: Result<(), End>)
        ensures
            (*final(self)).spec_buf() == old(self).spec_buf(),
            old(self).spec_offset() + n <= old(self).spec_buf().bytes().len() ==> {
                &&& r is Ok
                &&& (*final(self)).spec_offset() == old(self).spec_offset() + n
            },
            old(self).spec_offset() + n > old(self).spec_buf().bytes().len() ==> {
                &&& r == Err::<(), End>(
                    End {
                        read: 0,
                        requested: n,
                        remaining: spec_after(
                            old(self).spec_buf().bytes(),
                            old(self).spec_offset() as nat,
                        ).len() as usize,
                    },
                )
                &&& (*final(self)).spec_offset() == old(self).spec_offset()
            },
    {
        proof {
            self.buf.lemma_length();
        }
        let len = self.buf.len();
        if self.offset <= len && n <= len - self.offset {
            self.offset = self.offset + n;
            Ok(())
        } else {
            let remaining = if self.offset <= len { len - self.offset } else { 0 };
            Err(End { read: 0, requested: n, remaining })
        }
    }
}

impl<B: Buf> Remaining for Cursor<B> {
    closed spec fn spec_remaining(&self) -> nat {
        spec_after(self.buf.bytes(), self.offset as nat).len()
    }

    fn remaining(&self) -> (n: usize) {
        proof {
            self.buf.lemma_length();
        }
        self.buf.len().saturating_sub(self.offset)
    }
}

impl<'b> Cursor<&'b [u8]> {
    /// Reads the next `length` bytes as a slice of the buffer.
    pub fn read_slice(&mut self, length: Length) -> (r: Result<&'b [u8], End>)
        ensures
            (*final(self)).spec_buf() == old(self).spec_buf(),
            old(self).spec_offset() + length.0 <= old(self).spec_buf()@.len() ==> {
                &&& r matches Ok(s) && s@ == old(self).spec_buf()@.subrange(
                    old(self).spec_offset() as int,
                    old(self).spec_offset() + length.0,
                )
                &&& (*final(self)).spec_offset() == old(self).spec_offset() + length.0
            },
            old(self).spec_offset() + length.0 > old(self).spec_buf()@.len() ==> {
                &&& r == Err::<&'b [u8], End>(
                    End {
                        read: 0,
                        requested: length.0,
                        remaining: spec_after(old(self).spec_buf()@, old(self).spec_offset() as nat).len() as usize,
                    },
                )
                &&& (*final(self)).spec_offset() == old(self).spec_offset()
            },
    {
        let len = self.buf.len();
        let n = length.0;
        if self.offset <= len && n <= len - self.offset {
            let s = vstd::slice::slice_subrange(self.buf, self.offset, self.offset + n);
            self.offset = self.offset + n;
            Ok(s)
        } else {
            let remaining = if self.offset <= len { len - self.offset } else { 0 };
            Err(End { read: 0, requested: n, remaining })
        }
    }

    /// Reads the rest of the buffer as a slice of it.
    pub fn read_rest(&mut self) -> (r: &'b [u8])
        ensures
            (*final(self)).spec_buf() == old(self).spec_buf(),
            r@ == spec_after(old(self).spec_buf()@, old(self).spec_offset() as nat),
            (*final(self)).spec_offset() == if old(self).spec_offset() <= old(self).spec_buf()@.len() {
                old(self).spec_buf()@.len() as usize
            } else {
                old(self).spec_offset()
            },
    {
        let len = self.buf.len();
        if self.offset <= len {
            let s = vstd::slice::slice_subrange(self.buf, self.offset, len);
            self.offset = len;
            s
        } else {
            let s = vstd::slice::slice_subrange(self.buf, len, len);
            assert(s@ =~= Seq::<u8>::empty());
            s
        }
    }
}

} // verus!
