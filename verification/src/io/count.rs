//! A reader that counts the bytes read through it.

use vstd::prelude::*;

use super::{BufReader, End, ReadError, Reader, Seek};
use crate::buf::{Buf, BufMut, Length};

verus! {

/// A reader that counts how many bytes were read through it.
#[derive(Clone, Debug)]
pub struct Count<R> {
    inner: R,
    count: usize,
}

impl<R> Count<R> {
    /// The wrapped reader.
    pub closed spec fn spec_inner(&self) -> R {
        self.inner
    }

    /// The number of bytes read so far.
    pub closed spec fn spec_count(&self) -> usize {
        self.count
    }

    /// Wraps `inner`, starting the count at 0.
    pub fn new(inner: R) -> (r: Self)
        ensures
            r.spec_inner() == inner,
            r.spec_count() == 0,
    {
        Count { inner, count: 0 }
    }

    /// Returns the number of bytes read so far. The count stops at
    /// `usize::MAX`.
    pub fn count(&self) -> (n: usize)
        ensures
            n == self.spec_count(),
    {
        self.count
    }

    /// Returns the wrapped reader.
    pub fn into_inner(self) -> (r: R)
        ensures
            r == self.spec_inner(),
    {
        self.inner
    }
}

impl<R: Reader> Count<R> {
    /// The count together with the bytes still to read, stopping at
    /// `usize::MAX`. Reading moves bytes from the one to the other and keeps
    /// this the same: so the count is the number of bytes read through the
    /// wrapper, which is what it is for.
    pub open spec fn spec_total(&self) -> usize {
        crate::buf::sat_add(self.spec_count() as nat, self.unread().len())
    }
}

/// Moving `l` of `u` bytes onto a count keeps the sum, both stopping at
/// `usize::MAX`.
proof fn lemma_sat_add_moves(c: nat, l: nat, u: nat)
    requires
        l <= u,
    ensures
        crate::buf::sat_add(crate::buf::sat_add(c, l) as nat, (u - l) as nat) == crate::buf::sat_add(c, u),
{
}

impl<R: Reader> Reader for Count<R> {
    type Error = R::Error;

    closed spec fn unread(&self) -> Seq<u8> {
        self.inner.unread()
    }

    proof fn lemma_unread_fits(&self) {
        self.inner.lemma_unread_fits();
    }

    fn skip(&mut self, amount: usize) -> (r: Result<(), R::Error>)
        ensures
            (*final(self)).spec_count() == match r {
                Ok(()) => crate::buf::sat_add(old(self).spec_count() as nat, amount as nat),
                Err(e) => crate::buf::sat_add(old(self).spec_count() as nat, e.spec_amount_read() as nat),
            },
            amount <= old(self).unread().len() || r is Err ==> (*final(self)).spec_total() == old(
                self,
            ).spec_total(),
    {
        proof {
            self.inner.lemma_unread_fits();
        }
        match self.inner.skip(amount) {
            Ok(()) => {
                proof {
                    if amount <= old(self).unread().len() {
                        lemma_sat_add_moves(self.count as nat, amount as nat, old(self).unread().len());
                    }
                }
                self.count = self.count.saturating_add(amount);
                Ok(())
            },
            Err(e) => {
                proof {
                    lemma_sat_add_moves(self.count as nat, e.spec_amount_read() as nat, old(self).unread().len());
                }
                self.count = self.count.saturating_add(e.amount_read());
                Err(e)
            },
        }
    }

    fn read_into<D: BufMut>(&mut self, dest: &mut D, limit: Option<usize>) -> (r: Result<
        usize,
        R::Error,
    >)
        ensures
            (*final(self)).spec_count() == match r {
                Ok(n) => crate::buf::sat_add(old(self).spec_count() as nat, n as nat),
                Err(e) => crate::buf::sat_add(old(self).spec_count() as nat, e.spec_amount_read() as nat),
            },
            (*final(self)).spec_total() == old(self).spec_total(),
    {
        match self.inner.read_into(dest, limit) {
            Ok(n) => {
                proof {
                    lemma_sat_add_moves(self.count as nat, n as nat, old(self).unread().len());
                }
                self.count = self.count.saturating_add(n);
                Ok(n)
            },
            Err(e) => {
                proof {
                    lemma_sat_add_moves(self.count as nat, e.spec_amount_read() as nat, old(self).unread().len());
                }
                self.count = self.count.saturating_add(e.amount_read());
                Err(e)
            },
        }
    }

    fn read_into_exact<D: BufMut>(&mut self, dest: &mut D, length: usize) -> (r: Result<
        (),
        R::Error,
    >)
        ensures
            (*final(self)).spec_count() == match r {
                Ok(()) => crate::buf::sat_add(old(self).spec_count() as nat, length as nat),
                Err(e) => crate::buf::sat_add(old(self).spec_count() as nat, e.spec_amount_read() as nat),
            },
            (*final(self)).spec_total() == old(self).spec_total(),
    {
        match self.inner.read_into_exact(dest, length) {
            Ok(()) => {
                proof {
                    lemma_sat_add_moves(self.count as nat, length as nat, old(self).unread().len());
                }
                self.count = self.count.saturating_add(length);
                Ok(())
            },
            Err(e) => {
                proof {
                    lemma_sat_add_moves(self.count as nat, e.spec_amount_read() as nat, old(self).unread().len());
                }
                self.count = self.count.saturating_add(e.amount_read());
                Err(e)
            },
        }
    }
}

impl<R: BufReader> BufReader for Count<R> {
    type View = R::View;

    fn peek_chunk(&self) -> (r: Option<&[u8]>) {
        self.inner.peek_chunk()
    }

    fn view(&mut self, length: usize) -> (r: Result<Self::View, End>)
        ensures
            (*final(self)).spec_count() == if length <= old(self).unread().len() {
                crate::buf::sat_add(old(self).spec_count() as nat, length as nat)
            } else {
                old(self).spec_count()
            },
            (*final(self)).spec_total() == old(self).spec_total(),
    {
        match self.inner.view(length) {
            Ok(view) => {
                proof {
                    view.lemma_length();
                    lemma_sat_add_moves(self.count as nat, length as nat, old(self).unread().len());
                }
                self.count = self.count.saturating_add(view.len());
                Ok(view)
            },
            Err(e) => Err(e),
        }
    }

    fn peek_view(&self, length: usize) -> (r: Result<Self::View, End>) {
        self.inner.peek_view(length)
    }

    fn rest(&mut self) -> (v: Self::View)
        ensures
            (*final(self)).spec_count() == crate::buf::sat_add(
                old(self).spec_count() as nat,
                old(self).unread().len(),
            ),
            (*final(self)).spec_total() == old(self).spec_total(),
    {
        let view = self.inner.rest();
        proof {
            view.lemma_length();
            lemma_sat_add_moves(self.count as nat, old(self).unread().len(), old(self).unread().len());
        }
        self.count = self.count.saturating_add(view.len());
        view
    }

    fn peek_rest(&self) -> (v: Self::View) {
        self.inner.peek_rest()
    }

    fn advance(&mut self, by: usize) -> (r: Result<(), End>)
        ensures
            (*final(self)).spec_count() == if by <= old(self).unread().len() {
                crate::buf::sat_add(old(self).spec_count() as nat, by as nat)
            } else {
                old(self).spec_count()
            },
            (*final(self)).spec_total() == old(self).spec_total(),
    {
        match self.inner.advance(by) {
            Ok(()) => {
                proof {
                    lemma_sat_add_moves(self.count as nat, by as nat, old(self).unread().len());
                }
                self.count = self.count.saturating_add(by);
                Ok(())
            },
            Err(e) => Err(e),
        }
    }

    fn remaining(&self) -> (n: usize) {
        self.inner.remaining()
    }
}

impl<R: Seek> Count<R> {
    /// The position of the wrapped reader, with the count.
    pub fn tell(&self) -> (r: Count<R::Position>)
        ensures
            r.spec_inner() == self.spec_inner().position(),
            r.spec_count() == self.spec_count(),
    {
        Count { inner: self.inner.tell(), count: self.count }
    }

    /// Moves the wrapped reader to the position in `position`, and returns
    /// where it was, with the count. The count stays as it is.
    pub fn seek(&mut self, position: &Count<R::Position>) -> (r: Count<R::Position>)
        ensures
            r.spec_inner() == old(self).spec_inner().position(),
            r.spec_count() == old(self).spec_count(),
            (*final(self)).spec_inner().position() == position.spec_inner(),
            (*final(self)).spec_count() == old(self).spec_count(),
    {
        let previous = Count { inner: self.inner.seek(&position.inner), count: self.count };
        self.count = previous.count;
        previous
    }
}

} // verus!
