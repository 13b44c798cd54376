//! A reader that stops after a number of bytes.

use vstd::prelude::*;

use super::{BufReader, End, ReadError, Reader, spec_min};
use crate::buf::{Buf, BufMut};

verus! {

/// A reader that hands out at most `limit` bytes of the reader it wraps. The
/// limit never grows: each read lowers it by what it took.
pub struct Limit<R> {
    inner: R,
    limit: usize,
}

impl<R> Limit<R> {
    /// The wrapped reader.
    pub closed spec fn spec_inner(&self) -> R {
        self.inner
    }

    /// How many more bytes may be read.
    pub closed spec fn spec_limit(&self) -> usize {
        self.limit
    }

    /// Wraps `inner`, allowing `limit` bytes to be read.
    pub fn new(inner: R, limit: usize) -> (r: Self)
        ensures
            r.spec_inner() == inner,
            r.spec_limit() == limit,
    {
        Limit { inner, limit }
    }

    /// Returns how many more bytes may be read.
    pub fn remaining_limit(&self) -> (n: usize)
        ensures
            n == self.spec_limit(),
    {
        self.limit
    }

    /// Returns the wrapped reader.
    pub fn into_inner(self) -> (r: R)
        ensures
            r == self.spec_inner(),
    {
        self.inner
    }
}

impl<R: Reader> Limit<R> {
    /// Skips the bytes up to the limit in the wrapped reader. If that ends
    /// before, the limit goes down by the bytes that were skipped.
    pub fn skip_remaining(&mut self) -> (r: Result<(), R::Error>)
        ensures
            old(self).spec_limit() <= old(self).spec_inner().unread().len() ==> r is Ok,
            r is Ok ==> {
                &&& (*final(self)).spec_limit() == 0
                &&& (*final(self)).spec_inner().unread() == old(self).spec_inner().unread().skip(
                    spec_min(old(self).spec_limit() as nat, old(self).spec_inner().unread().len()) as int,
                )
            },
            r matches Err(e) ==> {
                &&& (*final(self)).spec_limit() == old(self).spec_limit() - e.spec_amount_read()
                &&& (*final(self)).spec_inner().unread() == old(self).spec_inner().unread().skip(
                    e.spec_amount_read() as int,
                )
            },
    {
        match self.inner.skip(self.limit) {
            Ok(()) => {
                self.limit = 0;
                Ok(())
            },
            Err(e) => {
                self.limit = self.limit - e.amount_read();
                Err(e)
            },
        }
    }
}

impl<R: Reader> Reader for Limit<R> {
    type Error = R::Error;

    closed spec fn unread(&self) -> Seq<u8> {
        self.inner.unread().take(spec_min(self.limit as nat, self.inner.unread().len()) as int)
    }

    proof fn lemma_unread_fits(&self) {
        self.inner.lemma_unread_fits();
    }

    /// Skips `amount` bytes, but not past the limit.
    fn skip(&mut self, amount: usize) -> (r: Result<(), R::Error>)
        ensures
            (*final(self)).spec_limit() <= old(self).spec_limit(),
            r is Ok ==> (*final(self)).spec_limit() == old(self).spec_limit() - spec_min(
                amount as nat,
                old(self).spec_limit() as nat,
            ),
            r matches Err(e) ==> e.spec_amount_read() <= old(self).spec_limit() && (*final(self)).spec_limit() == old(self).spec_limit() - e.spec_amount_read(),
    {
        proof {
            self.inner.lemma_unread_fits();
        }
        let amount = if self.limit < amount { self.limit } else { amount };
        let ghost before = self.inner.unread();
        match self.inner.skip(amount) {
            Ok(()) => {
                self.limit = self.limit - amount;
                proof {
                    assert(self.unread() =~= old(self).unread().skip(
                        spec_min(amount as nat, old(self).unread().len()) as int,
                    ));
                }
                Ok(())
            },
            Err(e) => {
                self.limit = self.limit - e.amount_read();
                proof {
                    assert(self.unread() =~= old(self).unread().skip(e.spec_amount_read() as int));
                }
                Err(e)
            },
        }
    }

    /// Reads into `dest` from the wrapped reader, as far as the limit allows
    /// too, and lowers the limit by what was read.
    fn read_into<D: BufMut>(&mut self, dest: &mut D, limit: Option<usize>) -> (r: Result<
        usize,
        R::Error,
    >)
        ensures
            r matches Ok(n) ==> (*final(self)).spec_limit() == old(self).spec_limit() - n,
            r matches Err(e) ==> (*final(self)).spec_limit() == old(self).spec_limit() - e.spec_amount_read(),
    {
        proof {
            self.inner.lemma_unread_fits();
        }
        let limit = match limit {
            Some(l) => if l < self.limit {
                l
            } else {
                self.limit
            },
            None => self.limit,
        };
        let ghost before = self.inner.unread();
        match self.inner.read_into(dest, Some(limit)) {
            Ok(n) => {
                self.limit = self.limit - n;
                proof {
                    assert(self.unread() =~= old(self).unread().skip(n as int));
                    assert(old(self).unread().take(n as int) =~= before.take(n as int));
                }
                Ok(n)
            },
            Err(e) => {
                self.limit = self.limit - e.amount_read();
                proof {
                    assert(self.unread() =~= old(self).unread().skip(e.spec_amount_read() as int));
                }
                Err(e)
            },
        }
    }

    /// Reads `length` bytes into `dest`; fails without reading if that
    /// passes the limit.
    fn read_into_exact<D: BufMut>(&mut self, dest: &mut D, length: usize) -> (r: Result<
        (),
        R::Error,
    >)
        ensures
            (*final(self)).spec_limit() <= old(self).spec_limit(),
            length > old(self).spec_limit() ==> (r matches Err(e) && e.spec_amount_read() == 0 && (*final(self)).spec_limit() == old(self).spec_limit()),
            r is Ok ==> (*final(self)).spec_limit() == old(self).spec_limit() - length,
            r matches Err(e) ==> e.spec_amount_read() <= old(self).spec_limit() && (*final(self)).spec_limit() == old(self).spec_limit() - e.spec_amount_read(),
    {
        proof {
            self.inner.lemma_unread_fits();
        }
        if length > self.limit {
            let e = R::Error::from_end(End { read: 0, requested: length, remaining: self.limit });
            assert(self.unread() =~= old(self).unread().skip(0));
            Err(e)
        } else {
            let ghost before = self.inner.unread();
            match self.inner.read_into_exact(dest, length) {
                Ok(()) => {
                    self.limit = self.limit - length;
                    proof {
                        assert(self.unread() =~= old(self).unread().skip(length as int));
                        assert(old(self).unread().take(length as int) =~= before.take(length as int));
                    }
                    Ok(())
                },
                Err(e) => {
                    self.limit = self.limit - e.amount_read();
                    proof {
                        assert(self.unread() =~= old(self).unread().skip(e.spec_amount_read() as int));
                    }
                    Err(e)
                },
            }
        }
    }
}

impl<R: BufReader> BufReader for Limit<R> {
    type View = R::View;

    fn peek_chunk(&self) -> (r: Option<&[u8]>) {
        if self.limit == 0 {
            None
        } else {
            match self.inner.peek_chunk() {
                Some(chunk) => {
                    let n = if chunk.len() < self.limit { chunk.len() } else { self.limit };
                    let c = vstd::slice::slice_subrange(chunk, 0, n);
                    proof {
                        let u = self.inner.unread();
                        assert(chunk@ == u.take(chunk@.len() as int));
                        assert(c@ =~= chunk@.subrange(0, n as int));
                        assert(c@ =~= u.take(n as int));
                        assert(self.unread().take(n as int) =~= u.take(n as int));
                    }
                    Some(c)
                },
                None => None,
            }
        }
    }

    fn view(&mut self, length: usize) -> (r: Result<Self::View, End>)
        ensures
            (*final(self)).spec_limit() <= old(self).spec_limit(),
            length <= old(self).unread().len() ==> (*final(self)).spec_limit()
                == old(self).spec_limit() - length,
            length > old(self).spec_limit() ==> (r matches Err(e) && e.read == 0 && (*final(self)).spec_limit() == old(self).spec_limit()),
    {
        proof {
            self.inner.lemma_unread_fits();
        }
        if length > self.limit {
            let remaining = self.inner.remaining();
            Err(End {
                read: 0,
                requested: length,
                remaining: if self.limit < remaining { self.limit } else { remaining },
            })
        } else {
            let ghost before = self.inner.unread();
            match self.inner.view(length) {
                Ok(view) => {
                    self.limit = self.limit - length;
                    proof {
                        assert(self.unread() =~= old(self).unread().skip(length as int));
                        assert(old(self).unread().take(length as int) =~= before.take(length as int));
                    }
                    Ok(view)
                },
                Err(e) => Err(e),
            }
        }
    }

    fn peek_view(&self, length: usize) -> (r: Result<Self::View, End>) {
        proof {
            self.inner.lemma_unread_fits();
        }
        if length > self.limit {
            let remaining = self.inner.remaining();
            Err(End {
                read: 0,
                requested: length,
                remaining: if self.limit < remaining { self.limit } else { remaining },
            })
        } else {
            let r = self.inner.peek_view(length);
            proof {
                if length <= self.inner.unread().len() {
                    assert(self.unread().take(length as int) =~= self.inner.unread().take(
                        length as int,
                    ));
                }
            }
            r
        }
    }

    fn rest(&mut self) -> (v: Self::View)
        ensures
            (*final(self)).spec_limit() <= old(self).spec_limit(),
    {
        let ghost before = self.inner.unread();
        match self.inner.view(self.limit) {
            Ok(view) => {
                self.limit = 0;
                assert(self.unread() =~= Seq::<u8>::empty());
                view
            },
            Err(_) => {
                let view = self.inner.rest();
                assert(self.unread() =~= Seq::<u8>::empty());
                assert(old(self).unread() =~= before);
                view
            },
        }
    }

    fn peek_rest(&self) -> (v: Self::View) {
        match self.inner.peek_view(self.limit) {
            Ok(view) => view,
            Err(_) => {
                let view = self.inner.peek_rest();
                assert(self.unread() =~= self.inner.unread());
                view
            },
        }
    }

    fn advance(&mut self, by: usize) -> (r: Result<(), End>)
        ensures
            (*final(self)).spec_limit() <= old(self).spec_limit(),
            by <= old(self).unread().len() ==> (*final(self)).spec_limit() == old(self).spec_limit()
                - by,
            by > old(self).spec_limit() ==> (r matches Err(e) && e.read == 0 && (*final(self)).spec_limit() == old(self).spec_limit()),
    {
        proof {
            self.inner.lemma_unread_fits();
        }
        if by > self.limit {
            let remaining = self.inner.remaining();
            Err(End {
                read: 0,
                requested: by,
                remaining: if self.limit < remaining { self.limit } else { remaining },
            })
        } else {
            match self.inner.advance(by) {
                Ok(()) => {
                    self.limit = self.limit - by;
                    assert(self.unread() =~= old(self).unread().skip(by as int));
                    Ok(())
                },
                Err(e) => Err(e),
            }
        }
    }

    fn remaining(&self) -> (n: usize) {
        let remaining = self.inner.remaining();
        if self.limit < remaining {
            self.limit
        } else {
            remaining
        }
    }
}

} // verus!
