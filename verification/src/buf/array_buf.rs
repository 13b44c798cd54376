//! A buffer backed by an array.

use vstd::prelude::*;

use super::partially_initialized::{PartiallyInitialized, PartiallyInitializedWriter, spec_resize};
use super::spec_grow;
use crate::copy::spec_write;
use crate::io::BufWriter;
use super::{Buf, BufMut, Full, Length, SizeLimit};
use crate::range::{Range, RangeOutOfBounds, as_range, converts};

verus! {

/// A buffer backed by an array. The array is initially empty, but can grow
/// until it reaches its capacity `N`.
#[derive(Clone, Copy)]
pub struct ArrayBuf<const N: usize> {
    inner: PartiallyInitialized<N>,
}

/// The error returned when an [`ArrayBuf`] is turned into an array before it
/// has been filled.
#[derive(Clone, Copy, Debug, PartialEq, Eq)]
pub struct NotFullyInitialized {
    pub initialized: usize,
    pub buf_size: usize,
}

impl<const N: usize> ArrayBuf<N> {
    /// The whole backing array, the bytes of the buffer and those after
    /// them.
    pub closed spec fn storage(&self) -> Seq<u8> {
        self.inner.storage()
    }

    /// Creates an empty buffer.
    pub fn new() -> (r: Self)
        ensures
            r.bytes() == Seq::<u8>::empty(),
    {
        let r = ArrayBuf { inner: PartiallyInitialized::new([0u8; N]) };
        assert(r.bytes() =~= Seq::<u8>::empty());
        r
    }

    /// Whether the buffer has grown to its capacity `N`.
    pub fn is_full(&self) -> (b: bool)
        ensures
            b == (self.bytes().len() == N),
    {
        proof {
            self.inner.lemma_filled_fits();
        }
        self.inner.is_full()
    }

    /// Cuts the buffer to `new_len` bytes, or grows it to that length with
    /// bytes of `value`.
    pub fn resize(&mut self, new_len: usize, value: u8)
        requires
            new_len <= N,
        ensures
            (*final(self)).bytes() == spec_resize(old(self).bytes(), new_len as nat, value),
    {
        self.inner.resize(new_len, value)
    }

    /// Empties the buffer.
    pub fn clear(&mut self)
        ensures
            (*final(self)).bytes() == Seq::<u8>::empty(),
            (*final(self)).storage() == old(self).storage(),
    {
        self.inner.clear();
        assert((*self).bytes() =~= Seq::<u8>::empty());
    }

    /// The whole backing array.
    pub fn inner_ref(&self) -> (r: &[u8; N])
        ensures
            r@ == self.storage(),
            self.bytes() == r@.subrange(0, self.bytes().len() as int),
    {
        proof {
            self.inner.lemma_filled_fits();
        }
        self.inner.inner_ref()
    }

    /// The whole backing array, to change it in place. The buffer keeps its
    /// length.
    pub fn inner_mut(&mut self) -> (r: &mut [u8; N])
        ensures
            (*r)@ == old(self).storage(),
            (*final(self)).storage() == (*final(r))@,
            (*final(self)).bytes() == (*final(r))@.subrange(0, old(self).bytes().len() as int),
    {
        proof {
            self.inner.lemma_filled_fits();
        }
        let r = self.inner.inner_mut();
        proof {
            vstd::array::array_len_matches_n(&*r);
        }
        r
    }

    /// The bytes of the buffer in `range`.
    pub fn view<R: Into<Range>>(&self, range: R) -> (r: Result<&[u8], RangeOutOfBounds>)
        requires
            converts::<R>(),
        ensures
            match as_range(range).spec_slice_bounds(self.bytes().len()) {
                Some((s, e)) => r matches Ok(v) && v@ == self.bytes().subrange(s, e),
                None => r == Err::<&[u8], _>(
                    RangeOutOfBounds {
                        required: as_range(range),
                        bounds: (0, self.bytes().len() as usize),
                    },
                ),
            },
    {
        self.inner.view(range)
    }

    /// The backing array, if the buffer has grown to fill it.
    pub fn try_into_array(self) -> (r: Result<[u8; N], NotFullyInitialized>)
        ensures
            self.bytes().len() == N ==> (r matches Ok(a) && a@ == self.bytes()),
            self.bytes().len() < N ==> r == Err::<[u8; N], _>(
                NotFullyInitialized { initialized: self.bytes().len() as usize, buf_size: N },
            ),
    {
        proof {
            self.inner.lemma_filled_fits();
        }
        let (buf, initialized) = self.inner.into_parts();
        if initialized == N {
            assert(buf@ =~= buf@.subrange(0, N as int));
            Ok(buf)
        } else {
            Err(NotFullyInitialized { initialized, buf_size: N })
        }
    }
}

impl<const N: usize> Default for ArrayBuf<N> {
    fn default() -> (r: Self)
        ensures
            r.bytes() == Seq::<u8>::empty(),
    {
        Self::new()
    }
}

impl<const N: usize> Length for ArrayBuf<N> {
    closed spec fn length(&self) -> nat {
        self.inner.filled()
    }

    fn len(&self) -> (n: usize) {
        self.inner.len()
    }
}

impl<const N: usize> Buf for ArrayBuf<N> {
    closed spec fn bytes(&self) -> Seq<u8> {
        self.inner.bytes()
    }

    proof fn lemma_length(&self) {
        self.inner.lemma_length();
    }

    fn chunk_at(&self, offset: usize) -> (c: &[u8]) {
        self.inner.chunk_at(offset)
    }
}

impl<const N: usize> BufMut for ArrayBuf<N> {
    open spec fn capacity_bound(&self) -> Option<nat> {
        Some(N as nat)
    }

    fn reserve(&mut self, size: usize) -> (r: Result<(), Full>) {
        self.inner.reserve(size)
    }

    fn size_limit(&self) -> (l: SizeLimit) {
        SizeLimit::Exact(N)
    }

    fn grow(&mut self, new_len: usize, value: u8) -> (r: Result<(), Full>) {
        self.inner.grow(new_len, value)
    }

    fn extend(&mut self, with: &[u8]) -> (r: Result<(), Full>) {
        self.inner.extend(with)
    }

    fn overwrite(&mut self, offset: usize, with: &[u8]) {
        self.inner.overwrite(offset, with)
    }
}

impl<const N: usize> ArrayBuf<N> {
    /// A writer that starts at the beginning of the buffer.
    pub fn writer(&mut self) -> (w: ArrayBufWriter<'_, N>)
        ensures
            w.inner.partially_initialized.bytes() == old(self).bytes(),
            w.inner.partially_initialized.storage() == old(self).storage(),
            (*final(w.inner.partially_initialized)).bytes() == (*final(self)).bytes(),
            (*final(w.inner.partially_initialized)).storage() == (*final(self)).storage(),
            w.inner.position == 0,
    {
        ArrayBufWriter { inner: self.inner.writer() }
    }
}

/// Writes into an [`ArrayBuf`] from a position within its bytes on,
/// overwriting them and growing the buffer, up to its capacity.
pub struct ArrayBufWriter<'a, const N: usize> {
    pub inner: PartiallyInitializedWriter<'a, N>,
}

impl<'a, const N: usize> BufWriter for ArrayBufWriter<'a, N> {
    open spec fn ahead(&self) -> Seq<u8> {
        self.inner.ahead()
    }

    open spec fn room(&self) -> Option<nat> {
        self.inner.room()
    }

    open spec fn within_reach(&self, n: nat) -> bool {
        self.inner.within_reach(n)
    }

    open spec fn keeps_behind() -> bool {
        true
    }

    open spec fn behind(&self) -> Seq<u8> {
        self.inner.behind()
    }

    proof fn lemma_reach(&self, a: nat, b: nat) {
        self.inner.lemma_reach(a, b);
    }

    open spec fn spec_remaining(&self) -> nat {
        self.inner.spec_remaining()
    }

    /// The bytes of the buffer from the position on, if the position is not at
    /// their end.
    fn chunk_mut(&mut self) -> (r: Option<&mut [u8]>)
        ensures
            old(self).inner.position < old(self).inner.partially_initialized.bytes().len() ==> (r matches Some(
                c,
            ) && c@ == old(self).inner.partially_initialized.bytes().skip(old(self).inner.position as int)
                && final(self).inner.partially_initialized.bytes() == old(
                self,
            ).inner.partially_initialized.bytes().take(old(self).inner.position as int) + final(c)@
                && *final(final(self).inner.partially_initialized) == *final(old(self).inner.partially_initialized)
                && final(self).inner.position == old(self).inner.position),
            old(self).inner.position >= old(self).inner.partially_initialized.bytes().len() ==> r is None
                && *final(self) == *old(self),
    {
        self.inner.chunk_mut()
    }

    /// Moves on by `by` bytes, growing the buffer with zeros as far as the new
    /// position if it is shorter, or fails if that is past its capacity.
    fn advance(&mut self, by: usize) -> (r: Result<(), crate::io::Full>)
        ensures
            old(self).inner.position + by <= N ==> {
                &&& r is Ok
                &&& final(self).inner.partially_initialized.bytes() == spec_grow(
                    old(self).inner.partially_initialized.bytes(),
                    (old(self).inner.position + by) as nat,
                    0,
                )
                &&& final(self).inner.position == old(self).inner.position + by
            },
            old(self).inner.position + by > N ==> {
                &&& r == Err::<(), crate::io::Full>(
                    crate::io::Full { written: 0, requested: by, remaining: N },
                )
                &&& final(self).inner.partially_initialized.bytes() == old(
                    self,
                ).inner.partially_initialized.bytes()
                &&& final(self).inner.position == old(self).inner.position
            },
            *final(final(self).inner.partially_initialized) == *final(old(self).inner.partially_initialized),
    {
        self.inner.advance(by)
    }

    /// How many bytes of the buffer lie after the position.
    fn remaining(&self) -> (n: usize)
        ensures
            n == self.inner.partially_initialized.bytes().len() - self.inner.position,
    {
        self.inner.remaining()
    }

    /// Writes `with` at the position, over the bytes of the buffer and past
    /// their end, and moves on past it; or fails if that does not fit.
    fn extend(&mut self, with: &[u8]) -> (r: Result<(), crate::io::Full>)
        ensures
            old(self).inner.position + with@.len() <= N ==> {
                &&& r is Ok
                &&& final(self).inner.partially_initialized.bytes() == spec_write(
                    old(self).inner.partially_initialized.bytes(),
                    old(self).inner.position as nat,
                    with@,
                )
                &&& final(self).inner.position == old(self).inner.position + with@.len()
            },
            old(self).inner.position + with@.len() > N ==> {
                &&& r == Err::<(), crate::io::Full>(
                    crate::io::Full { written: 0, requested: with@.len() as usize, remaining: N },
                )
                &&& final(self).inner.partially_initialized.bytes() == old(
                    self,
                ).inner.partially_initialized.bytes()
                &&& final(self).inner.position == old(self).inner.position
            },
            *final(final(self).inner.partially_initialized) == *final(old(self).inner.partially_initialized),
    {
        self.inner.extend(with)
    }
}

} // verus!
