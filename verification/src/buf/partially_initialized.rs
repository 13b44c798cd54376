//! A fixed block of memory of which a prefix holds the buffer's bytes.

use vstd::prelude::*;

use super::{Buf, BufMut, Full, Length, SizeLimit, sat_add, spec_grow, spec_overwrite};
use crate::copy::spec_write;
use crate::io::BufWriter;
use crate::io::write::skip_or_empty;
use crate::range::{Range, RangeOutOfBounds, as_range, converts, to_range};

verus! {

/// A count of bytes that never exceeds `N`.
#[derive(Clone, Copy)]
struct Filled<const N: usize> {
    n: usize,
}

impl<const N: usize> Filled<N> {
    #[verifier::type_invariant]
    spec fn inv(self) -> bool {
        self.n <= N
    }

    spec fn value(self) -> usize {
        self.n
    }

    fn new(n: usize) -> (f: Self)
        requires
            n <= N,
        ensures
            f.value() == n,
    {
        Filled { n }
    }

    fn get(&self) -> (n: usize)
        ensures
            n == self.value(),
            n <= N,
    {
        proof {
            use_type_invariant(self);
        }
        self.n
    }
}

/// `bytes` cut or grown to `new_len` bytes, new bytes being `value`.
pub open spec fn spec_resize(bytes: Seq<u8>, new_len: nat, value: u8) -> Seq<u8> {
    if new_len > bytes.len() {
        spec_grow(bytes, new_len, value)
    } else {
        bytes.subrange(0, new_len as int)
    }
}

/// Sets `buf[start..end]` to `value`.
fn fill_array<const N: usize>(buf: &mut [u8; N], start: usize, end: usize, value: u8)
    requires
        start <= end <= N,
    ensures
        final(buf)@ == old(buf)@.subrange(0, start as int) + Seq::new(
            (end - start) as nat,
            |_i: int| value,
        ) + old(buf)@.subrange(end as int, N as int),
{
    proof {
        vstd::array::array_len_matches_n(buf);
    }
    let ghost before = buf@;
    let mut i = start;
    while i < end
        invariant
            start <= i <= end <= N,
            before.len() == N,
            buf@.len() == N,
            buf@ == before.subrange(0, start as int) + Seq::new(
                (i - start) as nat,
                |_i: int| value,
            ) + before.subrange(i as int, N as int),
        decreases end - i,
    {
        buf[i] = value;
        i += 1;
        assert(buf@ =~= before.subrange(0, start as int) + Seq::new(
            (i - start) as nat,
            |_i: int| value,
        ) + before.subrange(i as int, N as int));
    }
}

/// Sets `buf[offset..offset + with.len()]` to `with`.
fn write_array<const N: usize>(buf: &mut [u8; N], offset: usize, with: &[u8])
    requires
        offset + with@.len() <= N,
    ensures
        final(buf)@ == old(buf)@.subrange(0, offset as int) + with@ + old(buf)@.subrange(
            offset + with@.len(),
            N as int,
        ),
{
    proof {
        vstd::array::array_len_matches_n(buf);
    }
    let ghost before = buf@;
    let mut i: usize = 0;
    while i < with.len()
        invariant
            offset + with@.len() <= N,
            i <= with@.len(),
            before.len() == N,
            buf@.len() == N,
            buf@ == before.subrange(0, offset as int) + with@.subrange(0, i as int)
                + before.subrange(offset + i, N as int),
        decreases with@.len() - i,
    {
        buf[offset + i] = with[i];
        i += 1;
        assert(buf@ =~= before.subrange(0, offset as int) + with@.subrange(0, i as int)
            + before.subrange(offset + i, N as int));
    }
    assert(with@.subrange(0, i as int) =~= with@);
}

/// A block of `N` bytes of which the first ones hold the buffer. It grows
/// into the rest of the block, up to `N` bytes.
#[derive(Clone, Copy)]
pub struct PartiallyInitialized<const N: usize> {
    buf: [u8; N],
    initialized: Filled<N>,
}

impl<const N: usize> PartiallyInitialized<N> {
    /// The whole block, the bytes of the buffer and those after them.
    pub closed spec fn storage(&self) -> Seq<u8> {
        self.buf@
    }

    /// How many bytes of the block belong to the buffer.
    pub closed spec fn filled(&self) -> nat {
        if self.initialized.value() <= N {
            self.initialized.value() as nat
        } else {
            N as nat
        }
    }

    /// The buffer never reaches beyond its block.
    pub proof fn lemma_filled_fits(&self)
        ensures
            self.filled() <= N,
            self.storage().len() == N,
    {
        vstd::array::array_len_matches_n(&self.buf);
    }

    /// Makes an empty buffer in the block `buf`.
    pub fn new(buf: [u8; N]) -> (r: Self)
        ensures
            r.storage() == buf@,
            r.filled() == 0,
    {
        PartiallyInitialized { buf, initialized: Filled::new(0) }
    }

    /// Empties the buffer; the block stays as it is.
    pub fn clear(&mut self)
        ensures
            (*final(self)).storage() == old(self).storage(),
            (*final(self)).filled() == 0,
    {
        self.initialized = Filled::new(0);
    }

    /// The whole block.
    pub fn inner_ref(&self) -> (r: &[u8; N])
        ensures
            r@ == self.storage(),
    {
        &self.buf
    }

    /// The whole block, to change it in place. The buffer keeps its length.
    pub fn inner_mut(&mut self) -> (r: &mut [u8; N])
        ensures
            (*r)@ == old(self).storage(),
            (*final(self)).storage() == (*final(r))@,
            (*final(self)).filled() == old(self).filled(),
    {
        &mut self.buf
    }

    /// The block and the length of the buffer in it.
    pub fn into_parts(self) -> (r: ([u8; N], usize))
        ensures
            r.0@ == self.storage(),
            r.1 == self.filled(),
    {
        let n = self.initialized.get();
        (self.buf, n)
    }

    /// The size of the block, which is as far as the buffer can grow.
    pub fn capacity(&self) -> (c: usize)
        ensures
            c == N,
    {
        N
    }

    /// Whether the buffer fills the whole block.
    pub fn is_full(&self) -> (b: bool)
        ensures
            b == (self.filled() == N),
    {
        self.initialized.get() == N
    }

    /// Cuts the buffer to `new_len` bytes, or grows it to that length with
    /// bytes of `value`.
    pub fn resize(&mut self, new_len: usize, value: u8)
        requires
            new_len <= N,
        ensures
            (*final(self)).bytes() == spec_resize(old(self).bytes(), new_len as nat, value),
            new_len <= old(self).filled() ==> (*final(self)).storage() == old(self).storage(),
    {
        let n = self.initialized.get();
        proof {
            vstd::array::array_len_matches_n(&self.buf);
        }
        let ghost before = self.buf@;
        if new_len > n {
            fill_array(&mut self.buf, n, new_len, value);
        }
        self.initialized = Filled::new(new_len);
        proof {
            vstd::array::array_len_matches_n(&self.buf);
            assert(self.bytes() =~= spec_resize(before.subrange(0, n as int), new_len as nat, value));
        }
    }

    /// The bytes of the buffer in `range`.
    pub fn view<R: Into<Range>>(&self, range: R) -> (r: Result<&[u8], RangeOutOfBounds>)
        requires
            converts::<R>(),
        ensures
            match as_range(range).spec_slice_bounds(self.bytes().len()) {
                Some((s, e)) => r matches Ok(v) && v@ == self.bytes().subrange(s, e),
                None => r == Err::<&[u8], _>(
                    RangeOutOfBounds {
                        required: as_range(range),
                        bounds: (0, self.bytes().len() as usize),
                    },
                ),
            },
    {
        let range = to_range(range);
        let bytes = self.initialized_bytes();
        range.slice_get(bytes)
    }

    /// The bytes of the buffer as a slice.
    fn initialized_bytes(&self) -> (s: &[u8])
        ensures
            s@ == self.bytes(),
    {
        let n = self.initialized.get();
        proof {
            vstd::array::array_len_matches_n(&self.buf);
        }
        vstd::slice::slice_subrange(self.buf.as_slice(), 0, n)
    }
}

impl<const N: usize> Length for PartiallyInitialized<N> {
    open spec fn length(&self) -> nat {
        self.filled()
    }

    fn len(&self) -> (n: usize) {
        let n = self.initialized.get();
        assert(n == self.filled());
        assert(n == self.length());
        assert(n == Length::length(self));
        n
    }
}

impl<const N: usize> Buf for PartiallyInitialized<N> {
    open spec fn bytes(&self) -> Seq<u8> {
        self.storage().subrange(0, self.filled() as int)
    }

    proof fn lemma_length(&self) {
        self.lemma_filled_fits();
    }

    fn chunk_at(&self, offset: usize) -> (c: &[u8]) {
        let n = self.initialized.get();
        proof {
            vstd::array::array_len_matches_n(&self.buf);
        }
        vstd::slice::slice_subrange(self.buf.as_slice(), offset, n)
    }
}

impl<const N: usize> BufMut for PartiallyInitialized<N> {
    open spec fn capacity_bound(&self) -> Option<nat> {
        Some(N as nat)
    }

    fn reserve(&mut self, size: usize) -> (r: Result<(), Full>) {
        proof {
            self.lemma_filled_fits();
        }
        if size <= N {
            Ok(())
        } else {
            Err(Full { required: size, capacity: N })
        }
    }

    fn size_limit(&self) -> (l: SizeLimit) {
        SizeLimit::Exact(N)
    }

    fn grow(&mut self, new_len: usize, value: u8) -> (r: Result<(), Full>) {
        let n = self.initialized.get();
        proof {
            vstd::array::array_len_matches_n(&self.buf);
        }
        if new_len > N {
            Err(Full { required: new_len, capacity: N })
        } else if new_len > n {
            let ghost before = self.buf@;
            fill_array(&mut self.buf, n, new_len, value);
            self.initialized = Filled::new(new_len);
            proof {
                vstd::array::array_len_matches_n(&self.buf);
                assert(self.bytes() =~= spec_grow(before.subrange(0, n as int), new_len as nat, value));
            }
            Ok(())
        } else {
            Ok(())
        }
    }

    fn extend(&mut self, with: &[u8]) -> (r: Result<(), Full>) {
        let n = self.initialized.get();
        proof {
            vstd::array::array_len_matches_n(&self.buf);
        }
        if with.len() <= N - n {
            let ghost before = self.buf@;
            BufMut::overwrite(&mut self.buf, n, with);
            self.initialized = Filled::new(n + with.len());
            proof {
                vstd::array::array_len_matches_n(&self.buf);
                assert(self.bytes() =~= before.subrange(0, n as int) + with@);
            }
            Ok(())
        } else {
            Err(Full { required: n.saturating_add(with.len()), capacity: N })
        }
    }

    fn overwrite(&mut self, offset: usize, with: &[u8]) {
        let n = self.initialized.get();
        proof {
            vstd::array::array_len_matches_n(&self.buf);
        }
        let ghost before = self.buf@;
        BufMut::overwrite(&mut self.buf, offset, with);
        proof {
            vstd::array::array_len_matches_n(&self.buf);
            assert(self.bytes() =~= spec_overwrite(before.subrange(0, n as int), offset as int, with@));
        }
    }
}

impl<const N: usize> PartiallyInitialized<N> {
    /// The bytes of the buffer, to change them in place.
    fn bytes_mut(&mut self) -> (r: &mut [u8])
        ensures
            r@ == old(self).storage().subrange(0, old(self).filled() as int),
            (*final(self)).filled() == old(self).filled(),
            (*final(self)).storage().subrange(0, old(self).filled() as int) == final(r)@,
    {
        let n = self.initialized.get();
        proof {
            vstd::array::array_len_matches_n(&self.buf);
        }
        let whole: &mut [u8] = &mut self.buf;
        let (front, _) = whole.split_at_mut(n);
        front
    }

    /// Grows the buffer to `new_len` bytes with zeros, if it is shorter.
    fn grow_zeroed(&mut self, new_len: usize)
        requires
            new_len <= N,
        ensures
            (*final(self)).bytes() == spec_grow(old(self).bytes(), new_len as nat, 0),
    {
        let n = self.initialized.get();
        proof {
            vstd::array::array_len_matches_n(&self.buf);
        }
        if new_len > n {
            let ghost before = self.buf@;
            fill_array(&mut self.buf, n, new_len, 0);
            self.initialized = Filled::new(new_len);
            proof {
                vstd::array::array_len_matches_n(&self.buf);
                assert(self.bytes() =~= spec_grow(before.subrange(0, n as int), new_len as nat, 0));
            }
        }
    }

    /// Writes `with` at `offset` within or at the end of the buffer's bytes,
    /// over them and past their end.
    fn write_at(&mut self, offset: usize, with: &[u8])
        requires
            offset <= old(self).bytes().len(),
            offset + with@.len() <= N,
        ensures
            (*final(self)).bytes() == spec_write(old(self).bytes(), offset as nat, with@),
    {
        let n = self.initialized.get();
        proof {
            vstd::array::array_len_matches_n(&self.buf);
        }
        let ghost before = self.bytes();
        write_array(&mut self.buf, offset, with);
        let end = offset + with.len();
        if end > n {
            self.initialized = Filled::new(end);
        }
        proof {
            vstd::array::array_len_matches_n(&self.buf);
            assert(self.bytes() =~= spec_write(before, offset as nat, with@));
        }
    }

    /// A writer that starts at the beginning of the buffer.
    pub fn writer(&mut self) -> (w: PartiallyInitializedWriter<'_, N>)
        ensures
            *w.partially_initialized == *old(self),
            *final(w.partially_initialized) == *final(self),
            w.position == 0,
    {
        PartiallyInitializedWriter { partially_initialized: self, position: 0 }
    }
}

/// Writes into a [`PartiallyInitialized`] from a position within its bytes
/// on, overwriting them and growing the buffer, up to the end of its block.
pub struct PartiallyInitializedWriter<'a, const N: usize> {
    pub partially_initialized: &'a mut PartiallyInitialized<N>,
    pub position: usize,
}

impl<'a, const N: usize> BufWriter for PartiallyInitializedWriter<'a, N> {
    /// The bytes of the buffer from the position on.
    open spec fn ahead(&self) -> Seq<u8> {
        skip_or_empty(self.partially_initialized.bytes(), self.position as nat)
    }

    /// The rest of the block from the position on.
    open spec fn room(&self) -> Option<nat> {
        Some((N - self.position) as nat)
    }

    /// The writer stands within the bytes of the buffer or at their end, and
    /// can count `n` bytes further.
    open spec fn within_reach(&self, n: nat) -> bool {
        &&& self.position <= self.partially_initialized.bytes().len()
        &&& self.position + n <= usize::MAX
    }

    open spec fn keeps_behind() -> bool {
        true
    }

    /// The bytes of the buffer before the position.
    open spec fn behind(&self) -> Seq<u8> {
        self.partially_initialized.bytes().take(self.position as int)
    }

    proof fn lemma_reach(&self, a: nat, b: nat) {
        self.partially_initialized.lemma_filled_fits();
    }

    /// How many bytes of the buffer lie after the position.
    open spec fn spec_remaining(&self) -> nat {
        (self.partially_initialized.bytes().len() - self.position) as nat
    }

    /// The bytes of the buffer from the position on, if the position is not at
    /// their end.
    fn chunk_mut(&mut self) -> (r: Option<&mut [u8]>)
        ensures
            old(self).position < old(self).partially_initialized.bytes().len() ==> (r matches Some(
                c,
            ) && c@ == old(self).partially_initialized.bytes().skip(old(self).position as int)
                && final(self).partially_initialized.bytes() == old(
                self,
            ).partially_initialized.bytes().take(old(self).position as int) + final(c)@
                && *final(final(self).partially_initialized) == *final(old(self).partially_initialized)
                && final(self).position == old(self).position),
            old(self).position >= old(self).partially_initialized.bytes().len() ==> r is None
                && *final(self) == *old(self),
    {
        let position = self.position;
        let filled = self.partially_initialized.len();
        if position < filled {
            let bytes = self.partially_initialized.bytes_mut();
            let (_, rest) = bytes.split_at_mut(position);
            proof {
                let t = old(self).partially_initialized.bytes();
                assert((t.take(position as int) + final(rest)@).take(position as int) =~= t.take(
                    position as int,
                ));
            }
            Some(rest)
        } else {
            None
        }
    }

    /// Moves on by `by` bytes, growing the buffer with zeros as far as the new
    /// position if it is shorter, or fails if that is past the end of the
    /// block.
    fn advance(&mut self, by: usize) -> (r: Result<(), crate::io::Full>)
        ensures
            old(self).position + by <= N ==> {
                &&& r is Ok
                &&& final(self).partially_initialized.bytes() == spec_grow(
                    old(self).partially_initialized.bytes(),
                    (old(self).position + by) as nat,
                    0,
                )
                &&& final(self).position == old(self).position + by
            },
            old(self).position + by > N ==> {
                &&& r == Err::<(), crate::io::Full>(
                    crate::io::Full { written: 0, requested: by, remaining: N },
                )
                &&& final(self).partially_initialized.bytes() == old(
                    self,
                ).partially_initialized.bytes()
                &&& final(self).position == old(self).position
            },
            *final(final(self).partially_initialized) == *final(old(self).partially_initialized),
    {
        let position = self.position;
        let already_filled = self.partially_initialized.len() - position;
        if by > already_filled {
            let end = position + by;
            if end <= N {
                self.partially_initialized.grow_zeroed(end);
                self.position = end;
                Ok(())
            } else {
                Err(crate::io::Full { written: 0, requested: by, remaining: N })
            }
        } else {
            self.position = position + by;
            proof {
                let t = old(self).partially_initialized.bytes();
                assert(spec_grow(t, (old(self).position + by) as nat, 0) == t);
                assert(t.take(position + by) =~= t.take(position as int) + t.skip(position as int).take(
                    by as int,
                ));
            }
            Ok(())
        }
    }

    /// How many bytes of the buffer lie after the position.
    fn remaining(&self) -> (n: usize)
        ensures
            n == self.partially_initialized.bytes().len() - self.position,
    {
        self.partially_initialized.len() - self.position
    }

    /// Writes `with` at the position, over the bytes of the buffer and past
    /// their end, and moves on past it; or fails if that does not fit in the
    /// block.
    fn extend(&mut self, with: &[u8]) -> (r: Result<(), crate::io::Full>)
        ensures
            old(self).position + with@.len() <= N ==> {
                &&& r is Ok
                &&& final(self).partially_initialized.bytes() == spec_write(
                    old(self).partially_initialized.bytes(),
                    old(self).position as nat,
                    with@,
                )
                &&& final(self).position == old(self).position + with@.len()
            },
            old(self).position + with@.len() > N ==> {
                &&& r == Err::<(), crate::io::Full>(
                    crate::io::Full { written: 0, requested: with@.len() as usize, remaining: N },
                )
                &&& final(self).partially_initialized.bytes() == old(
                    self,
                ).partially_initialized.bytes()
                &&& final(self).position == old(self).position
            },
            *final(final(self).partially_initialized) == *final(old(self).partially_initialized),
    {
        let position = self.position;
        proof {
            self.partially_initialized.lemma_filled_fits();
        }
        if with.len() <= N - position {
            let ghost before = self.partially_initialized.bytes();
            self.partially_initialized.write_at(position, with);
            self.position = position + with.len();
            proof {
                assert(spec_grow(before, position as nat, 0) == before);
                assert(self.partially_initialized.bytes().take((position + with@.len()) as int)
                    =~= before.take(position as int) + with@);
            }
            Ok(())
        } else {
            Err(crate::io::Full { written: 0, requested: with.len(), remaining: N })
        }
    }
}

} // verus!
