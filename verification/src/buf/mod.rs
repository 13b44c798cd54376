//! Buffers of bytes: the traits [`Length`], [`Buf`] and [`BufMut`], and their
//! implementations for slices, arrays and vectors.

use vstd::prelude::*;

use crate::range::{Range, RangeOutOfBounds, as_range, converts, to_range};

pub mod arc_buf;
pub mod array_buf;
pub mod chunks;
pub mod copy;
pub mod empty;
mod partially_initialized;
pub mod rope;
mod slab;
pub mod vec_writer;

pub use self::empty::Empty;
pub use self::partially_initialized::{PartiallyInitialized, PartiallyInitializedWriter, spec_resize};
pub use self::rope::Rope;
pub use self::slab::{Slab, spec_reuse_outcome};
pub use self::vec_writer::VecWriter;

verus! {

/// Something with a length in bytes.
pub trait Length {
    /// The length in bytes.
    spec fn length(&self) -> nat;

    /// Returns the length of this buffer in bytes.
    fn len(&self) -> (n: usize)
        ensures
            n == self.length(),
    ;

    /// Returns whether this buffer is empty (i.e. has length 0).
    fn is_empty(&self) -> (b: bool)
        ensures
            b == (self.length() == 0),
    {
        self.len() == 0
    }
}

/// Read access to a buffer of bytes.
pub trait Buf: Length {
    /// The bytes in the buffer.
    spec fn bytes(&self) -> Seq<u8>;

    /// The length of a buffer is the number of its bytes.
    proof fn lemma_length(&self)
        ensures
            self.length() == self.bytes().len(),
    ;

    /// Returns the longest contiguous run of bytes that the buffer holds in
    /// one piece, starting at `offset`.
    fn chunk_at(&self, offset: usize) -> (c: &[u8])
        requires
            offset < self.bytes().len(),
        ensures
            c@.len() > 0,
            offset + c@.len() <= self.bytes().len(),
            c@ == self.bytes().subrange(offset as int, offset + c@.len()),
    ;

    /// Returns whether this buffer contains bytes for the given range, i.e.
    /// whether the range is contained by `..self.len()`.
    fn contains<R: Into<Range>>(&self, range: R) -> (b: bool)
        requires
            converts::<R>(),
        ensures
            b == (Range { start: None, end: Some(self.length() as usize) }).spec_contains(
                as_range(range),
            ),
    {
        let range = to_range(range);
        let n = self.len();
        let all = Range { start: None, end: Some(n) };
        all.contains_range(&range)
    }
}

/// Operations every [`Buf`] gets.
pub trait BufExt: Buf {
    /// Copies the bytes of the buffer into a new vector.
    fn into_vec(&self) -> (v: Vec<u8>)
        ensures
            v@ == self.bytes(),
    {
        proof {
            self.lemma_length();
        }
        let n = self.len();
        let mut v: Vec<u8> = Vec::with_capacity(n);
        let mut offset: usize = 0;
        while offset < n
            invariant
                n == self.bytes().len(),
                offset <= n,
                v@ == self.bytes().subrange(0, offset as int),
            decreases n - offset,
        {
            let chunk = self.chunk_at(offset);
            let mut i: usize = 0;
            while i < chunk.len()
                invariant
                    n == self.bytes().len(),
                    offset + chunk@.len() <= n,
                    chunk@ == self.bytes().subrange(offset as int, offset + chunk@.len()),
                    i <= chunk@.len(),
                    v@ == self.bytes().subrange(0, offset + i),
                decreases chunk@.len() - i,
            {
                v.push(chunk[i]);
                i += 1;
                assert(v@ =~= self.bytes().subrange(0, offset + i));
            }
            offset += chunk.len();
        }
        assert(v@ =~= self.bytes());
        v
    }
}

impl<B: Buf + ?Sized> BufExt for B {
}

/// How far a [`BufMut`] can grow.
#[derive(Clone, Copy, Debug, Default, PartialEq, Eq)]
pub enum SizeLimit {
    /// The [`BufMut`] can grow, but might get full.
    #[default]
    Unknown,
    /// The [`BufMut`] can grow limitless.
    Unlimited,
    /// The [`BufMut`] can grow to this exact length.
    Exact(usize),
}

impl From<usize> for SizeLimit {
    fn from(value: usize) -> (r: Self) {
        SizeLimit::Exact(value)
    }
}

impl vstd::std_specs::convert::FromSpecImpl<usize> for SizeLimit {
    open spec fn obeys_from_spec() -> bool {
        true
    }

    open spec fn from_spec(v: usize) -> Self {
        SizeLimit::Exact(v)
    }
}

/// The error returned when data doesn't fit into a buffer.
#[derive(Clone, Copy, Debug, PartialEq, Eq)]
pub struct Full {
    pub required: usize,
    pub capacity: usize,
}

/// The bytes of `bytes` from `offset` on replaced by `with`, as far as they
/// reach.
pub open spec fn spec_overwrite(bytes: Seq<u8>, offset: int, with: Seq<u8>) -> Seq<u8> {
    bytes.subrange(0, offset) + with + bytes.subrange(offset + with.len(), bytes.len() as int)
}

/// Error while writing into a buffer.
#[derive(Debug, PartialEq, Eq)]
pub enum WriteError {
    /// The result doesn't fit into the buffer.
    Full { required: Range, buf_length: usize },
    /// The source range doesn't fit into the source.
    SourceRangeOutOfBounds(RangeOutOfBounds),
    /// Source and destination range differ in length.
    LengthMismatch(crate::copy::LengthMismatch),
}

/// `bytes` grown to `new_len` by appending copies of `value`, or unchanged if
/// it is at least that long already.
pub open spec fn spec_grow(bytes: Seq<u8>, new_len: nat, value: u8) -> Seq<u8> {
    if new_len > bytes.len() {
        bytes + Seq::new((new_len - bytes.len()) as nat, |_i: int| value)
    } else {
        bytes
    }
}

/// `a + b`, or `usize::MAX` if that doesn't fit.
pub open spec fn sat_add(a: nat, b: nat) -> usize {
    if a + b > usize::MAX { usize::MAX } else { (a + b) as usize }
}

/// Write access to a buffer of bytes.
pub trait BufMut: Buf {
    /// The largest length the buffer can grow to; `None` if it can grow
    /// without limit.
    spec fn capacity_bound(&self) -> Option<nat>;

    /// Makes sure the buffer can hold `size` bytes.
    fn reserve(&mut self, size: usize) -> (r: Result<(), Full>)
        ensures
            (*final(self)).bytes() == old(self).bytes(),
            (*final(self)).capacity_bound() == old(self).capacity_bound(),
            old(self).capacity_bound() matches Some(c) ==> old(self).bytes().len() <= c,
            match old(self).capacity_bound() {
                None => r is Ok,
                Some(c) => if size <= c {
                    r is Ok
                } else {
                    r == Err::<(), Full>(Full { required: size, capacity: c as usize })
                },
            },
    ;

    /// How far the buffer can grow.
    fn size_limit(&self) -> (l: SizeLimit)
        ensures
            match self.capacity_bound() {
                None => l == SizeLimit::Unlimited,
                Some(c) => l == SizeLimit::Exact(c as usize),
            },
    ;

    /// Grows the buffer to `new_len` bytes, filling the new bytes with
    /// `value`. A buffer that is at least that long already is left as it is.
    fn grow(&mut self, new_len: usize, value: u8) -> (r: Result<(), Full>)
        ensures
            (*final(self)).capacity_bound() == old(self).capacity_bound(),
            match old(self).capacity_bound() {
                Some(c) if new_len > c => {
                    &&& r == Err::<(), Full>(Full { required: new_len, capacity: c as usize })
                    &&& (*final(self)).bytes() == old(self).bytes()
                },
                _ => {
                    &&& r is Ok
                    &&& (*final(self)).bytes() == spec_grow(old(self).bytes(), new_len as nat, value)
                },
            },
    ;

    /// Appends `with` to the buffer.
    fn extend(&mut self, with: &[u8]) -> (r: Result<(), Full>)
        ensures
            (*final(self)).capacity_bound() == old(self).capacity_bound(),
            match old(self).capacity_bound() {
                Some(c) if old(self).bytes().len() + with@.len() > c => {
                    &&& r == Err::<(), Full>(
                        Full {
                            required: sat_add(old(self).bytes().len(), with@.len()),
                            capacity: c as usize,
                        },
                    )
                    &&& (*final(self)).bytes() == old(self).bytes()
                },
                _ => {
                    &&& r is Ok
                    &&& (*final(self)).bytes() == old(self).bytes() + with@
                },
            },
    ;

    /// Overwrites the bytes starting at `offset` with `with`.
    fn overwrite(&mut self, offset: usize, with: &[u8])
        requires
            offset + with@.len() <= old(self).bytes().len(),
        ensures
            (*final(self)).capacity_bound() == old(self).capacity_bound(),
            (*final(self)).bytes() == spec_overwrite(old(self).bytes(), offset as int, with@),
    ;
}

impl Length for [u8] {
    open spec fn length(&self) -> nat {
        vstd::view::View::view(self).len()
    }

    fn len(&self) -> (n: usize) {
        <[u8]>::len(self)
    }
}

impl Buf for [u8] {
    open spec fn bytes(&self) -> Seq<u8> {
        vstd::view::View::view(self)
    }

    proof fn lemma_length(&self) {
    }

    fn chunk_at(&self, offset: usize) -> (c: &[u8]) {
        vstd::slice::slice_subrange(self, offset, <[u8]>::len(self))
    }
}

impl<const N: usize> Length for [u8; N] {
    open spec fn length(&self) -> nat {
        N as nat
    }

    fn len(&self) -> (n: usize) {
        N
    }
}

impl<const N: usize> Buf for [u8; N] {
    open spec fn bytes(&self) -> Seq<u8> {
        vstd::view::View::view(self)
    }

    proof fn lemma_length(&self) {
        vstd::array::array_len_matches_n(self);
    }

    fn chunk_at(&self, offset: usize) -> (c: &[u8]) {
        proof {
            vstd::array::array_len_matches_n(self);
        }
        let s = self.as_slice();
        vstd::slice::slice_subrange(s, offset, N)
    }
}

impl<const N: usize> BufMut for [u8; N] {
    open spec fn capacity_bound(&self) -> Option<nat> {
        Some(N as nat)
    }


    fn reserve(&mut self, size: usize) -> (r: Result<(), Full>) {
        proof {
            vstd::array::array_len_matches_n(self);
        }
        if size > N {
            Err(Full { required: size, capacity: N })
        } else {
            Ok(())
        }
    }

    fn size_limit(&self) -> (l: SizeLimit) {
        SizeLimit::Exact(N)
    }

    fn grow(&mut self, new_len: usize, value: u8) -> (r: Result<(), Full>) {
        proof {
            vstd::array::array_len_matches_n(self);
        }
        if new_len > N {
            Err(Full { required: new_len, capacity: N })
        } else {
            Ok(())
        }
    }

    fn extend(&mut self, with: &[u8]) -> (r: Result<(), Full>) {
        proof {
            vstd::array::array_len_matches_n(self);
        }
        if with.len() > 0 {
            Err(Full { required: N.saturating_add(with.len()), capacity: N })
        } else {
            assert(self@ + with@ =~= self@);
            Ok(())
        }
    }

    fn overwrite(&mut self, offset: usize, with: &[u8]) {
        proof {
            vstd::array::array_len_matches_n(self);
            assert(Buf::bytes(self) == self@);
            assert(offset + with@.len() <= N);
        }
        let ghost old_bytes = self@;
        let mut i: usize = 0;
        assert(with@.subrange(0, 0) =~= Seq::<u8>::empty());
        assert(spec_overwrite(old_bytes, offset as int, Seq::<u8>::empty()) =~= old_bytes);
        while i < with.len()
            invariant
                offset + with@.len() <= N,
                self@.len() == N,
                old_bytes.len() == N,
                i <= with@.len(),
                self@ == spec_overwrite(old_bytes, offset as int, with@.subrange(0, i as int)),
            decreases with@.len() - i,
        {
            self[offset + i] = with[i];
            i += 1;
            assert(self@ =~= spec_overwrite(old_bytes, offset as int, with@.subrange(0, i as int)));
        }
        assert(with@.subrange(0, i as int) =~= with@);
    }
}

impl Length for Vec<u8> {
    open spec fn length(&self) -> nat {
        vstd::view::View::view(self).len()
    }

    fn len(&self) -> (n: usize) {
        Vec::len(self)
    }
}

impl Buf for Vec<u8> {
    open spec fn bytes(&self) -> Seq<u8> {
        vstd::view::View::view(self)
    }

    proof fn lemma_length(&self) {
    }

    fn chunk_at(&self, offset: usize) -> (c: &[u8]) {
        vstd::slice::slice_subrange(self.as_slice(), offset, Vec::len(self))
    }
}

impl BufMut for Vec<u8> {
    open spec fn capacity_bound(&self) -> Option<nat> {
        None
    }


    fn reserve(&mut self, size: usize) -> (r: Result<(), Full>) {
        let len = Vec::len(self);
        if size > len {
            self.reserve(size - len);
        }
        Ok(())
    }

    fn size_limit(&self) -> (l: SizeLimit) {
        SizeLimit::Unlimited
    }

    fn grow(&mut self, new_len: usize, value: u8) -> (r: Result<(), Full>) {
        let ghost old_bytes = vstd::view::View::view(self);
        let len = Vec::len(self);
        if new_len > len {
            let mut i = len;
            while i < new_len
                invariant
                    len == old_bytes.len(),
                    len <= i <= new_len,
                    vstd::view::View::view(self) == old_bytes + Seq::new(
                        (i - len) as nat,
                        |_j: int| value,
                    ),
                decreases new_len - i,
            {
                self.push(value);
                i += 1;
                assert(vstd::view::View::view(self) =~= old_bytes + Seq::new(
                    (i - len) as nat,
                    |_j: int| value,
                ));
            }
            assert(vstd::view::View::view(self) =~= spec_grow(old_bytes, new_len as nat, value));
        } else {
            assert(vstd::view::View::view(self) =~= spec_grow(old_bytes, new_len as nat, value));
        }
        assert(Buf::bytes(self) == spec_grow(old_bytes, new_len as nat, value));
        assert(old_bytes == Buf::bytes(old(self)));
        Ok(())
    }

    fn extend(&mut self, with: &[u8]) -> (r: Result<(), Full>) {
        self.extend_from_slice(with);
        Ok(())
    }

    fn overwrite(&mut self, offset: usize, with: &[u8]) {
        let ghost old_bytes = vstd::view::View::view(self);
        let n = Vec::len(self);
        let mut i: usize = 0;
        while i < with.len()
            invariant
                n == old_bytes.len(),
                offset + with@.len() <= old_bytes.len(),
                vstd::view::View::view(self).len() == old_bytes.len(),
                i <= with@.len(),
                vstd::view::View::view(self) == spec_overwrite(
                    old_bytes,
                    offset as int,
                    with@.subrange(0, i as int),
                ),
            decreases with@.len() - i,
        {
            self.set(offset + i, with[i]);
            i += 1;
            assert(vstd::view::View::view(self) =~= spec_overwrite(
                old_bytes,
                offset as int,
                with@.subrange(0, i as int),
            ));
        }
        assert(with@.subrange(0, i as int) =~= with@);
    }
}

impl<'b, B: Length + ?Sized> Length for &'b B {
    open spec fn length(&self) -> nat {
        (**self).length()
    }

    fn len(&self) -> (n: usize) {
        (**self).len()
    }
}

impl<'b, B: Buf + ?Sized> Buf for &'b B {
    open spec fn bytes(&self) -> Seq<u8> {
        (**self).bytes()
    }

    proof fn lemma_length(&self) {
        (**self).lemma_length();
    }

    fn chunk_at(&self, offset: usize) -> (c: &[u8]) {
        (**self).chunk_at(offset)
    }
}

impl<'b, B: Length + ?Sized> Length for &'b mut B {
    open spec fn length(&self) -> nat {
        (**self).length()
    }

    fn len(&self) -> (n: usize) {
        (**self).len()
    }
}

impl<'b, B: Buf + ?Sized> Buf for &'b mut B {
    open spec fn bytes(&self) -> Seq<u8> {
        (**self).bytes()
    }

    proof fn lemma_length(&self) {
        (**self).lemma_length();
    }

    fn chunk_at(&self, offset: usize) -> (c: &[u8]) {
        (**self).chunk_at(offset)
    }
}

} // verus!
