//! Buffers of any backing behind one type each: [`Bytes`] to read,
//! [`BytesMut`] to write.

use vstd::prelude::*;

use crate::buf::arc_buf::{ArcBuf, ArcBufMut};
use crate::buf::{Buf, BufMut, Empty, Full, Length, SizeLimit};
use crate::range::{Range, RangeOutOfBounds, as_range, converts, to_range};

verus! {

/// A buffer of bytes that live as long as the program.
#[derive(Clone, Copy)]
pub struct Static(pub &'static [u8]);

impl Length for Static {
    open spec fn length(&self) -> nat {
        self.0@.len()
    }

    fn len(&self) -> (n: usize) {
        self.0.len()
    }
}

impl Buf for Static {
    open spec fn bytes(&self) -> Seq<u8> {
        self.0@
    }

    proof fn lemma_length(&self) {
    }

    fn chunk_at(&self, offset: usize) -> (c: &[u8]) {
        vstd::slice::slice_subrange(self.0, offset, self.0.len())
    }
}

/// What a [`Bytes`] holds its bytes in.
enum BytesInner {
    Empty(Empty),
    Static(Static),
    Shared(ArcBuf),
}

/// Bytes to read, held in any of the buffers of this crate.
pub struct Bytes {
    inner: BytesInner,
}

impl Bytes {
    /// Creates an empty [`Bytes`]. This doesn't allocate.
    pub fn new() -> (r: Self)
        ensures
            r.bytes() == Seq::<u8>::empty(),
    {
        Bytes { inner: BytesInner::Empty(Empty) }
    }

    /// The bytes of `value`, which live as long as the program.
    pub fn from_static(value: &'static [u8]) -> (r: Self)
        ensures
            r.bytes() == value@,
    {
        Bytes { inner: BytesInner::Static(Static(value)) }
    }

    /// The bytes of a shared buffer.
    pub fn from_shared(value: ArcBuf) -> (r: Self)
        ensures
            r.bytes() == value.bytes(),
    {
        Bytes { inner: BytesInner::Shared(value) }
    }

    /// A view of the bytes in `range`.
    pub fn view<R: Into<Range>>(&self, range: R) -> (r: Result<Bytes, RangeOutOfBounds>)
        requires
            converts::<R>(),
        ensures
            match as_range(range).spec_slice_bounds(self.bytes().len()) {
                Some((s, e)) => r matches Ok(v) && v.bytes() == self.bytes().subrange(s, e),
                None => r == Err::<Bytes, _>(
                    RangeOutOfBounds {
                        required: as_range(range),
                        bounds: (0, self.bytes().len() as usize),
                    },
                ),
            },
    {
        let range = to_range(range);
        match &self.inner {
            BytesInner::Empty(e) => match e.view(&range) {
                Ok(_) => {
                    assert(Seq::<u8>::empty().subrange(0, 0) =~= Seq::<u8>::empty());
                    Ok(Bytes::new())
                },
                Err(e) => Err(e),
            },
            BytesInner::Static(s) => match range.slice_get(s.0) {
                Ok(slice) => {
                    proof {
                        vstd::slice::axiom_spec_len(slice);
                    }
                    Ok(Bytes { inner: BytesInner::Static(Static(slice)) })
                },
                Err(e) => Err(e),
            },
            BytesInner::Shared(b) => match b.view(&range) {
                Ok(v) => Ok(Bytes { inner: BytesInner::Shared(v) }),
                Err(e) => Err(e),
            },
        }
    }
}

impl Clone for Bytes {
    fn clone(&self) -> (r: Self)
        ensures
            r.bytes() == self.bytes(),
    {
        match &self.inner {
            BytesInner::Empty(_) => Bytes::new(),
            BytesInner::Static(s) => Bytes { inner: BytesInner::Static(*s) },
            BytesInner::Shared(b) => Bytes { inner: BytesInner::Shared(b.share()) },
        }
    }
}

impl Default for Bytes {
    fn default() -> (r: Self)
        ensures
            r.bytes() == Seq::<u8>::empty(),
    {
        Bytes::new()
    }
}

impl Length for Bytes {
    closed spec fn length(&self) -> nat {
        match self.inner {
            BytesInner::Empty(e) => e.length(),
            BytesInner::Static(s) => s.length(),
            BytesInner::Shared(b) => b.length(),
        }
    }

    fn len(&self) -> (n: usize) {
        match &self.inner {
            BytesInner::Empty(e) => e.len(),
            BytesInner::Static(s) => s.len(),
            BytesInner::Shared(b) => b.len(),
        }
    }
}

impl Buf for Bytes {
    closed spec fn bytes(&self) -> Seq<u8> {
        match self.inner {
            BytesInner::Empty(e) => e.bytes(),
            BytesInner::Static(s) => s.bytes(),
            BytesInner::Shared(b) => b.bytes(),
        }
    }

    proof fn lemma_length(&self) {
        match self.inner {
            BytesInner::Empty(e) => e.lemma_length(),
            BytesInner::Static(s) => s.lemma_length(),
            BytesInner::Shared(b) => b.lemma_length(),
        }
    }

    fn chunk_at(&self, offset: usize) -> (c: &[u8]) {
        match &self.inner {
            BytesInner::Empty(e) => e.chunk_at(offset),
            BytesInner::Static(s) => s.chunk_at(offset),
            BytesInner::Shared(b) => b.chunk_at(offset),
        }
    }
}

/// What a [`BytesMut`] holds its bytes in.
enum BytesMutInner {
    Empty(Empty),
    Shared(ArcBufMut),
}

/// A buffer to write, held in any of the growable buffers of this crate.
pub struct BytesMut {
    inner: BytesMutInner,
}

impl BytesMut {
    /// Creates an empty buffer that can't grow. This doesn't allocate.
    pub fn new() -> (r: Self)
        ensures
            r.bytes() == Seq::<u8>::empty(),
            r.capacity_bound() == Some(0nat),
    {
        BytesMut { inner: BytesMutInner::Empty(Empty) }
    }

    /// Creates an empty buffer that can grow to `capacity` bytes.
    pub fn with_capacity(capacity: usize) -> (r: Self)
        ensures
            r.bytes() == Seq::<u8>::empty(),
            r.capacity_bound() == Some(capacity as nat),
    {
        BytesMut { inner: BytesMutInner::Shared(ArcBufMut::new(capacity)) }
    }
}

impl Default for BytesMut {
    fn default() -> (r: Self)
        ensures
            r.bytes() == Seq::<u8>::empty(),
            r.capacity_bound() == Some(0nat),
    {
        BytesMut::new()
    }
}

impl Length for BytesMut {
    closed spec fn length(&self) -> nat {
        match self.inner {
            BytesMutInner::Empty(e) => e.length(),
            BytesMutInner::Shared(b) => b.length(),
        }
    }

    fn len(&self) -> (n: usize) {
        match &self.inner {
            BytesMutInner::Empty(e) => e.len(),
            BytesMutInner::Shared(b) => b.len(),
        }
    }
}

impl Buf for BytesMut {
    closed spec fn bytes(&self) -> Seq<u8> {
        match self.inner {
            BytesMutInner::Empty(e) => e.bytes(),
            BytesMutInner::Shared(b) => b.bytes(),
        }
    }

    proof fn lemma_length(&self) {
        match self.inner {
            BytesMutInner::Empty(e) => e.lemma_length(),
            BytesMutInner::Shared(b) => b.lemma_length(),
        }
    }

    fn chunk_at(&self, offset: usize) -> (c: &[u8]) {
        match &self.inner {
            BytesMutInner::Empty(e) => e.chunk_at(offset),
            BytesMutInner::Shared(b) => b.chunk_at(offset),
        }
    }
}

impl BufMut for BytesMut {
    closed spec fn capacity_bound(&self) -> Option<nat> {
        match self.inner {
            BytesMutInner::Empty(e) => e.capacity_bound(),
            BytesMutInner::Shared(b) => b.capacity_bound(),
        }
    }

    fn reserve(&mut self, size: usize) -> (r: Result<(), Full>) {
        match &mut self.inner {
            BytesMutInner::Empty(e) => e.reserve(size),
            BytesMutInner::Shared(b) => b.reserve(size),
        }
    }

    fn size_limit(&self) -> (l: SizeLimit) {
        match &self.inner {
            BytesMutInner::Empty(e) => e.size_limit(),
            BytesMutInner::Shared(b) => b.size_limit(),
        }
    }

    fn grow(&mut self, new_len: usize, value: u8) -> (r: Result<(), Full>) {
        match &mut self.inner {
            BytesMutInner::Empty(e) => e.grow(new_len, value),
            BytesMutInner::Shared(b) => b.grow(new_len, value),
        }
    }

    fn extend(&mut self, with: &[u8]) -> (r: Result<(), Full>) {
        match &mut self.inner {
            BytesMutInner::Empty(e) => e.extend(with),
            BytesMutInner::Shared(b) => b.extend(with),
        }
    }

    fn overwrite(&mut self, offset: usize, with: &[u8]) {
        match &mut self.inner {
            BytesMutInner::Empty(e) => e.overwrite(offset, with),
            BytesMutInner::Shared(b) => b.overwrite(offset, with),
        }
    }
}

} // verus!
