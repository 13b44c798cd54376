//! Reference-counted buffers with a fixed capacity, which an owner can hand
//! out again once nothing refers to them any more.

use vstd::prelude::*;

use std::sync::Arc;

use super::{Buf, BufMut, Full, Length, SizeLimit, spec_grow, spec_overwrite};
use crate::range::{Range, RangeOutOfBounds, as_range, converts, to_range};
use crate::shared::{Handle, owner_is_alone};
use crate::IndexOutOfBounds;

verus! {

/// How a buffer is reference counted.
#[derive(Clone, Copy, Debug, PartialEq, Eq)]
pub enum RefCount {
    /// The buffer is empty and not counted.
    Static,
    /// The buffer has `ref_count` references, and may still be reclaimed by
    /// its owner.
    Counted { ref_count: usize, reclaim: bool },
}

impl RefCount {
    fn of(handle: &Option<Handle>) -> (r: RefCount)
        ensures
            handle is None <==> r is Static,
            r matches RefCount::Counted { ref_count, .. } ==> ref_count >= 1,
            handle matches Some(h) ==> (h.owner is None ==> !r.spec_reclaim()),
    {
        match handle {
            None => RefCount::Static,
            Some(h) => RefCount::Counted { ref_count: h.users(), reclaim: h.is_managed() },
        }
    }

    /// Whether the buffer is counted and its owner can still reclaim it.
    pub open spec fn spec_reclaim(&self) -> bool {
        match *self {
            RefCount::Static => false,
            RefCount::Counted { reclaim, .. } => reclaim,
        }
    }

    /// The number of references, if counted.
    pub fn ref_count(&self) -> (r: Option<usize>)
        ensures
            r == match *self {
                RefCount::Static => None,
                RefCount::Counted { ref_count, .. } => Some(ref_count),
            },
    {
        match self {
            RefCount::Static => None,
            RefCount::Counted { ref_count, .. } => Some(*ref_count),
        }
    }

    /// Whether the owner of the buffer can still reclaim it.
    pub fn can_be_reclaimed(&self) -> (r: bool)
        ensures
            r == match *self {
                RefCount::Static => false,
                RefCount::Counted { reclaim, .. } => reclaim,
            },
    {
        match self {
            RefCount::Static => false,
            RefCount::Counted { reclaim, .. } => *reclaim,
        }
    }

    /// Whether the buffer is not reference counted.
    pub fn is_static(&self) -> (r: bool)
        ensures
            r == (*self is Static),
    {
        match self {
            RefCount::Static => true,
            _ => false,
        }
    }
}

/// A handle through which the owner of a buffer can get it back once nothing
/// else refers to it.
pub struct Reclaim {
    owner: Option<Arc<()>>,
    capacity: usize,
    id: Ghost<int>,
}

impl Reclaim {
    /// The capacity of the buffers this handle reclaims.
    pub closed spec fn spec_capacity(&self) -> usize {
        self.capacity
    }

    /// Which buffer this handle reclaims: the one with the same identity.
    pub closed spec fn spec_id(&self) -> int {
        self.id@
    }

    #[verifier::type_invariant]
    closed spec fn inv(&self) -> bool {
        self.owner is None <==> self.capacity == 0
    }

    /// Gets the buffer back, empty, if nothing else refers to it.
    pub fn try_reclaim(&self) -> (r: Option<ArcBufMut>)
        ensures
            r matches Some(b) ==> b.bytes() == Seq::<u8>::empty() && b.spec_capacity()
                == self.spec_capacity() && b.spec_id() == self.spec_id() && (self.spec_capacity()
                > 0 ==> b.spec_reclaimable()),
            self.spec_capacity() == 0 ==> r is Some,
    {
        proof {
            use_type_invariant(self);
        }
        match &self.owner {
            None => Some(ArcBufMut::new_as(0, self.id)),
            Some(owner) => {
                if owner_is_alone(owner) {
                    Some(
                        ArcBufMut {
                            handle: Some(Handle::new(owner)),
                            data: Vec::with_capacity(self.capacity),
                            capacity: self.capacity,
                            id: self.id,
                        },
                    )
                } else {
                    None
                }
            },
        }
    }

    /// Whether nothing else refers to the buffer.
    pub fn can_reclaim(&self) -> (r: bool)
        ensures
            self.spec_capacity() == 0 ==> r,
    {
        proof {
            use_type_invariant(self);
        }
        match &self.owner {
            None => true,
            Some(owner) => owner_is_alone(owner),
        }
    }

    /// How the buffer is reference counted, from the owner's side.
    pub fn ref_count(&self) -> (r: RefCount)
        ensures
            self.spec_capacity() == 0 <==> r is Static,
            self.spec_capacity() > 0 ==> r.spec_reclaim(),
    {
        proof {
            use_type_invariant(self);
        }
        match &self.owner {
            None => RefCount::Static,
            Some(owner) => {
                let n = crate::shared::strong_count(owner);
                RefCount::Counted { ref_count: n - 1, reclaim: true }
            },
        }
    }
}

/// A shared, read-only buffer.
pub struct ArcBuf {
    handle: Option<Handle>,
    data: Arc<Vec<u8>>,
    start: usize,
    end: usize,
}

impl ArcBuf {
    #[verifier::type_invariant]
    closed spec fn inv(&self) -> bool {
        &&& self.start <= self.end <= self.data@.len()
        &&& self.handle is None ==> self.start == self.end
    }

    /// Whether an owner handed out the buffer, so that it may reclaim it.
    pub closed spec fn spec_reclaimable(&self) -> bool {
        self.handle matches Some(h) && h.owner is Some
    }

    /// An empty buffer, which is not reference counted.
    pub fn new() -> (b: Self)
        ensures
            b.bytes() == Seq::<u8>::empty(),
    {
        let b = ArcBuf { handle: None, data: Arc::new(Vec::new()), start: 0, end: 0 };
        assert(b.bytes() =~= Seq::<u8>::empty());
        b
    }

    /// How this buffer is reference counted. Empty buffers are not. A
    /// counted buffer has at least the one reference that is `self`, and one
    /// that was never handed out by an owner can't be reclaimed.
    pub fn ref_count(&self) -> (r: RefCount)
        ensures
            self.bytes().len() == 0 <==> r is Static,
            r matches RefCount::Counted { ref_count, .. } ==> ref_count >= 1,
            !self.spec_reclaimable() ==> !r.spec_reclaim(),
    {
        proof {
            use_type_invariant(self);
        }
        if self.start == self.end {
            RefCount::Static
        } else {
            RefCount::of(&self.handle)
        }
    }

    /// A view of a portion of the buffer, sharing the bytes with it.
    pub fn view<R: Into<Range>>(&self, range: R) -> (r: Result<ArcBuf, RangeOutOfBounds>)
        requires
            converts::<R>(),
            as_range(range).fits_in(0),
        ensures
            match as_range(range).spec_slice_bounds(self.bytes().len()) {
                Some((s, e)) => r matches Ok(v) && v.bytes() == self.bytes().subrange(s, e),
                None => r == Err::<ArcBuf, _>(
                    RangeOutOfBounds {
                        required: as_range(range),
                        bounds: (0, self.bytes().len() as usize),
                    },
                ),
            },
    {
        proof {
            use_type_invariant(self);
        }
        let range = to_range(range);
        let len = self.end - self.start;
        match range.indices_checked_in(0, len) {
            Err(e) => Err(e),
            Ok((start, end)) => {
                if start == end {
                    let v = ArcBuf::new();
                    assert(v.bytes() =~= self.bytes().subrange(start as int, end as int));
                    Ok(v)
                } else {
                    let handle = match &self.handle {
                        Some(h) => Some(h.share()),
                        None => None,
                    };
                    let v = ArcBuf {
                        handle,
                        data: self.data.clone(),
                        start: self.start + start,
                        end: self.start + end,
                    };
                    assert(v.bytes() =~= self.bytes().subrange(start as int, end as int));
                    Ok(v)
                }
            },
        }
    }

    /// Another reference to the same bytes.
    pub fn share(&self) -> (r: ArcBuf)
        ensures
            r.bytes() == self.bytes(),
    {
        proof {
            use_type_invariant(self);
        }
        let handle = match &self.handle {
            Some(h) => Some(h.share()),
            None => None,
        };
        ArcBuf { handle, data: self.data.clone(), start: self.start, end: self.end }
    }
}

impl Clone for ArcBuf {
    fn clone(&self) -> (r: Self)
        ensures
            r.bytes() == self.bytes(),
    {
        self.share()
    }
}

impl Default for ArcBuf {
    fn default() -> (r: Self)
        ensures
            r.bytes() == Seq::<u8>::empty(),
    {
        ArcBuf::new()
    }
}

impl Length for ArcBuf {
    closed spec fn length(&self) -> nat {
        self.data@.subrange(self.start as int, self.end as int).len()
    }

    fn len(&self) -> (n: usize) {
        proof {
            use_type_invariant(self);
        }
        self.end - self.start
    }
}

impl Buf for ArcBuf {
    closed spec fn bytes(&self) -> Seq<u8> {
        self.data@.subrange(self.start as int, self.end as int)
    }

    proof fn lemma_length(&self) {
    }

    fn chunk_at(&self, offset: usize) -> (c: &[u8]) {
        proof {
            use_type_invariant(self);
        }
        let c = vstd::slice::slice_subrange(self.data.as_slice(), self.start + offset, self.end);
        assert(c@ =~= self.bytes().subrange(offset as int, offset + c@.len()));
        c
    }
}

/// A buffer with a fixed capacity that can be written to, and then frozen
/// into an [`ArcBuf`].
pub struct ArcBufMut {
    handle: Option<Handle>,
    data: Vec<u8>,
    capacity: usize,
    id: Ghost<int>,
}

impl ArcBufMut {
    #[verifier::type_invariant]
    closed spec fn inv(&self) -> bool {
        &&& self.data@.len() <= self.capacity
        &&& self.handle is None <==> self.capacity == 0
    }

    /// The capacity of the buffer.
    pub closed spec fn spec_capacity(&self) -> usize {
        self.capacity
    }

    /// Which buffer this is: the handle that reclaims it, and the parts split
    /// off it, have the same identity.
    pub closed spec fn spec_id(&self) -> int {
        self.id@
    }

    /// Whether an owner handed out the buffer, so that it may reclaim it.
    pub closed spec fn spec_reclaimable(&self) -> bool {
        self.handle matches Some(h) && h.owner is Some
    }

    /// A buffer that can hold `capacity` bytes. A buffer of capacity 0 is not
    /// reference counted; another one is counted, and no owner can reclaim
    /// it.
    pub fn new(capacity: usize) -> (b: Self)
        ensures
            b.bytes() == Seq::<u8>::empty(),
            b.spec_capacity() == capacity,
            b.capacity_bound() == Some(capacity as nat),
            !b.spec_reclaimable(),
    {
        Self::new_as(capacity, Ghost(0))
    }

    /// A buffer that can hold `capacity` bytes, with identity `id`, which no
    /// owner can reclaim.
    pub(crate) fn new_as(capacity: usize, id: Ghost<int>) -> (b: Self)
        ensures
            b.bytes() == Seq::<u8>::empty(),
            b.spec_capacity() == capacity,
            b.capacity_bound() == Some(capacity as nat),
            !b.spec_reclaimable(),
            b.spec_id() == id@,
    {
        let handle = if capacity == 0 {
            None
        } else {
            Some(Handle::unowned())
        };
        ArcBufMut { handle, data: Vec::with_capacity(capacity), capacity, id }
    }

    /// A buffer that can hold `capacity` bytes, and the handle through which
    /// it can be reclaimed once nothing refers to it any more.
    pub fn new_reclaimable(capacity: usize) -> (r: (Self, Reclaim))
        ensures
            r.0.bytes() == Seq::<u8>::empty(),
            r.0.spec_capacity() == capacity,
            r.1.spec_capacity() == capacity,
            r.0.spec_id() == r.1.spec_id(),
            capacity > 0 ==> r.0.spec_reclaimable(),
    {
        Self::new_reclaimable_as(capacity, Ghost(0))
    }

    /// Like [`ArcBufMut::new_reclaimable`], with identity `id` for both.
    pub(crate) fn new_reclaimable_as(capacity: usize, id: Ghost<int>) -> (r: (Self, Reclaim))
        ensures
            r.0.bytes() == Seq::<u8>::empty(),
            r.0.spec_capacity() == capacity,
            r.1.spec_capacity() == capacity,
            r.0.spec_id() == id@,
            r.1.spec_id() == id@,
            capacity > 0 ==> r.0.spec_reclaimable(),
    {
        if capacity == 0 {
            (ArcBufMut::new_as(0, id), Reclaim { owner: None, capacity: 0, id })
        } else {
            let owner = Arc::new(());
            let handle = Handle::new(&owner);
            (
                ArcBufMut { handle: Some(handle), data: Vec::with_capacity(capacity), capacity, id },
                Reclaim { owner: Some(owner), capacity, id },
            )
        }
    }

    /// The number of bytes the buffer can hold.
    pub fn capacity(&self) -> (c: usize)
        ensures
            c == self.spec_capacity(),
    {
        self.capacity
    }

    /// A buffer holding a copy of `from`, with just the capacity for it.
    pub fn copy_from_slice(from: &[u8]) -> (b: Self)
        ensures
            b.bytes() == from@,
            b.spec_capacity() == from@.len(),
    {
        let mut this = Self::new(from.len());
        let r = BufMut::extend(&mut this, from);
        assert(Seq::<u8>::empty() + from@ =~= from@);
        this
    }

    /// Turns this buffer into a shared, read-only one. An empty buffer turns
    /// into a buffer that is not reference counted.
    pub fn freeze(self) -> (b: ArcBuf)
        ensures
            b.bytes() == self.bytes(),
            b.bytes().len() > 0 ==> b.spec_reclaimable() == self.spec_reclaimable(),
    {
        proof {
            use_type_invariant(&self);
        }
        if self.data.len() == 0 {
            let b = ArcBuf::new();
            assert(b.bytes() =~= self.bytes());
            b
        } else {
            let len = self.data.len();
            let b = ArcBuf { handle: self.handle, data: Arc::new(self.data), start: 0, end: len };
            assert(b.bytes() =~= self.bytes());
            b
        }
    }

    /// How this buffer is reference counted. Buffers of capacity 0 are not. A
    /// counted buffer has at least the one reference that is `self`, and one
    /// that was never handed out by an owner can't be reclaimed.
    pub fn ref_count(&self) -> (r: RefCount)
        ensures
            self.spec_capacity() == 0 <==> r is Static,
            r matches RefCount::Counted { ref_count, .. } ==> ref_count >= 1,
            !self.spec_reclaimable() ==> !r.spec_reclaim(),
    {
        proof {
            use_type_invariant(self);
        }
        RefCount::of(&self.handle)
    }

    /// Empties the buffer.
    pub fn clear(&mut self)
        ensures
            (*final(self)).bytes() == Seq::<u8>::empty(),
            (*final(self)).spec_capacity() == old(self).spec_capacity(),
            (*final(self)).spec_id() == old(self).spec_id(),
            (*final(self)).spec_reclaimable() == old(self).spec_reclaimable(),
    {
        proof {
            use_type_invariant(&*self);
        }
        let mut data: Vec<u8> = Vec::new();
        std::mem::swap(&mut self.data, &mut data);
        data.clear();
        self.data = data;
    }

    /// The bytes of the buffer in `range`.
    pub fn view<R: Into<Range>>(&self, range: R) -> (r: Result<&[u8], RangeOutOfBounds>)
        requires
            converts::<R>(),
        ensures
            match as_range(range).spec_slice_bounds(self.bytes().len()) {
                Some((s, e)) => r matches Ok(v) && v@ == self.bytes().subrange(s, e),
                None => r == Err::<&[u8], _>(
                    RangeOutOfBounds {
                        required: as_range(range),
                        bounds: (0, self.bytes().len() as usize),
                    },
                ),
            },
    {
        let range = to_range(range);
        range.slice_get(self.data.as_slice())
    }

    /// Splits the first `at` bytes off this buffer, together with the
    /// capacity for them; `self` keeps the rest.
    pub fn split_at(&mut self, at: usize) -> (r: Result<ArcBufMut, IndexOutOfBounds>)
        ensures
            at <= old(self).bytes().len() ==> (r matches Ok(front) && front.bytes() == old(self).bytes().subrange(0, at as int) && (*final(self)).bytes() == old(self).bytes().subrange(
                at as int,
                old(self).bytes().len() as int,
            )),
            at > old(self).bytes().len() ==> r == Err::<ArcBufMut, _>(
                IndexOutOfBounds { required: at, bounds: (0, old(self).bytes().len() as usize) },
            ) && (*final(self)).bytes() == old(self).bytes(),
    {
        proof {
            use_type_invariant(&*self);
        }
        let initialized = self.data.len();
        if at == 0 {
            let front = ArcBufMut::new(0);
            assert(front.bytes() =~= self.bytes().subrange(0, 0));
            assert(self.bytes() =~= self.bytes().subrange(0, self.bytes().len() as int));
            Ok(front)
        } else if at == initialized {
            let mut front = ArcBufMut::new(0);
            std::mem::swap(self, &mut front);
            assert(front.bytes() =~= front.bytes().subrange(0, at as int));
            assert(self.bytes() =~= front.bytes().subrange(at as int, at as int));
            Ok(front)
        } else if at < initialized {
            let handle = match &self.handle {
                Some(h) => Some(h.share()),
                None => None,
            };
            let mut front_data: Vec<u8> = Vec::new();
            std::mem::swap(&mut self.data, &mut front_data);
            let rest = front_data.split_off(at);
            let front = ArcBufMut { handle, data: front_data, capacity: at, id: self.id };
            self.data = rest;
            self.capacity = self.capacity - at;
            Ok(front)
        } else {
            Err(IndexOutOfBounds { required: at, bounds: (0, initialized) })
        }
    }
}

impl Default for ArcBufMut {
    fn default() -> (r: Self)
        ensures
            r.bytes() == Seq::<u8>::empty(),
            r.spec_capacity() == 0,
    {
        ArcBufMut::new(0)
    }
}

impl Length for ArcBufMut {
    closed spec fn length(&self) -> nat {
        self.data@.len()
    }

    fn len(&self) -> (n: usize) {
        self.data.len()
    }
}

impl Buf for ArcBufMut {
    closed spec fn bytes(&self) -> Seq<u8> {
        self.data@
    }

    proof fn lemma_length(&self) {
    }

    fn chunk_at(&self, offset: usize) -> (c: &[u8]) {
        vstd::slice::slice_subrange(self.data.as_slice(), offset, self.data.len())
    }
}

impl BufMut for ArcBufMut {
    closed spec fn capacity_bound(&self) -> Option<nat> {
        Some(self.capacity as nat)
    }

    fn reserve(&mut self, size: usize) -> (r: Result<(), Full>) {
        proof {
            use_type_invariant(&*self);
        }
        if size <= self.capacity {
            Ok(())
        } else {
            Err(Full { required: size, capacity: self.capacity })
        }
    }

    fn size_limit(&self) -> (l: SizeLimit) {
        SizeLimit::Exact(self.capacity)
    }

    fn grow(&mut self, new_len: usize, value: u8) -> (r: Result<(), Full>) {
        proof {
            use_type_invariant(&*self);
        }
        if new_len <= self.capacity {
            let mut data: Vec<u8> = Vec::new();
            std::mem::swap(&mut self.data, &mut data);
            let r = BufMut::grow(&mut data, new_len, value);
            self.data = data;
            r
        } else {
            Err(Full { required: new_len, capacity: self.capacity })
        }
    }

    fn extend(&mut self, with: &[u8]) -> (r: Result<(), Full>) {
        proof {
            use_type_invariant(&*self);
        }
        let len = self.data.len();
        if with.len() <= self.capacity - len {
            let mut data: Vec<u8> = Vec::new();
            std::mem::swap(&mut self.data, &mut data);
            let r = BufMut::extend(&mut data, with);
            self.data = data;
            r
        } else {
            Err(Full { required: len.saturating_add(with.len()), capacity: self.capacity })
        }
    }

    fn overwrite(&mut self, offset: usize, with: &[u8]) {
        proof {
            use_type_invariant(&*self);
        }
        let mut data: Vec<u8> = Vec::new();
        std::mem::swap(&mut self.data, &mut data);
        BufMut::overwrite(&mut data, offset, with);
        self.data = data;
    }
}

} // verus!
