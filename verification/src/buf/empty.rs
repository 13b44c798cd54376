//! The empty buffer.

use vstd::prelude::*;

use super::{Buf, BufMut, Full, Length, SizeLimit, spec_grow};
use crate::range::{Range, RangeOutOfBounds, as_range, converts, to_range};

verus! {

/// An empty buffer. It can't grow.
#[derive(Debug, Clone, Copy, Default, PartialEq, Eq)]
pub struct Empty;

impl Length for Empty {
    open spec fn length(&self) -> nat {
        0
    }

    fn len(&self) -> (n: usize) {
        0
    }

    fn is_empty(&self) -> (b: bool) {
        true
    }
}

impl Buf for Empty {
    open spec fn bytes(&self) -> Seq<u8> {
        Seq::empty()
    }

    proof fn lemma_length(&self) {
    }

    fn chunk_at(&self, offset: usize) -> (c: &[u8]) {
        // `offset < 0` can't hold
        vstd::pervasive::unreached()
    }
}

impl BufMut for Empty {
    open spec fn capacity_bound(&self) -> Option<nat> {
        Some(0)
    }


    fn reserve(&mut self, size: usize) -> (r: Result<(), Full>) {
        if size == 0 {
            Ok(())
        } else {
            Err(Full { required: size, capacity: 0 })
        }
    }

    fn size_limit(&self) -> (l: SizeLimit) {
        SizeLimit::Exact(0)
    }

    fn grow(&mut self, new_len: usize, value: u8) -> (r: Result<(), Full>) {
        let r = self.reserve(new_len);
        proof {
            assert(spec_grow(Seq::<u8>::empty(), 0, value) =~= Seq::<u8>::empty());
        }
        r
    }

    fn extend(&mut self, with: &[u8]) -> (r: Result<(), Full>) {
        let r = self.reserve(with.len());
        proof {
            assert(Seq::<u8>::empty() + with@ =~= with@);
            if with@.len() == 0 {
                assert(with@ =~= Seq::<u8>::empty());
            }
        }
        r
    }

    fn overwrite(&mut self, offset: usize, with: &[u8]) {
        assert(super::spec_overwrite(Seq::<u8>::empty(), offset as int, with@) =~= Seq::<u8>::empty());
    }
}

impl Empty {
    /// A view of the empty buffer: fails unless the range selects nothing at
    /// position 0.
    pub fn view<R: Into<Range>>(&self, range: R) -> (r: Result<Empty, RangeOutOfBounds>)
        requires
            converts::<R>(),
            as_range(range).fits_in(0),
        ensures
            as_range(range).spec_in_bounds(0, 0) <==> r is Ok,
            r matches Err(e) ==> e == (RangeOutOfBounds { required: as_range(range), bounds: (0, 0) }),
    {
        let range = to_range(range);
        match range.indices_checked_in(0, 0) {
            Ok(_) => Ok(Empty),
            Err(e) => Err(e),
        }
    }

    /// Splits the empty buffer at `at`, which must be 0.
    pub fn split_at(self, at: usize) -> (r: Result<(Empty, Empty), crate::IndexOutOfBounds>)
        ensures
            at == 0 <==> r is Ok,
            r matches Err(e) ==> e == (crate::IndexOutOfBounds { required: at, bounds: (0, 0) }),
    {
        if at == 0 {
            Ok((Empty, Empty))
        } else {
            Err(crate::IndexOutOfBounds { required: at, bounds: (0, 0) })
        }
    }
}

} // verus!
