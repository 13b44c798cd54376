//! Writing into a vector from a position on.

use vstd::prelude::*;

use super::BufMut;
use crate::copy::spec_write;
use super::spec_grow;
use crate::io::{BufWriter, Full};
use crate::io::write::skip_or_empty;

verus! {

/// Writes into a vector from a position on, overwriting what is there and
/// growing the vector past its end.
#[derive(Debug)]
pub struct VecWriter<'a> {
    pub vec: &'a mut Vec<u8>,
    pub position: usize,
}

impl<'a> VecWriter<'a> {
    /// The vector that is written to.
    pub open spec fn target(&self) -> &'a mut Vec<u8> {
        self.vec
    }

    /// Where in the vector the next byte is written.
    pub open spec fn position(&self) -> nat {
        self.position as nat
    }

    /// A writer that starts at the beginning of `vec`.
    pub fn new(vec: &'a mut Vec<u8>) -> (r: Self)
        ensures
            r.target()@ == old(vec)@,
            final(r.target())@ == final(vec)@,
            r.position() == 0,
    {
        VecWriter { vec, position: 0 }
    }
}

impl<'a> BufWriter for VecWriter<'a> {
    /// The bytes of the vector from the position on.
    open spec fn ahead(&self) -> Seq<u8> {
        skip_or_empty(self.target()@, self.position())
    }

    /// A vector grows without end.
    open spec fn room(&self) -> Option<nat> {
        None
    }

    /// The writer stands within the vector or at its end, and can count `n`
    /// bytes further.
    open spec fn within_reach(&self, n: nat) -> bool {
        &&& self.position() <= self.target()@.len()
        &&& self.position() + n <= usize::MAX
    }

    open spec fn keeps_behind() -> bool {
        true
    }

    /// The bytes of the vector before the position.
    open spec fn behind(&self) -> Seq<u8> {
        self.target()@.take(self.position() as int)
    }

    proof fn lemma_reach(&self, a: nat, b: nat) {
    }

    /// The length of the vector.
    open spec fn spec_remaining(&self) -> nat {
        self.target()@.len()
    }

    /// The part of the vector from the position on, if the position is not at
    /// its end.
    fn chunk_mut(&mut self) -> (r: Option<&mut [u8]>)
        ensures
            old(self).position() < old(self).target()@.len() ==> (r matches Some(c) && c@
                == old(self).target()@.skip(old(self).position() as int) && final(self).target()@
                == old(self).target()@.take(old(self).position() as int) + final(c)@
                && final(final(self).target())@ == final(old(self).target())@
                && final(self).position() == old(self).position()),
            old(self).position() >= old(self).target()@.len() ==> r is None && *final(self) == *old(
                self,
            ),
    {
        if self.position < self.vec.len() {
            let position = self.position;
            let whole = self.vec.as_mut_slice();
            let (_, rest) = whole.split_at_mut(position);
            proof {
                assert((old(self).target()@.take(position as int) + final(rest)@).take(position as int)
                    =~= old(self).target()@.take(position as int));
            }
            Some(rest)
        } else {
            None
        }
    }

    /// Moves on by `by` bytes, growing the vector with zeros as far as the
    /// new position if it is shorter.
    fn advance(&mut self, by: usize) -> (r: Result<(), Full>)
        ensures
            r is Ok,
            final(self).target()@ == crate::buf::spec_grow(
                old(self).target()@,
                (old(self).position() + by) as nat,
                0,
            ),
            final(final(self).target())@ == final(old(self).target())@,
            final(self).position() == old(self).position() + by,
            final(self).position() <= final(self).target()@.len(),
    {
        let end = self.position + by;
        let _ = BufMut::grow(&mut *self.vec, end, 0);
        self.position = end;
        proof {
            let t = old(self).target()@;
            let p = old(self).position() as int;
            if by <= skip_or_empty(t, p as nat).len() {
                assert(self.vec@ == t);
                assert(t.take(p + by) =~= t.take(p) + t.skip(p).take(by as int));
            }
        }
        Ok(())
    }

    /// The length of the vector.
    fn remaining(&self) -> (n: usize)
        ensures
            n == self.target()@.len(),
    {
        self.vec.len()
    }

    /// Writes `with` at the position, over what is there and past the end of
    /// the vector, and moves on past it.
    fn extend(&mut self, with: &[u8]) -> (r: Result<(), Full>)
        ensures
            r is Ok,
            final(self).target()@ == spec_write(
                old(self).target()@,
                old(self).position(),
                with@,
            ),
            final(final(self).target())@ == final(old(self).target())@,
            final(self).position() == old(self).position() + with@.len(),
            final(self).position() <= final(self).target()@.len(),
    {
        let position = self.position;
        let len = self.vec.len();
        let n_overwrite = if len - position <= with.len() {
            len - position
        } else {
            with.len()
        };
        let (front, back) = with.split_at(n_overwrite);
        let ghost before = self.vec@;
        BufMut::overwrite(&mut *self.vec, position, front);
        let _ = BufMut::extend(&mut *self.vec, back);
        self.position = position + with.len();
        proof {
            assert(front@ + back@ =~= with@);
            assert(self.vec@ =~= spec_write(before, position as nat, with@));
            assert(spec_grow(before, position as nat, 0) == before);
            assert(self.vec@.take((position + with@.len()) as int) =~= before.take(position as int)
                + with@);
        }
        Ok(())
    }
}

} // verus!
