//! Writers: things that take bytes in order, and remember how far they have
//! got.

use vstd::prelude::*;

use super::Full;

verus! {

/// `bytes` without its first `n`, or nothing if it is shorter.
pub open spec fn skip_or_empty(bytes: Seq<u8>, n: nat) -> Seq<u8> {
    if n <= bytes.len() {
        bytes.skip(n as int)
    } else {
        Seq::empty()
    }
}

/// Whether `n` bytes fit in `room`, where `None` is room without end.
pub open spec fn room_fits(room: Option<nat>, n: nat) -> bool {
    match room {
        Some(r) => n <= r,
        None => true,
    }
}

/// What is left of `room` after `n` bytes.
pub open spec fn room_after(room: Option<nat>, n: nat) -> Option<nat> {
    match room {
        Some(r) => Some((r - n) as nat),
        None => None,
    }
}

/// A writer into memory: it can hand out the part it writes to next, and
/// move on.
///
/// Every writer has bytes ahead of it, which it hands out to be overwritten,
/// and room to move on, which may have no end. Each writer states in its own
/// methods what they leave behind in the memory it writes to.
pub trait BufWriter {
    /// The bytes after the writer's position that it hands out to be
    /// overwritten.
    spec fn ahead(&self) -> Seq<u8>;

    /// How many more bytes the writer can move on, or `None` if it grows
    /// without end.
    spec fn room(&self) -> Option<nat>;

    /// Whether the writer can count `n` bytes further than where it stands.
    spec fn within_reach(&self, n: nat) -> bool;

    /// Whether the writer keeps what it has written behind its position, to
    /// be read as [`BufWriter::behind`]. One that hands it on to memory it
    /// borrows, such as a slice, doesn't.
    spec fn keeps_behind() -> bool;

    /// The bytes before the writer's position, that it has moved past, as far
    /// as it keeps them.
    spec fn behind(&self) -> Seq<u8>;

    /// A writer that can count `a` bytes further can count fewer; and the
    /// bytes ahead of it fit in its room.
    proof fn lemma_reach(&self, a: nat, b: nat)
        requires
            self.within_reach(a),
            b <= a,
        ensures
            self.within_reach(b),
            room_fits(self.room(), self.ahead().len()),
    ;

    /// The bytes ahead of the writer, to overwrite them in place, if there are
    /// any.
    fn chunk_mut(&mut self) -> (r: Option<&mut [u8]>)
        ensures
            r is None <==> old(self).ahead().len() == 0,
            r is None ==> final(self).ahead() == old(self).ahead(),
            r matches Some(c) ==> c@ == old(self).ahead() && final(self).ahead() == final(c)@,
            r is None ==> final(self).room() == old(self).room(),
            r matches Some(c) ==> (final(c)@.len() == c@.len() ==> final(self).room() == old(
                self,
            ).room()),
            forall|n: nat| #[trigger] final(self).within_reach(n) == old(self).within_reach(n),
            Self::keeps_behind() ==> final(self).behind() == old(self).behind(),
    ;

    /// Moves the writer on by `by` bytes, or fails if it has no room for
    /// them.
    fn advance(&mut self, by: usize) -> (r: Result<(), Full>)
        requires
            old(self).within_reach(by as nat),
        ensures
            Self::keeps_behind() && by <= old(self).ahead().len() && room_fits(
                old(self).room(),
                by as nat,
            ) ==> final(self).behind() == old(self).behind() + old(self).ahead().take(by as int),
            Self::keeps_behind() && !room_fits(old(self).room(), by as nat) ==> final(self).behind()
                == old(self).behind(),
            room_fits(old(self).room(), by as nat) ==> {
                &&& r is Ok
                &&& final(self).room() == room_after(old(self).room(), by as nat)
                &&& final(self).ahead() == skip_or_empty(old(self).ahead(), by as nat)
                &&& forall|n: nat|
                    old(self).within_reach((by + n) as nat) ==> #[trigger] final(self).within_reach(n)
            },
            !room_fits(old(self).room(), by as nat) ==> {
                &&& r matches Err(e) && e.written == 0
                &&& final(self).room() == old(self).room()
                &&& final(self).ahead() == old(self).ahead()
                &&& forall|n: nat|
                    #[trigger] final(self).within_reach(n) == old(self).within_reach(n)
            },
    ;

    /// How many bytes the writer reports as left to it.
    spec fn spec_remaining(&self) -> nat;

    /// Returns how many bytes the writer reports as left to it.
    fn remaining(&self) -> (n: usize)
        requires
            self.within_reach(0),
        ensures
            n == self.spec_remaining(),
    ;

    /// Writes `with` and moves the writer on past it, or fails if it has no
    /// room for it.
    fn extend(&mut self, with: &[u8]) -> (r: Result<(), Full>)
        requires
            old(self).within_reach(with@.len()),
        ensures
            Self::keeps_behind() && room_fits(old(self).room(), with@.len()) ==> final(self).behind()
                == old(self).behind() + with@,
            Self::keeps_behind() && !room_fits(old(self).room(), with@.len()) ==> final(self).behind()
                == old(self).behind(),
            room_fits(old(self).room(), with@.len()) ==> {
                &&& r is Ok
                &&& final(self).room() == room_after(old(self).room(), with@.len())
                &&& final(self).ahead() == skip_or_empty(old(self).ahead(), with@.len())
                &&& forall|n: nat|
                    old(self).within_reach(with@.len() + n) ==> #[trigger] final(self).within_reach(n)
            },
            !room_fits(old(self).room(), with@.len()) ==> {
                &&& r matches Err(e) && e.written == 0
                &&& final(self).room() == old(self).room()
                &&& final(self).ahead() == old(self).ahead()
                &&& forall|n: nat|
                    #[trigger] final(self).within_reach(n) == old(self).within_reach(n)
            },
    ;
}

impl<'w, W: BufWriter> BufWriter for &'w mut W {
    open spec fn ahead(&self) -> Seq<u8> {
        (**self).ahead()
    }

    open spec fn room(&self) -> Option<nat> {
        (**self).room()
    }

    open spec fn within_reach(&self, n: nat) -> bool {
        (**self).within_reach(n)
    }

    open spec fn keeps_behind() -> bool {
        W::keeps_behind()
    }

    open spec fn behind(&self) -> Seq<u8> {
        (**self).behind()
    }

    open spec fn spec_remaining(&self) -> nat {
        (**self).spec_remaining()
    }

    proof fn lemma_reach(&self, a: nat, b: nat) {
        (**self).lemma_reach(a, b);
    }

    fn chunk_mut(&mut self) -> Option<&mut [u8]> {
        W::chunk_mut(*self)
    }

    fn advance(&mut self, by: usize) -> Result<(), Full> {
        W::advance(*self, by)
    }

    fn remaining(&self) -> usize {
        W::remaining(*self)
    }

    fn extend(&mut self, with: &[u8]) -> Result<(), Full> {
        W::extend(*self, with)
    }
}

/// The length of the slice behind `s`.
pub open spec fn slice_len<'a>(s: &&'a mut [u8]) -> nat {
    (**s)@.len()
}

/// Takes the slice out of `slot`, leaving an empty one.
fn take_slice<'a>(slot: &mut &'a mut [u8]) -> (s: &'a mut [u8])
    ensures
        s@ == (**old(slot))@,
        final(s)@ == final(*old(slot))@,
        (**final(slot))@.len() == 0,
{
    let mut s: &'a mut [u8] = &mut [];
    std::mem::swap(&mut s, slot);
    s
}

/// A mutable slice writes into itself, from its start on: what it has written
/// it leaves behind, and it shrinks to the part after it.
impl<'a> BufWriter for &'a mut [u8] {
    /// The whole slice.
    open spec fn ahead(&self) -> Seq<u8> {
        (**self)@
    }

    /// The length of the slice.
    open spec fn room(&self) -> Option<nat> {
        Some((**self)@.len())
    }

    open spec fn within_reach(&self, n: nat) -> bool {
        true
    }

    /// What a slice has written stays in the slice it was cut from, not in
    /// the part it shrinks to.
    open spec fn keeps_behind() -> bool {
        false
    }

    open spec fn behind(&self) -> Seq<u8> {
        Seq::empty()
    }

    /// The length of the slice.
    open spec fn spec_remaining(&self) -> nat {
        (**self)@.len()
    }

    proof fn lemma_reach(&self, a: nat, b: nat) {
    }

    /// The whole slice, if it is not empty.
    fn chunk_mut(&mut self) -> (r: Option<&mut [u8]>)
        ensures
            (**old(self))@.len() == 0 ==> r is None && *final(self) == *old(self),
            (**old(self))@.len() > 0 ==> (r matches Some(c) && c@ == (**old(self))@
                && (**final(self))@ == final(c)@ && final(*final(self))@ == final(*old(self))@),
    {
        if self.is_empty() {
            None
        } else {
            Some(&mut **self)
        }
    }

    /// Leaves the first `by` bytes as they are and shrinks to the rest, or
    /// fails if the slice is shorter.
    fn advance(&mut self, by: usize) -> (r: Result<(), Full>)
        ensures
            by <= (**old(self))@.len() ==> {
                &&& r is Ok
                &&& (**final(self))@ == (**old(self))@.skip(by as int)
                &&& final(*old(self))@ == (**old(self))@.take(by as int) + final(*final(self))@
            },
            by > (**old(self))@.len() ==> {
                &&& r == Err::<(), Full>(
                    Full { written: 0, requested: by, remaining: (**old(self))@.len() as usize },
                )
                &&& *final(self) == *old(self)
            },
    {
        if by <= self.len() {
            let s = take_slice(self);
            let (_, rest) = s.split_at_mut(by);
            *self = rest;
            Ok(())
        } else {
            Err(Full { requested: by, remaining: self.len(), written: 0 })
        }
    }

    /// The length of the slice.
    fn remaining(&self) -> (n: usize)
        ensures
            n == slice_len(self),
    {
        self.len()
    }

    /// Writes `with` into the start of the slice and shrinks to the rest, or
    /// fails if the slice is shorter.
    fn extend(&mut self, with: &[u8]) -> (r: Result<(), Full>)
        ensures
            with@.len() <= (**old(self))@.len() ==> {
                &&& r is Ok
                &&& (**final(self))@ == (**old(self))@.skip(with@.len() as int)
                &&& final(*old(self))@ == with@ + final(*final(self))@
            },
            with@.len() > (**old(self))@.len() ==> {
                &&& r == Err::<(), Full>(
                    Full {
                        written: 0,
                        requested: with@.len() as usize,
                        remaining: (**old(self))@.len() as usize,
                    },
                )
                &&& *final(self) == *old(self)
            },
    {
        if with.len() <= self.len() {
            let s = take_slice(self);
            let (dest, rest) = s.split_at_mut(with.len());
            crate::buf::copy::copy_bytes(dest, 0, with, 0, with.len());
            proof {
                assert(dest@ =~= with@);
            }
            *self = rest;
            Ok(())
        } else {
            Err(Full { requested: with.len(), remaining: self.len(), written: 0 })
        }
    }
}

} // verus!
