//! Readers: things that hand out bytes in order, and remember how far they
//! have got.

use vstd::prelude::*;

use crate::buf::{Buf, BufMut, SizeLimit};
use crate::copy::{spec_write, spec_write_len};

pub mod count;
pub mod cursor;
pub mod limit;
pub mod read;
pub mod write;

pub use self::count::Count;
pub use self::cursor::Cursor;
pub use self::limit::Limit;
pub use self::read::{Read, ReaderExt};
pub use self::write::BufWriter;

verus! {

/// The error returned when a reader has fewer bytes than were asked for.
#[derive(Clone, Copy, Debug, Default, PartialEq, Eq)]
pub struct End {
    pub read: usize,
    pub requested: usize,
    pub remaining: usize,
}

/// The error returned when a writer has less room than was asked for.
#[derive(Clone, Copy, Debug, Default, PartialEq, Eq)]
pub struct Full {
    pub written: usize,
    pub requested: usize,
    pub remaining: usize,
}

impl From<crate::buf::Full> for Full {
    fn from(value: crate::buf::Full) -> (r: Self) {
        Full { written: 0, requested: value.required, remaining: value.capacity }
    }
}

impl vstd::std_specs::convert::FromSpecImpl<crate::buf::Full> for Full {
    open spec fn obeys_from_spec() -> bool {
        true
    }

    open spec fn from_spec(v: crate::buf::Full) -> Self {
        Full { written: 0, requested: v.required, remaining: v.capacity }
    }
}

/// The error returned when a tag read from the input names no variant.
#[derive(Clone, Copy, Debug, Default, PartialEq, Eq)]
pub struct InvalidDiscriminant<D>(pub D);

/// An error of a reader, which may say that the reader ended.
pub trait ReadError: Sized {
    /// Whether the error says that the reader ended.
    spec fn spec_is_end(&self) -> bool;

    /// How many bytes were read before the error.
    spec fn spec_amount_read(&self) -> usize;

    /// The error that stands for `end`.
    fn from_end(end: End) -> (e: Self)
        ensures
            e.spec_is_end(),
            e.spec_amount_read() == end.read,
    ;

    /// Whether the error says that the reader ended.
    fn is_end(&self) -> (b: bool)
        ensures
            b == self.spec_is_end(),
    ;

    /// How many bytes were read before the error.
    fn amount_read(&self) -> (n: usize)
        ensures
            n == self.spec_amount_read(),
    ;

    /// Whether the reader ended before it read anything.
    fn is_exact_end(&self) -> (b: bool)
        ensures
            b == (self.spec_is_end() && self.spec_amount_read() == 0),
    {
        self.is_end() && self.amount_read() == 0
    }
}

impl ReadError for End {
    open spec fn spec_is_end(&self) -> bool {
        true
    }

    open spec fn spec_amount_read(&self) -> usize {
        self.read
    }

    fn from_end(end: End) -> (e: Self) {
        end
    }

    fn is_end(&self) -> (b: bool) {
        true
    }

    fn amount_read(&self) -> (n: usize) {
        self.read
    }
}

/// A reader or writer that knows how many bytes are remaining.
pub trait Remaining {
    /// How many bytes are remaining.
    spec fn spec_remaining(&self) -> nat;

    /// Returns how many bytes are remaining.
    fn remaining(&self) -> (n: usize)
        ensures
            n == self.spec_remaining(),
    ;

    /// Whether no bytes are remaining.
    fn is_at_end(&self) -> (b: bool)
        ensures
            b == (self.spec_remaining() == 0),
    {
        self.remaining() == 0
    }
}

/// A reader or writer that also has knowledge about the position in the
/// underlying buffer.
pub trait Seek {
    type Position;

    /// The current position.
    spec fn position(&self) -> Self::Position;

    /// Returns the current position.
    fn tell(&self) -> (p: Self::Position)
        ensures
            p == self.position(),
    ;

    /// Moves to `position` and returns the position it left.
    fn seek(&mut self, position: &Self::Position) -> (p: Self::Position)
        ensures
            p == old(self).position(),
            (*final(self)).position() == *position,
    ;
}

/// The error of a reader asked for `requested` bytes when `remaining` are
/// left.
pub open spec fn spec_end(requested: usize, remaining: nat) -> End {
    End { read: 0, requested, remaining: remaining as usize }
}

/// A source of bytes that are read in order.
pub trait Reader {
    /// The error of a read.
    type Error: ReadError;

    /// The bytes that are yet to be read.
    spec fn unread(&self) -> Seq<u8>;

    /// The reader never has more bytes than fit in memory.
    proof fn lemma_unread_fits(&self)
        ensures
            self.unread().len() <= usize::MAX,
    ;

    /// Skips `amount` bytes, or as many as the reader lets through. Fails if
    /// the reader ends before; the error tells how many bytes were skipped.
    fn skip(&mut self, amount: usize) -> (r: Result<(), Self::Error>)
        ensures
            amount <= old(self).unread().len() ==> r is Ok,
            r is Ok ==> (*final(self)).unread() == old(self).unread().skip(
                spec_min(amount as nat, old(self).unread().len()) as int,
            ),
            r matches Err(e) ==> {
                &&& e.spec_amount_read() <= old(self).unread().len()
                &&& e.spec_amount_read() <= amount
                &&& (*final(self)).unread() == old(self).unread().skip(e.spec_amount_read() as int)
            },
    ;

    /// Reads bytes and writes them at the start of `dest`, overwriting and
    /// extending it: at most `limit` of them if it is given, and no more than
    /// `dest` can hold. Returns how many; that may be fewer than there are
    /// room and bytes for. Fails only if reading fails; the error tells how
    /// many bytes were read.
    fn read_into<D: BufMut>(&mut self, dest: &mut D, limit: Option<usize>) -> (r: Result<
        usize,
        Self::Error,
    >)
        ensures
            (*final(dest)).capacity_bound() == old(dest).capacity_bound(),
            r matches Ok(n) ==> {
                &&& n <= old(self).unread().len()
                &&& (limit matches Some(l) ==> n <= l)
                &&& (old(dest).capacity_bound() matches Some(c) ==> n <= c)
                &&& (*final(self)).unread() == old(self).unread().skip(n as int)
                &&& (*final(dest)).bytes() == spec_write(
                    old(dest).bytes(),
                    0,
                    old(self).unread().take(n as int),
                )
            },
            r matches Err(e) ==> {
                &&& e.spec_amount_read() <= old(self).unread().len()
                &&& (limit matches Some(l) ==> e.spec_amount_read() <= l)
                &&& (*final(self)).unread() == old(self).unread().skip(e.spec_amount_read() as int)
            },
    ;

    /// Reads exactly `length` bytes and writes them at the start of `dest`,
    /// overwriting and extending it. Fails if the reader ends before; the
    /// error tells how many bytes were read.
    fn read_into_exact<D: BufMut>(&mut self, dest: &mut D, length: usize) -> (r: Result<
        (),
        Self::Error,
    >)
        requires
            old(dest).capacity_bound() matches Some(c) ==> spec_write_len(
                old(dest).bytes().len(),
                0,
                length as nat,
            ) <= c,
        ensures
            (*final(dest)).capacity_bound() == old(dest).capacity_bound(),
            length <= old(self).unread().len() ==> r is Ok,
            r is Ok ==> {
                &&& length <= old(self).unread().len()
                &&& (*final(self)).unread() == old(self).unread().skip(length as int)
                &&& (*final(dest)).bytes() == spec_write(
                    old(dest).bytes(),
                    0,
                    old(self).unread().take(length as int),
                )
            },
            r matches Err(e) ==> {
                &&& e.spec_amount_read() <= old(self).unread().len()
                &&& e.spec_amount_read() <= length
                &&& (*final(self)).unread() == old(self).unread().skip(e.spec_amount_read() as int)
            },
    ;
}

/// How many bytes reading into a buffer takes of `unread` bytes: all of
/// them, but no more than `limit` if it is given, nor than the buffer's
/// capacity, as a `usize`, if it has one.
pub open spec fn spec_read_into_len(unread: nat, limit: Option<usize>, capacity: Option<nat>) -> usize {
    let a = match limit {
        Some(l) => spec_min(unread, l as nat),
        None => unread,
    };
    (match capacity {
        Some(c) => spec_min(a, (c as usize) as nat),
        None => a,
    }) as usize
}

/// The smaller of `a` and `b`.
pub open spec fn spec_min(a: nat, b: nat) -> nat {
    if a <= b { a } else { b }
}

/// A reader whose bytes lie in a buffer, so that it can hand them out as
/// views without copying.
pub trait BufReader: Reader<Error = End> {
    /// A view of bytes of the reader.
    type View: Buf;

    /// Returns a single chunk starting at the current position, without
    /// advancing.
    fn peek_chunk(&self) -> (r: Option<&[u8]>)
        ensures
            r is None <==> self.unread().len() == 0,
            r matches Some(c) ==> 0 < c@.len() <= self.unread().len() && c@ == self.unread().take(
                c@.len() as int,
            ),
    ;

    /// Returns a view of `length` bytes starting at the current position,
    /// and advances past them.
    fn view(&mut self, length: usize) -> (r: Result<Self::View, End>)
        ensures
            length <= old(self).unread().len() ==> {
                &&& r matches Ok(v) && v.bytes() == old(self).unread().take(length as int)
                &&& (*final(self)).unread() == old(self).unread().skip(length as int)
            },
            length > old(self).unread().len() ==> {
                &&& r == Err::<Self::View, End>(spec_end(length, old(self).unread().len()))
                &&& (*final(self)).unread() == old(self).unread()
            },
    ;

    /// Returns a view of `length` bytes starting at the current position,
    /// without advancing.
    fn peek_view(&self, length: usize) -> (r: Result<Self::View, End>)
        ensures
            length <= self.unread().len() ==> (r matches Ok(v) && v.bytes() == self.unread().take(
                length as int,
            )),
            length > self.unread().len() ==> r == Err::<Self::View, End>(
                spec_end(length, self.unread().len()),
            ),
    ;

    /// Returns a view of the rest of the reader, and advances to its end.
    fn rest(&mut self) -> (v: Self::View)
        ensures
            v.bytes() == old(self).unread(),
            (*final(self)).unread() == Seq::<u8>::empty(),
    ;

    /// Returns a view of the rest of the reader, without advancing.
    fn peek_rest(&self) -> (v: Self::View)
        ensures
            v.bytes() == self.unread(),
    ;

    /// Advances past `by` bytes.
    fn advance(&mut self, by: usize) -> (r: Result<(), End>)
        ensures
            by <= old(self).unread().len() ==> {
                &&& r is Ok
                &&& (*final(self)).unread() == old(self).unread().skip(by as int)
            },
            by > old(self).unread().len() ==> {
                &&& r == Err::<(), End>(spec_end(by, old(self).unread().len()))
                &&& (*final(self)).unread() == old(self).unread()
            },
    ;

    /// Returns the number of bytes remaining.
    fn remaining(&self) -> (n: usize)
        ensures
            n == self.unread().len(),
    ;
}

impl<'a> Reader for &'a [u8] {
    type Error = End;

    open spec fn unread(&self) -> Seq<u8> {
        (**self)@
    }

    proof fn lemma_unread_fits(&self) {
        assert(vstd::slice::spec_slice_len(*self) == (**self)@.len());
    }

    /// Skips `amount` bytes; if there are fewer, skips all of them and fails.
    fn skip(&mut self, amount: usize) -> (r: Result<(), End>)
        ensures
            amount > old(self).unread().len() ==> r == Err::<(), End>(
                End {
                    read: old(self).unread().len() as usize,
                    requested: amount,
                    remaining: 0,
                },
            ),
    {
        let n = self.len();
        if amount <= n {
            *self = vstd::slice::slice_subrange(*self, amount, n);
            Ok(())
        } else {
            *self = vstd::slice::slice_subrange(*self, n, n);
            assert((**self)@ =~= old(self).unread().skip(n as int));
            Err(End { read: n, requested: amount, remaining: 0 })
        }
    }

    /// Reads as many bytes as there are, `limit` allows and `dest` can hold
    /// into `dest`; never fails.
    fn read_into<D: BufMut>(&mut self, dest: &mut D, limit: Option<usize>) -> (r: Result<
        usize,
        End,
    >)
        ensures
            r == Ok::<usize, End>(
                spec_read_into_len(old(self).unread().len(), limit, old(dest).capacity_bound()),
            ),
    {
        let mut n = self.len();
        match limit {
            Some(l) => {
                if l < n {
                    n = l;
                }
            },
            None => {},
        }
        match dest.size_limit() {
            SizeLimit::Exact(c) => {
                if c < n {
                    n = c;
                }
            },
            _ => {},
        }
        let _ = dest.reserve(n);
        match self.read_into_exact(dest, n) {
            Ok(()) => Ok(n),
            Err(_) => {
                assert(false);
                Err(End { read: 0, requested: n, remaining: 0 })
            },
        }
    }

    /// Reads `length` bytes into `dest`; if there are fewer, reads nothing
    /// and fails.
    fn read_into_exact<D: BufMut>(&mut self, dest: &mut D, length: usize) -> (r: Result<
        (),
        End,
    >)
        ensures
            length > old(self).unread().len() ==> {
                &&& r == Err::<(), End>(spec_end(length, old(self).unread().len()))
                &&& (*final(dest)).bytes() == old(dest).bytes()
            },
    {
        let n = self.len();
        if length <= n {
            let data = vstd::slice::slice_subrange(*self, 0, length);
            *self = vstd::slice::slice_subrange(*self, length, n);
            let r = crate::copy::copy(dest, data);
            Ok(())
        } else {
            assert(old(self).unread().skip(0) =~= old(self).unread());
            Err(End { read: 0, requested: length, remaining: n })
        }
    }
}

impl<'a> BufReader for &'a [u8] {
    type View = &'a [u8];

    fn peek_chunk(&self) -> (r: Option<&[u8]>) {
        if self.len() == 0 {
            None
        } else {
            assert((**self)@.take((**self)@.len() as int) =~= (**self)@);
            Some(*self)
        }
    }

    fn view(&mut self, length: usize) -> (r: Result<Self::View, End>) {
        let n = self.len();
        if length <= n {
            let left = vstd::slice::slice_subrange(*self, 0, length);
            let right = vstd::slice::slice_subrange(*self, length, n);
            *self = right;
            Ok(left)
        } else {
            Err(End { requested: length, read: 0, remaining: n })
        }
    }

    fn peek_view(&self, length: usize) -> (r: Result<Self::View, End>) {
        let n = self.len();
        if length <= n {
            Ok(vstd::slice::slice_subrange(*self, 0, length))
        } else {
            Err(End { requested: length, read: 0, remaining: n })
        }
    }

    fn rest(&mut self) -> (v: Self::View) {
        let n = self.len();
        let rest = *self;
        *self = vstd::slice::slice_subrange(rest, n, n);
        assert((**self)@ =~= Seq::<u8>::empty());
        rest
    }

    fn peek_rest(&self) -> (v: Self::View) {
        *self
    }

    fn advance(&mut self, by: usize) -> (r: Result<(), End>) {
        let n = self.len();
        if by <= n {
            *self = vstd::slice::slice_subrange(*self, by, n);
            Ok(())
        } else {
            Err(End { read: 0, requested: by, remaining: n })
        }
    }

    fn remaining(&self) -> (n: usize) {
        self.len()
    }
}

impl<'a> Remaining for &'a [u8] {
    open spec fn spec_remaining(&self) -> nat {
        (**self)@.len()
    }

    fn remaining(&self) -> (n: usize) {
        self.len()
    }
}

impl<'a> Seek for &'a [u8] {
    type Position = &'a [u8];

    open spec fn position(&self) -> &'a [u8] {
        *self
    }

    fn tell(&self) -> (p: &'a [u8]) {
        *self
    }

    fn seek(&mut self, position: &&'a [u8]) -> (p: &'a [u8]) {
        let left = *self;
        *self = *position;
        left
    }
}

} // verus!
