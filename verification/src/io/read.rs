//! Reading values from readers.

use vstd::prelude::*;

use super::{End, Reader};
use crate::copy::spec_write_len;

verus! {

/// Something that can be read from a reader `R`, given the context `C`.
pub trait Read<R: Reader, C>: Sized {
    type Error;

    /// The value that `unread` starts with and how many bytes it takes, or
    /// `None` if `unread` does not start with one.
    spec fn decode(unread: Seq<u8>, context: C) -> Option<(Self, nat)>;

    /// Reads a value from `reader`, past its bytes.
    fn read(reader: &mut R, context: C) -> (r: Result<Self, Self::Error>)
        ensures
            match Self::decode(old(reader).unread(), context) {
                Some((v, n)) => {
                    &&& r == Ok::<Self, Self::Error>(v)
                    &&& n <= old(reader).unread().len()
                    &&& (*final(reader)).unread() == old(reader).unread().skip(n as int)
                },
                None => r is Err,
            },
    ;
}

impl<R: Reader> Read<R, ()> for () {
    type Error = End;

    /// Nothing, from no bytes.
    open spec fn decode(unread: Seq<u8>, context: ()) -> Option<((), nat)> {
        Some(((), 0))
    }

    fn read(reader: &mut R, _context: ()) -> (r: Result<(), End>) {
        assert(reader.unread().skip(0) =~= reader.unread());
        Ok(())
    }
}

/// Reads `N` bytes into an array.
fn read_array<R: Reader, const N: usize>(reader: &mut R) -> (r: Result<[u8; N], R::Error>)
    ensures
        N <= old(reader).unread().len() ==> (r matches Ok(a) && a@ == old(reader).unread().take(
            N as int,
        ) && (*final(reader)).unread() == old(reader).unread().skip(N as int)),
        N > old(reader).unread().len() ==> r is Err,
{
    let mut buf = [0u8; N];
    proof {
        vstd::array::array_len_matches_n(&buf);
        assert(spec_write_len(N as nat, 0, N as nat) == N);
    }
    match reader.read_into_exact(&mut buf, N) {
        Ok(()) => {
            proof {
                vstd::array::array_len_matches_n(&buf);
                let taken = old(reader).unread().take(N as int);
                assert(buf@ =~= taken);
            }
            Ok(buf)
        },
        Err(e) => Err(e),
    }
}

impl<R: Reader, const N: usize> Read<R, ()> for [u8; N] {
    type Error = R::Error;

    /// The first `N` bytes.
    open spec fn decode(unread: Seq<u8>, context: ()) -> Option<([u8; N], nat)> {
        if N <= unread.len() {
            Some((choose|a: [u8; N]| a@ == unread.take(N as int), N as nat))
        } else {
            None
        }
    }

    fn read(reader: &mut R, _context: ()) -> (r: Result<[u8; N], R::Error>) {
        let r = read_array::<R, N>(reader);
        proof {
            if N <= old(reader).unread().len() {
                let a = r->Ok_0;
                let c = choose|a: [u8; N]| a@ == old(reader).unread().take(N as int);
                assert(a@ == c@);
                vstd::array::axiom_array_ext_equal(a, c);
                assert(a =~= c);
            }
        }
        r
    }
}

impl<R: Reader> Read<R, ()> for u8 {
    type Error = R::Error;

    /// The first byte.
    open spec fn decode(unread: Seq<u8>, context: ()) -> Option<(u8, nat)> {
        if unread.len() > 0 {
            Some((unread[0], 1))
        } else {
            None
        }
    }

    fn read(reader: &mut R, _context: ()) -> (r: Result<u8, R::Error>) {
        match read_array::<R, 1>(reader) {
            Ok(buf) => Ok(buf[0]),
            Err(e) => Err(e),
        }
    }
}

impl<R: Reader> Read<R, ()> for i8 {
    type Error = R::Error;

    /// The first byte, as a signed number.
    open spec fn decode(unread: Seq<u8>, context: ()) -> Option<(i8, nat)> {
        if unread.len() > 0 {
            Some((unread[0] as i8, 1))
        } else {
            None
        }
    }

    fn read(reader: &mut R, _context: ()) -> (r: Result<i8, R::Error>) {
        match read_array::<R, 1>(reader) {
            Ok(buf) => Ok(buf[0] as i8),
            Err(e) => Err(e),
        }
    }
}

/// Reading values, for every reader.
pub trait ReaderExt: Reader + Sized {
    /// Reads a value of type `T`.
    fn read<T: Read<Self, ()>>(&mut self) -> (r: Result<T, T::Error>)
        ensures
            match T::decode(old(self).unread(), ()) {
                Some((v, n)) => {
                    &&& r == Ok::<T, T::Error>(v)
                    &&& (*final(self)).unread() == old(self).unread().skip(n as int)
                },
                None => r is Err,
            },
    {
        T::read(self, ())
    }

    /// Reads a value of type `T`, given the context `context`.
    fn read_with<T: Read<Self, C>, C>(&mut self, context: C) -> (r: Result<T, T::Error>)
        ensures
            match T::decode(old(self).unread(), context) {
                Some((v, n)) => {
                    &&& r == Ok::<T, T::Error>(v)
                    &&& (*final(self)).unread() == old(self).unread().skip(n as int)
                },
                None => r is Err,
            },
    {
        T::read(self, context)
    }

    /// Reads `N` bytes into an array.
    fn read_byte_array<const N: usize>(&mut self) -> (r: Result<[u8; N], Self::Error>)
        ensures
            N <= old(self).unread().len() ==> (r matches Ok(a) && a@ == old(self).unread().take(
                N as int,
            ) && (*final(self)).unread() == old(self).unread().skip(N as int)),
            N > old(self).unread().len() ==> r is Err,
    {
        read_array::<Self, N>(self)
    }
}

impl<R: Reader> ReaderExt for R {
}

} // verus!
