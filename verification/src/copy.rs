//! Copying bytes between buffers.

use vstd::prelude::*;

use crate::buf::{Buf, BufMut, Full, spec_grow, spec_overwrite};
use crate::range::{Range, RangeOutOfBounds, as_range, converts, to_range};
use crate::buf::copy::copy_bytes;
use crate::io::{BufReader, BufWriter, Reader};
use crate::io::write::{room_after, room_fits};

verus! {

/// `bytes` after writing `with` at `offset`: the buffer is first grown with
/// zeros up to `offset` if it is shorter, then the bytes from `offset` on are
/// overwritten, and the buffer is extended where `with` reaches past its end.
pub open spec fn spec_write(bytes: Seq<u8>, offset: nat, with: Seq<u8>) -> Seq<u8> {
    let g = spec_grow(bytes, offset, 0);
    if offset + with.len() < g.len() {
        g.subrange(0, offset as int) + with + g.subrange((offset + with.len()) as int, g.len() as int)
    } else {
        g.subrange(0, offset as int) + with
    }
}

/// The length of a buffer after writing `n` bytes at `offset`.
pub open spec fn spec_write_len(len: nat, offset: nat, n: nat) -> nat {
    if offset + n > len { offset + n } else { len }
}

pub proof fn lemma_write_len(bytes: Seq<u8>, offset: nat, with: Seq<u8>)
    ensures
        spec_write(bytes, offset, with).len() == spec_write_len(bytes.len(), offset, with.len()),
{
}

/// Writing two pieces one after the other is writing them at once.
pub proof fn lemma_write_concat(bytes: Seq<u8>, offset: nat, a: Seq<u8>, b: Seq<u8>)
    ensures
        spec_write(spec_write(bytes, offset, a), offset + a.len(), b) == spec_write(
            bytes,
            offset,
            a + b,
        ),
{
    let w = spec_write(bytes, offset, a);
    assert(spec_grow(w, offset + a.len(), 0) =~= w);
    assert(spec_write(w, offset + a.len(), b) =~= spec_write(bytes, offset, a + b));
}

/// Reading back what was written at `offset` gives the written bytes, and
/// the bytes before `offset` are those of the buffer, grown with zeros.
pub proof fn lemma_write_then_read(bytes: Seq<u8>, offset: nat, with: Seq<u8>)
    ensures
        spec_write(bytes, offset, with).subrange(offset as int, (offset + with.len()) as int) == with,
        spec_write(bytes, offset, with).subrange(0, offset as int) == spec_grow(bytes, offset, 0).subrange(
            0,
            offset as int,
        ),
        forall|i: int|
            offset + with.len() <= i < bytes.len() ==> #[trigger] spec_write(bytes, offset, with)[i]
                == bytes[i],
{
    let w = spec_write(bytes, offset, with);
    let g = spec_grow(bytes, offset, 0);
    assert(w.subrange(offset as int, (offset + with.len()) as int) =~= with);
    assert(w.subrange(0, offset as int) =~= g.subrange(0, offset as int));
    assert forall|i: int| offset + with.len() <= i < bytes.len() implies #[trigger] w[i] == bytes[i] by {
        assert(g[i] == bytes[i]);
    }
}

/// Writing nothing only grows the buffer up to `offset`.
pub proof fn lemma_write_empty(bytes: Seq<u8>, offset: nat)
    ensures
        spec_write(bytes, offset, Seq::empty()) == spec_grow(bytes, offset, 0),
{
    assert(spec_write(bytes, offset, Seq::empty()) =~= spec_grow(bytes, offset, 0));
}

/// Writes `source` at `offset` into a buffer that can hold the result, by
/// overwriting and extending it.
fn write_slice_at<D: BufMut + ?Sized>(destination: &mut D, offset: usize, source: &[u8])
    requires
        offset <= old(destination).bytes().len(),
        old(destination).capacity_bound() matches Some(c) ==> spec_write_len(
            old(destination).bytes().len(),
            offset as nat,
            source@.len(),
        ) <= c,
    ensures
        (*final(destination)).capacity_bound() == old(destination).capacity_bound(),
        (*final(destination)).bytes() == spec_write(old(destination).bytes(), offset as nat, source@),
{
    proof {
        destination.lemma_length();
    }
    let len = destination.len();
    let ghost old_bytes = destination.bytes();
    assert(spec_grow(old_bytes, offset as nat, 0) =~= old_bytes);
    if source.len() <= len - offset {
        destination.overwrite(offset, source);
        assert((*destination).bytes() =~= spec_write(old_bytes, offset as nat, source@));
    } else {
        let n = len - offset;
        let head = vstd::slice::slice_subrange(source, 0, n);
        let tail = vstd::slice::slice_subrange(source, n, source.len());
        destination.overwrite(offset, head);
        let ghost mid = destination.bytes();
        let r = destination.extend(tail);
        proof {
            assert(mid.len() == old_bytes.len());
            assert(head@ + tail@ =~= source@);
        }
        assert((*destination).bytes() =~= spec_write(old_bytes, offset as nat, source@));
    }
}

/// Writes `source.bytes()[start..end]` at `offset` into `destination`, growing
/// it with zeros up to `offset` first.
pub(crate) fn write_buf_at<D: BufMut + ?Sized, S: Buf + ?Sized>(
    destination: &mut D,
    offset: usize,
    source: &S,
    start: usize,
    end: usize,
)
    requires
        start <= end <= source.bytes().len(),
        offset + (end - start) <= usize::MAX,
        old(destination).capacity_bound() matches Some(c) ==> spec_write_len(
            old(destination).bytes().len(),
            offset as nat,
            (end - start) as nat,
        ) <= c,
    ensures
        (*final(destination)).capacity_bound() == old(destination).capacity_bound(),
        (*final(destination)).bytes() == spec_write(
            old(destination).bytes(),
            offset as nat,
            source.bytes().subrange(start as int, end as int),
        ),
{
    let ghost old_bytes = destination.bytes();
    proof {
        destination.lemma_length();
    }
    let len = destination.len();
    if offset > len {
        let r = destination.grow(offset, 0);
    }
    proof {
        lemma_write_empty(old_bytes, offset as nat);
        assert(source.bytes().subrange(start as int, start as int) =~= Seq::<u8>::empty());
    }
    let mut position = start;
    let mut at = offset;
    while position < end
        invariant
            start <= position <= end <= source.bytes().len(),
            offset + (end - start) <= usize::MAX,
            at == offset + (position - start),
            (*destination).capacity_bound() == old(destination).capacity_bound(),
            old(destination).capacity_bound() matches Some(c) ==> spec_write_len(
                old_bytes.len(),
                offset as nat,
                (end - start) as nat,
            ) <= c,
            (*destination).bytes() == spec_write(
                old_bytes,
                offset as nat,
                source.bytes().subrange(start as int, position as int),
            ),
        decreases end - position,
    {
        let chunk = source.chunk_at(position);
        let take = if chunk.len() < end - position {
            chunk.len()
        } else {
            end - position
        };
        let piece = vstd::slice::slice_subrange(chunk, 0, take);
        let ghost written = source.bytes().subrange(start as int, position as int);
        proof {
            lemma_write_len(old_bytes, offset as nat, written);
            destination.lemma_length();
        }
        write_slice_at(destination, at, piece);
        proof {
            assert(piece@ =~= source.bytes().subrange(position as int, position + take));
            lemma_write_concat(old_bytes, offset as nat, written, piece@);
            assert(written + piece@ =~= source.bytes().subrange(start as int, position + take));
        }
        position = position + take;
        at = at + take;
    }
}

/// Copies bytes from `source` to the start of `destination`, overwriting and
/// extending it.
pub fn copy<D: BufMut, S: Buf>(destination: &mut D, source: S) -> (r: Result<(), Full>)
    ensures
        (*final(destination)).capacity_bound() == old(destination).capacity_bound(),
        match old(destination).capacity_bound() {
            Some(c) if source.bytes().len() > c => {
                &&& r == Err::<(), Full>(
                    Full { required: source.bytes().len() as usize, capacity: c as usize },
                )
                &&& (*final(destination)).bytes() == old(destination).bytes()
            },
            _ => {
                &&& r is Ok
                &&& (*final(destination)).bytes() == spec_write(
                    old(destination).bytes(),
                    0,
                    source.bytes(),
                )
            },
        },
{
    proof {
        source.lemma_length();
    }
    let n = source.len();
    match destination.reserve(n) {
        Err(e) => Err(e),
        Ok(()) => {
            write_buf_at(destination, 0, &source, 0, n);
            assert(source.bytes().subrange(0, n as int) =~= source.bytes());
            Ok(())
        },
    }
}

/// Error while copying from a [`Buf`] to a [`BufMut`].
#[derive(Debug, PartialEq, Eq)]
pub enum CopyRangeError {
    SourceRangeOutOfBounds(RangeOutOfBounds),
    LengthMismatch(LengthMismatch),
    DestinationFull(Full),
}

/// The error returned when source and destination of a copy have different
/// lengths.
#[derive(Debug, PartialEq, Eq, Clone, Copy)]
pub struct LengthMismatch {
    pub destination_range: Range,
    pub destination_length: usize,
    pub source_range: Range,
    pub source_length: usize,
}

impl From<LengthMismatch> for CopyRangeError {
    fn from(value: LengthMismatch) -> (r: Self) {
        CopyRangeError::LengthMismatch(value)
    }
}

impl vstd::std_specs::convert::FromSpecImpl<LengthMismatch> for CopyRangeError {
    open spec fn obeys_from_spec() -> bool {
        true
    }

    open spec fn from_spec(v: LengthMismatch) -> Self {
        CopyRangeError::LengthMismatch(v)
    }
}

/// Where a source range starts.
pub open spec fn spec_source_start(source_range: Range) -> nat {
    match source_range.start {
        Some(s) => s as nat,
        None => 0,
    }
}

/// Where a source range ends inside a source of length `len`.
pub open spec fn spec_source_end(source_range: Range, len: nat) -> nat {
    match source_range.end {
        Some(e) => e as nat,
        None => len,
    }
}

/// Where a destination range starts.
pub open spec fn spec_destination_start(destination_range: Range) -> nat {
    match destination_range.start {
        Some(s) => s as nat,
        None => 0,
    }
}

/// Where a destination range ends, for a copy of `n` bytes.
pub open spec fn spec_destination_end(destination_range: Range, n: nat) -> nat {
    match destination_range.end {
        Some(e) => e as nat,
        None => spec_destination_start(destination_range) + n,
    }
}

/// The inputs on which `copy_range` gets as far as comparing lengths: the
/// source range doesn't end before it starts, and the destination range
/// doesn't end before it starts.
pub open spec fn copy_range_defined(
    destination_range: Range,
    source_range: Range,
    source_len: nat,
) -> bool {
    let source_end = spec_source_end(source_range, source_len);
    (source_range.end matches Some(e) && e > source_len) || ({
        let n = source_end - spec_source_start(source_range);
        &&& spec_source_start(source_range) <= source_end
        &&& spec_destination_start(destination_range) + n <= usize::MAX
        &&& spec_destination_start(destination_range) <= spec_destination_end(
            destination_range,
            n as nat,
        )
    })
}

/// Copies the bytes of `source` in `source_range` into `destination` at
/// `destination_range`. The destination is grown with zeros up to the start
/// of the destination range, overwritten, and extended as far as needed.
///
/// Fails if the source range doesn't fit into the source, the two ranges
/// differ in length, or the destination can't hold the result. In the last
/// case the error names the start of the destination range if even that lies
/// beyond the destination's capacity, and the end of the range otherwise.
pub fn copy_range<D: BufMut, DR: Into<Range>, S: Buf, SR: Into<Range>>(
    destination: &mut D,
    destination_range: DR,
    source: S,
    source_range: SR,
) -> (r: Result<(), CopyRangeError>)
    requires
        converts::<DR>(),
        converts::<SR>(),
        copy_range_defined(as_range(destination_range), as_range(source_range), source.bytes().len()),
    ensures
        (*final(destination)).capacity_bound() == old(destination).capacity_bound(),
        ({
            let dr = as_range(destination_range);
            let sr = as_range(source_range);
            let len = source.bytes().len();
            let s_start = spec_source_start(sr);
            let s_end = spec_source_end(sr, len);
            let n = (s_end - s_start) as nat;
            let d_start = spec_destination_start(dr);
            let d_end = spec_destination_end(dr, n);
            if sr.end matches Some(e) && e > len {
                &&& r == Err::<(), _>(
                    CopyRangeError::SourceRangeOutOfBounds(
                        RangeOutOfBounds { required: sr, bounds: (0, len as usize) },
                    ),
                )
                &&& (*final(destination)).bytes() == old(destination).bytes()
            } else if d_end - d_start != n {
                &&& r == Err::<(), _>(
                    CopyRangeError::LengthMismatch(
                        LengthMismatch {
                            destination_range: dr,
                            destination_length: (d_end - d_start) as usize,
                            source_range: sr,
                            source_length: n as usize,
                        },
                    ),
                )
                &&& (*final(destination)).bytes() == old(destination).bytes()
            } else if old(destination).capacity_bound() is Some && d_end > old(
                destination,
            ).capacity_bound().unwrap() {
                &&& r == Err::<(), _>(
                    CopyRangeError::DestinationFull(
                        Full {
                            required: if d_start > old(destination).capacity_bound().unwrap() {
                                d_start as usize
                            } else {
                                d_end as usize
                            },
                            capacity: old(destination).capacity_bound().unwrap() as usize,
                        },
                    ),
                )
                &&& (*final(destination)).bytes() == old(destination).bytes()
            } else {
                &&& r is Ok
                &&& (*final(destination)).bytes() == spec_write(
                    old(destination).bytes(),
                    d_start,
                    source.bytes().subrange(s_start as int, s_end as int),
                )
            }
        }),
{
    proof {
        source.lemma_length();
        destination.lemma_length();
    }
    let destination_range = to_range(destination_range);
    let source_range = to_range(source_range);
    let source_len = source.len();
    let destination_start = match destination_range.start {
        Some(s) => s,
        None => 0,
    };
    let source_start = match source_range.start {
        Some(s) => s,
        None => 0,
    };
    let source_end = match source_range.end {
        Some(end) => {
            if end > source_len {
                return Err(
                    CopyRangeError::SourceRangeOutOfBounds(
                        RangeOutOfBounds { required: source_range, bounds: (0, source_len) },
                    ),
                );
            }
            end
        },
        None => source_len,
    };
    let source_length = source_end - source_start;
    let destination_end = match destination_range.end {
        Some(end) => end,
        None => destination_start + source_length,
    };
    let destination_length = destination_end - destination_start;
    if destination_length != source_length {
        return Err(
            CopyRangeError::LengthMismatch(
                LengthMismatch {
                    destination_range,
                    destination_length,
                    source_range,
                    source_length,
                },
            ),
        );
    }
    match destination.reserve(destination_end) {
        Err(e) => {
            if destination_start > e.capacity {
                // not even the start of the destination range is in reach
                return Err(
                    CopyRangeError::DestinationFull(
                        Full { required: destination_start, capacity: e.capacity },
                    ),
                );
            }
            return Err(CopyRangeError::DestinationFull(e));
        },
        Ok(()) => {},
    }
    write_buf_at(destination, destination_start, &source, source_start, source_end);
    Ok(())
}

/// The number of bytes a step of a copy moves: as many as both chunks hold,
/// and at most `amount` if it is given.
pub open spec fn step_len(dest_len: nat, src_len: nat, amount: Option<usize>) -> nat {
    let both = if dest_len <= src_len {
        dest_len
    } else {
        src_len
    };
    match amount {
        Some(a) => if (a as nat) < both {
            a as nat
        } else {
            both
        },
        None => both,
    }
}

/// Copies the first bytes of `src` over the first bytes of `dest`: as many as
/// both hold, and at most `amount` if it is given. Returns how many.
pub fn copy_into_chunk(dest: &mut [u8], src: &[u8], amount: Option<usize>) -> (n: usize)
    ensures
        n == step_len(old(dest)@.len(), src@.len(), amount),
        final(dest)@ == src@.take(n as int) + old(dest)@.skip(n as int),
{
    let mut n = if dest.len() <= src.len() {
        dest.len()
    } else {
        src.len()
    };
    match amount {
        Some(a) => {
            if a < n {
                n = a;
            }
        },
        None => {},
    }
    let ghost before = dest@;
    copy_bytes(dest, 0, src, 0, n);
    assert(dest@ =~= src@.take(n as int) + before.skip(n as int));
    n
}

/// What was written before, with `n` more bytes of `src` after its first `t`,
/// is what was written before with the first `t + n` bytes of `src`.
proof fn lemma_take_after(before: Seq<u8>, src: Seq<u8>, t: int, n: int)
    requires
        0 <= t,
        0 <= n,
        t + n <= src.len(),
    ensures
        before + src.take(t) + src.skip(t).take(n) == before + src.take(t + n),
{
    assert(src.take(t) + src.skip(t).take(n) =~= src.take(t + n));
    assert(before + src.take(t) + src.skip(t).take(n) =~= before + src.take(t + n));
}

/// Copies `amount` bytes from `source` into `destination`, or all of them if
/// `amount` is `None`, chunk by chunk. Returns how many bytes were copied.
///
/// While the destination has bytes ahead of it, source bytes are copied over
/// them. Once it has none, the source's chunks (cut at what is left of
/// `amount`) are added to it, until one does not fit. A destination that keeps
/// what it has written (see [`BufWriter::keeps_behind`]) then has the copied
/// bytes behind its position.
#[verifier::rlimit(30)]
pub fn copy_io<W: BufWriter, R: BufReader>(
    destination: &mut W,
    source: &mut R,
    amount: Option<usize>,
) -> (total: usize)
    requires
        old(destination).within_reach(old(source).unread().len()),
    ensures
        total <= old(source).unread().len(),
        amount matches Some(a) ==> total <= a,
        (*final(source)).unread() == old(source).unread().skip(total as int),
        (*final(destination)).room() == room_after(old(destination).room(), total as nat),
        amount is None && room_fits(old(destination).room(), old(source).unread().len()) ==> total
            == old(source).unread().len(),
        amount matches Some(a) ==> (a <= old(source).unread().len() && room_fits(
            old(destination).room(),
            a as nat,
        ) ==> total == a),
        W::keeps_behind() ==> (*final(destination)).behind() == old(destination).behind() + old(
            source,
        ).unread().take(total as int),
{
    let ghost src0 = source.unread();
    let ghost room0 = destination.room();
    let ghost amount0 = amount;
    let ghost everything = amount is None && room_fits(room0, src0.len());
    let ghost fits = amount matches Some(a) && a <= src0.len() && room_fits(room0, a as nat);
    let ghost behind0 = destination.behind();
    proof {
        source.lemma_unread_fits();
        assert(src0.skip(0) =~= src0);
        destination.lemma_reach(src0.len(), src0.len());
    }
    let mut amount = amount;
    let mut total: usize = 0;
    loop
        invariant
            src0.len() <= usize::MAX,
            total <= src0.len(),
            source.unread() == src0.skip(total as int),
            destination.room() == room_after(room0, total as nat),
            room_fits(room0, total as nat),
            destination.within_reach(source.unread().len()),
            amount0 is None ==> amount is None,
            amount0 matches Some(a0) ==> (amount matches Some(a) && total + a == a0),
            everything ==> room_fits(destination.room(), source.unread().len()),
            fits ==> (amount matches Some(a) && a <= source.unread().len() && room_fits(
                destination.room(),
                a as nat,
            )),
            everything == (amount0 is None && room_fits(room0, src0.len())),
            fits == (amount0 matches Some(a) && a <= src0.len() && room_fits(room0, a as nat)),
            W::keeps_behind() ==> destination.behind() == behind0 + src0.take(total as int),
        ensures
            W::keeps_behind() ==> destination.behind() == behind0 + src0.take(total as int),
            total <= src0.len(),
            amount0 matches Some(a0) ==> total <= a0,
            source.unread() == src0.skip(total as int),
            destination.room() == room_after(room0, total as nat),
            everything ==> total == src0.len(),
            fits ==> (amount0 matches Some(a0) && total == a0),
        decreases source.unread().len(),
    {
        let stop = match amount {
            Some(a) => a == 0,
            None => false,
        };
        if stop {
            break;
        }
        let ghost unread = source.unread();
        proof {
            destination.lemma_reach(unread.len(), unread.len());
        }
        let dest_chunk = destination.chunk_mut();
        let src_chunk = source.peek_chunk();
        let s = match src_chunk {
            Some(s) => s,
            None => {
                assert(src0.skip(total as int).len() == 0);
                break;
            },
        };
        match dest_chunk {
            Some(d) => {
                let ghost before_total = total as int;
                let n = copy_into_chunk(d, s, amount);
                let ghost written = destination.ahead();
                proof {
                    assert(written.take(n as int) =~= s@.take(n as int));
                    assert(s@.take(n as int) =~= unread.take(n as int));
                    lemma_take_after(behind0, src0, before_total, n as int);
                }
                match amount {
                    Some(a) => {
                        amount = Some(a - n);
                    },
                    None => {},
                }
                total = total + n;
                proof {
                    destination.lemma_reach(unread.len(), n as nat);
                }
                match destination.advance(n) {
                    Ok(()) => {},
                    Err(_) => {
                        assert(false);
                    },
                }
                match source.advance(n) {
                    Ok(()) => {},
                    Err(_) => {
                        assert(false);
                    },
                }
                proof {
                    assert(src0.skip(total - n).skip(n as int) =~= src0.skip(total as int));
                    assert(destination.within_reach((unread.len() - n) as nat));
                }
            },
            None => {
                let len = match amount {
                    Some(a) => if a < s.len() {
                        a
                    } else {
                        s.len()
                    },
                    None => s.len(),
                };
                let part = vstd::slice::slice_subrange(s, 0, len);
                proof {
                    destination.lemma_reach(unread.len(), len as nat);
                }
                match destination.extend(part) {
                    Err(e) => {
                        total = total + e.written;
                        break;
                    },
                    Ok(()) => {
                        total = total + len;
                        match amount {
                            Some(a) => {
                                amount = Some(a - len);
                            },
                            None => {},
                        }
                        match source.advance(len) {
                            Ok(()) => {},
                            Err(_) => {
                                assert(false);
                            },
                        }
                        proof {
                            assert(src0.skip(total - len).skip(len as int) =~= src0.skip(
                                total as int,
                            ));
                            assert(destination.within_reach((unread.len() - len) as nat));
                            assert(part@ =~= unread.take(len as int));
                            lemma_take_after(behind0, src0, total - len, len as int);
                        }
                    },
                }
            },
        }
    }
    total
}

} // verus!
