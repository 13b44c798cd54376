//! Copying a range of one buffer into a range of another.

use vstd::prelude::*;

use super::{Buf, BufMut, Full};
use super::chunks::Chunks;
use crate::util::Peekable;
use crate::copy::{spec_destination_start, spec_source_end, spec_source_start, spec_write,
    write_buf_at};
use crate::range::{Range, RangeOutOfBounds, as_range, converts, to_range};

verus! {

/// Error while copying from a [`Buf`] to a [`BufMut`].
#[derive(Debug, PartialEq, Eq)]
pub enum CopyError {
    DestinationRangeOutOfBounds(RangeOutOfBounds),
    SourceRangeOutOfBounds(RangeOutOfBounds),
    LengthMismatch(LengthMismatch),
    Full(Full),
}

/// The error returned when source and destination of a copy have different
/// lengths.
#[derive(Debug, PartialEq, Eq, Clone, Copy)]
pub struct LengthMismatch {
    pub destination_range: Range,
    pub destination_length: usize,
    pub source_range: Range,
    pub source_length: usize,
}

impl From<LengthMismatch> for CopyError {
    fn from(value: LengthMismatch) -> (r: Self) {
        CopyError::LengthMismatch(value)
    }
}

impl vstd::std_specs::convert::FromSpecImpl<LengthMismatch> for CopyError {
    open spec fn obeys_from_spec() -> bool {
        true
    }

    open spec fn from_spec(v: LengthMismatch) -> Self {
        CopyError::LengthMismatch(v)
    }
}

impl From<Full> for CopyError {
    fn from(value: Full) -> (r: Self) {
        CopyError::Full(value)
    }
}

impl vstd::std_specs::convert::FromSpecImpl<Full> for CopyError {
    open spec fn obeys_from_spec() -> bool {
        true
    }

    open spec fn from_spec(v: Full) -> Self {
        CopyError::Full(v)
    }
}

/// Where the destination range of a [`copy`] of `n` bytes ends: where it says,
/// or else at the end of the destination or of the copied bytes, whichever
/// lies further.
pub open spec fn spec_copy_destination_end(destination_range: Range, len: nat, n: nat) -> nat {
    match destination_range.end {
        Some(e) => e as nat,
        None => {
            let end = spec_destination_start(destination_range) + n;
            if len > end { len } else { end }
        },
    }
}

/// The inputs on which [`copy`] gets as far as comparing lengths: the source
/// range doesn't end before it starts, and the destination range doesn't end
/// before it starts.
pub open spec fn copy_defined(
    destination_range: Range,
    destination_len: nat,
    source_range: Range,
    source_len: nat,
) -> bool {
    let source_end = spec_source_end(source_range, source_len);
    (source_range.end matches Some(e) && e > source_len) || ({
        let n = source_end - spec_source_start(source_range);
        &&& spec_source_start(source_range) <= source_end
        &&& spec_destination_start(destination_range) + n <= usize::MAX
        &&& spec_destination_start(destination_range) <= spec_copy_destination_end(
            destination_range,
            destination_len,
            n as nat,
        )
    })
}

/// Copies the bytes of `source` in `source_range` into `destination` at
/// `destination_range`, and returns how many bytes were copied.
///
/// Without an end, the destination range reaches to the end of the
/// destination, or as far as the copied bytes reach, whichever lies further.
/// The destination is grown with zeros up to the start of the range,
/// overwritten, and extended as far as needed.
///
/// Fails if the source range doesn't fit into the source, the two ranges
/// differ in length, or the destination can't hold the result.
pub fn copy<D: BufMut, DR: Into<Range>, S: Buf, SR: Into<Range>>(
    destination: &mut D,
    destination_range: DR,
    source: S,
    source_range: SR,
) -> (r: Result<usize, CopyError>)
    requires
        converts::<DR>(),
        converts::<SR>(),
        copy_defined(
            as_range(destination_range),
            old(destination).bytes().len(),
            as_range(source_range),
            source.bytes().len(),
        ),
    ensures
        (*final(destination)).capacity_bound() == old(destination).capacity_bound(),
        ({
            let dr = as_range(destination_range);
            let sr = as_range(source_range);
            let len = source.bytes().len();
            let s_start = spec_source_start(sr);
            let s_end = spec_source_end(sr, len);
            let n = (s_end - s_start) as nat;
            let d_start = spec_destination_start(dr);
            let d_end = spec_copy_destination_end(dr, old(destination).bytes().len(), n);
            if sr.end matches Some(e) && e > len {
                &&& r == Err::<usize, _>(
                    CopyError::SourceRangeOutOfBounds(
                        RangeOutOfBounds { required: sr, bounds: (0, len as usize) },
                    ),
                )
                &&& (*final(destination)).bytes() == old(destination).bytes()
            } else if d_end - d_start != n {
                &&& r == Err::<usize, _>(
                    CopyError::LengthMismatch(
                        LengthMismatch {
                            destination_range: dr,
                            destination_length: (d_end - d_start) as usize,
                            source_range: sr,
                            source_length: n as usize,
                        },
                    ),
                )
                &&& (*final(destination)).bytes() == old(destination).bytes()
            } else if old(destination).capacity_bound() is Some && d_end > old(
                destination,
            ).capacity_bound().unwrap() {
                &&& r == Err::<usize, _>(
                    CopyError::Full(
                        Full {
                            required: d_end as usize,
                            capacity: old(destination).capacity_bound().unwrap() as usize,
                        },
                    ),
                )
                &&& (*final(destination)).bytes() == old(destination).bytes()
            } else {
                &&& r == Ok::<usize, CopyError>(n as usize)
                &&& (*final(destination)).bytes() == spec_write(
                    old(destination).bytes(),
                    d_start,
                    source.bytes().subrange(s_start as int, s_end as int),
                )
            }
        }),
{
    proof {
        source.lemma_length();
        destination.lemma_length();
    }
    let destination_range = to_range(destination_range);
    let source_range = to_range(source_range);
    let source_len = source.len();
    let destination_len = destination.len();
    let destination_start = match destination_range.start {
        Some(s) => s,
        None => 0,
    };
    let source_start = match source_range.start {
        Some(s) => s,
        None => 0,
    };
    let source_end = match source_range.end {
        Some(end) => {
            if end > source_len {
                return Err(
                    CopyError::SourceRangeOutOfBounds(
                        RangeOutOfBounds { required: source_range, bounds: (0, source_len) },
                    ),
                );
            }
            end
        },
        None => source_len,
    };
    let source_length = source_end - source_start;
    let destination_end = match destination_range.end {
        Some(end) => end,
        None => {
            let end = destination_start + source_length;
            if destination_len > end {
                destination_len
            } else {
                end
            }
        },
    };
    let destination_length = destination_end - destination_start;
    if destination_length != source_length {
        return Err(
            CopyError::LengthMismatch(
                LengthMismatch {
                    destination_range,
                    destination_length,
                    source_range,
                    source_length,
                },
            ),
        );
    }
    match destination.reserve(destination_end) {
        Err(e) => {
            return Err(CopyError::Full(e));
        },
        Ok(()) => {},
    }
    write_buf_at(destination, destination_start, &source, source_start, source_end);
    Ok(source_length)
}

/// Total length of the first `k` chunks of `chunks`.
pub open spec fn chunks_len(chunks: Seq<Seq<u8>>, k: int) -> int
    decreases k,
{
    if k <= 0 || chunks.len() == 0 {
        0
    } else {
        chunks[0].len() + chunks_len(chunks.drop_first(), k - 1)
    }
}

/// Adding one more chunk adds its length.
pub proof fn lemma_chunks_len_step(chunks: Seq<Seq<u8>>, k: int)
    requires
        0 <= k < chunks.len(),
    ensures
        chunks_len(chunks, k + 1) == chunks_len(chunks, k) + chunks[k].len(),
    decreases k,
{
    let rest = chunks.drop_first();
    assert(chunks_len(rest, 0) == 0);
    if k > 0 {
        lemma_chunks_len_step(rest, k - 1);
        assert(rest[k - 1] == chunks[k]);
    }
}

/// Taking more chunks never gives less.
pub proof fn lemma_chunks_len_monotonic(chunks: Seq<Seq<u8>>, k1: int, k2: int)
    requires
        0 <= k1 <= k2 <= chunks.len(),
    ensures
        0 <= chunks_len(chunks, k1) <= chunks_len(chunks, k2),
    decreases k2,
{
    if k1 < k2 {
        lemma_chunks_len_monotonic(chunks, k1, k2 - 1);
        lemma_chunks_len_step(chunks, k2 - 1);
    } else if k1 > 0 {
        lemma_chunks_len_monotonic(chunks.drop_first(), k1 - 1, k1 - 1);
    }
}

/// Byte `j` of chunk `k` sits at position `chunks_len(chunks, k) + j` of the
/// concatenated chunks.
pub proof fn lemma_flatten_index(chunks: Seq<Seq<u8>>, k: int, j: int)
    requires
        0 <= k < chunks.len(),
        0 <= j < chunks[k].len(),
    ensures
        chunks_len(chunks, k) + j < chunks.flatten().len(),
        chunks.flatten()[chunks_len(chunks, k) + j] == chunks[k][j],
    decreases k,
{
    let rest = chunks.drop_first();
    assert(chunks.flatten() == chunks[0] + rest.flatten());
    if k > 0 {
        lemma_flatten_index(rest, k - 1, j);
        lemma_chunks_len_monotonic(rest, k - 1, k - 1);
    }
}

/// Where a copy between two chunk sequences stands: the chunk and offset on
/// either side, how much may still be copied and how much was copied.
pub struct ChunkWalk {
    pub dest_chunk: nat,
    pub dest_offset: nat,
    pub src_chunk: nat,
    pub src_offset: nat,
    pub left: Option<nat>,
    pub total: nat,
}

/// The copy stops when nothing more may be copied or either side has no chunk
/// left (or stands outside its chunk).
pub open spec fn walk_done(dest: Seq<Seq<u8>>, src: Seq<Seq<u8>>, w: ChunkWalk) -> bool {
    ||| w.left == Some(0nat)
    ||| w.dest_chunk >= dest.len()
    ||| w.src_chunk >= src.len()
    ||| w.dest_offset > dest[w.dest_chunk as int].len()
    ||| w.src_offset > src[w.src_chunk as int].len()
}

/// One step of the copy: copy as much as fits into the current destination
/// chunk from the current source chunk, then move past a chunk that is used up.
pub open spec fn walk_step(dest: Seq<Seq<u8>>, src: Seq<Seq<u8>>, w: ChunkWalk) -> ChunkWalk {
    let dest_len = dest[w.dest_chunk as int].len();
    let src_len = src[w.src_chunk as int].len();
    let room = if dest_len - w.dest_offset <= src_len - w.src_offset {
        (dest_len - w.dest_offset) as nat
    } else {
        (src_len - w.src_offset) as nat
    };
    let n = match w.left {
        Some(a) => if a <= room {
            a
        } else {
            room
        },
        None => room,
    };
    let dest_offset = w.dest_offset + n;
    let src_offset = w.src_offset + n;
    ChunkWalk {
        dest_chunk: if dest_offset == dest_len {
            w.dest_chunk + 1
        } else {
            w.dest_chunk
        },
        dest_offset: if dest_offset == dest_len {
            0
        } else {
            dest_offset
        },
        src_chunk: if src_offset == src_len {
            w.src_chunk + 1
        } else {
            w.src_chunk
        },
        src_offset: if src_offset == src_len {
            0
        } else {
            src_offset
        },
        left: match w.left {
            Some(a) => Some((a - n) as nat),
            None => None,
        },
        total: w.total + n,
    }
}

/// What remains to be done of a copy, as a measure that every step lowers.
pub open spec fn walk_measure(dest: Seq<Seq<u8>>, src: Seq<Seq<u8>>, w: ChunkWalk) -> int {
    (dest.len() - w.dest_chunk) + (src.len() - w.src_chunk) + match w.left {
        Some(a) => if a > 0 {
            1int
        } else {
            0
        },
        None => 0,
    }
}

/// Where a copy that stands at `w` ends.
pub open spec fn walk(dest: Seq<Seq<u8>>, src: Seq<Seq<u8>>, w: ChunkWalk) -> ChunkWalk
    decreases walk_measure(dest, src, w),
{
    if walk_done(dest, src, w) {
        w
    } else {
        walk(dest, src, walk_step(dest, src, w))
    }
}

/// How many bytes are left in `chunks` from offset `offset` into chunk `k` on.
pub open spec fn chunks_left(chunks: Seq<Seq<u8>>, k: int, offset: int) -> int {
    if k >= chunks.len() {
        0
    } else {
        chunks_len(chunks, chunks.len() as int) - chunks_len(chunks, k) - offset
    }
}

/// Each side of the copy stands inside one of its chunks, or past the last.
pub open spec fn walk_wf(dest: Seq<Seq<u8>>, src: Seq<Seq<u8>>, w: ChunkWalk) -> bool {
    &&& w.dest_chunk <= dest.len()
    &&& w.src_chunk <= src.len()
    &&& w.dest_chunk < dest.len() ==> w.dest_offset <= dest[w.dest_chunk as int].len()
    &&& w.src_chunk < src.len() ==> w.src_offset <= src[w.src_chunk as int].len()
}

/// How many bytes a copy standing at `w` still copies: what is asked for, or
/// as much as both sides still hold, whichever is least.
pub open spec fn walk_amount(dest: Seq<Seq<u8>>, src: Seq<Seq<u8>>, w: ChunkWalk) -> int {
    let d = chunks_left(dest, w.dest_chunk as int, w.dest_offset as int);
    let s = chunks_left(src, w.src_chunk as int, w.src_offset as int);
    let both = if d <= s {
        d
    } else {
        s
    };
    match w.left {
        Some(a) => if a <= both {
            a as int
        } else {
            both
        },
        None => both,
    }
}

proof fn lemma_chunks_left_nonnegative(chunks: Seq<Seq<u8>>, k: int, offset: int)
    requires
        0 <= k,
        0 <= offset,
        k < chunks.len() ==> offset <= chunks[k].len(),
    ensures
        chunks_left(chunks, k, offset) >= 0,
{
    if k < chunks.len() {
        lemma_chunks_len_step(chunks, k);
        lemma_chunks_len_monotonic(chunks, k + 1, chunks.len() as int);
    }
}

/// A copy copies what is asked for, or as much as both sides hold, whichever
/// is least.
pub proof fn lemma_walk_total(dest: Seq<Seq<u8>>, src: Seq<Seq<u8>>, w: ChunkWalk)
    requires
        walk_wf(dest, src, w),
    ensures
        walk(dest, src, w).total == w.total + walk_amount(dest, src, w),
    decreases walk_measure(dest, src, w),
{
    lemma_chunks_left_nonnegative(dest, w.dest_chunk as int, w.dest_offset as int);
    lemma_chunks_left_nonnegative(src, w.src_chunk as int, w.src_offset as int);
    if !walk_done(dest, src, w) {
        let next = walk_step(dest, src, w);
        lemma_chunks_len_step(dest, w.dest_chunk as int);
        lemma_chunks_len_step(src, w.src_chunk as int);
        lemma_walk_total(dest, src, next);
    }
}

/// Byte `j` of destination chunk `i` once `total` bytes were copied to
/// position `dest_start` from position `src_start` of the concatenated source.
pub open spec fn copied_byte(
    dest: Seq<Seq<u8>>,
    dest_start: int,
    src: Seq<Seq<u8>>,
    src_start: int,
    total: int,
    i: int,
    j: int,
) -> u8 {
    let p = chunks_len(dest, i) + j;
    if dest_start <= p < dest_start + total {
        src.flatten()[src_start + (p - dest_start)]
    } else {
        dest[i][j]
    }
}

/// Chunk `i` of the destination holds the bytes the copy gives it.
pub open spec fn copied_chunk(
    chunk: Seq<u8>,
    dest: Seq<Seq<u8>>,
    dest_start: int,
    src: Seq<Seq<u8>>,
    src_start: int,
    total: int,
    i: int,
) -> bool {
    &&& chunk.len() == dest[i].len()
    &&& forall|j: int|
        0 <= j < chunk.len() ==> #[trigger] chunk[j] == copied_byte(
            dest,
            dest_start,
            src,
            src_start,
            total,
            i,
            j,
        )
}

/// Copying `n` more bytes into chunk `k`, where the copy stands, gives it the
/// bytes of the longer copy.
proof fn lemma_copy_into_chunk(
    dest: Seq<Seq<u8>>,
    d0: int,
    src: Seq<Seq<u8>>,
    s0: int,
    t: int,
    n: int,
    k: int,
    offset: int,
    sk: int,
    soffset: int,
    before: Seq<u8>,
    after: Seq<u8>,
)
    requires
        0 <= k < dest.len(),
        0 <= sk < src.len(),
        0 <= offset,
        0 <= soffset,
        0 <= n,
        0 <= t,
        offset + n <= dest[k].len(),
        soffset + n <= src[sk].len(),
        chunks_len(dest, k) + offset == d0 + t,
        chunks_len(src, sk) + soffset == s0 + t,
        copied_chunk(before, dest, d0, src, s0, t, k),
        after.len() == before.len(),
        forall|j: int|
            0 <= j < before.len() ==> #[trigger] after[j] == if offset <= j < offset + n {
                src[sk][soffset + j - offset]
            } else {
                before[j]
            },
    ensures
        copied_chunk(after, dest, d0, src, s0, t + n, k),
{
    assert forall|j: int| 0 <= j < after.len() implies #[trigger] after[j] == copied_byte(
        dest,
        d0,
        src,
        s0,
        t + n,
        k,
        j,
    ) by {
        assert(before[j] == copied_byte(dest, d0, src, s0, t, k, j));
        if offset <= j < offset + n {
            lemma_flatten_index(src, sk, soffset + j - offset);
        }
    }
}

/// A chunk before the one the copy stands in keeps its bytes as the copy goes on.
proof fn lemma_copied_before(
    dest: Seq<Seq<u8>>,
    d0: int,
    src: Seq<Seq<u8>>,
    s0: int,
    t: int,
    n: int,
    i: int,
    k: int,
    offset: int,
    chunk: Seq<u8>,
)
    requires
        0 <= i < k <= dest.len(),
        0 <= offset,
        0 <= n,
        chunks_len(dest, k) + offset == d0 + t,
        copied_chunk(chunk, dest, d0, src, s0, t, i),
    ensures
        copied_chunk(chunk, dest, d0, src, s0, t + n, i),
{
    lemma_chunks_len_step(dest, i);
    lemma_chunks_len_monotonic(dest, i + 1, k);
    assert forall|j: int| 0 <= j < chunk.len() implies #[trigger] chunk[j] == copied_byte(
        dest,
        d0,
        src,
        s0,
        t + n,
        i,
        j,
    ) by {
        assert(chunk[j] == copied_byte(dest, d0, src, s0, t, i, j));
    }
}

/// A chunk after the one the copy stands in still holds its own bytes.
proof fn lemma_copied_after(
    dest: Seq<Seq<u8>>,
    d0: int,
    src: Seq<Seq<u8>>,
    s0: int,
    t: int,
    k: int,
    offset: int,
    i: int,
)
    requires
        0 <= k < i < dest.len(),
        0 <= offset <= dest[k].len(),
        chunks_len(dest, k) + offset == d0 + t,
    ensures
        copied_chunk(dest[i], dest, d0, src, s0, t, i),
{
    lemma_chunks_len_step(dest, k);
    lemma_chunks_len_monotonic(dest, k + 1, i);
}

/// Copies bytes from `src` at `s` to `dst` at `d`, `n` of them.
pub(crate) fn copy_bytes(dst: &mut [u8], d: usize, src: &[u8], s: usize, n: usize)
    requires
        d + n <= old(dst)@.len(),
        s + n <= src@.len(),
    ensures
        final(dst)@.len() == old(dst)@.len(),
        forall|j: int|
            0 <= j < old(dst)@.len() ==> #[trigger] final(dst)@[j] == if d <= j < d + n {
                src@[s + j - d]
            } else {
                old(dst)@[j]
            },
{
    let dst_len = dst.len();
    let src_len = src.len();
    let mut i: usize = 0;
    while i < n
        invariant
            i <= n,
            dst_len == old(dst)@.len(),
            src_len == src@.len(),
            d + n <= old(dst)@.len(),
            s + n <= src@.len(),
            dst@.len() == old(dst)@.len(),
            forall|j: int|
                0 <= j < old(dst)@.len() ==> #[trigger] dst@[j] == if d <= j < d + i {
                    src@[s + j - d]
                } else {
                    old(dst)@[j]
                },
        decreases n - i,
    {
        dst[d + i] = src[s + i];
        i += 1;
    }
}

/// The bytes of each chunk.
pub open spec fn chunk_views<'a>(chunks: Seq<&'a [u8]>) -> Seq<Seq<u8>> {
    chunks.map_values(|c: &'a [u8]| c@)
}

/// The bytes each chunk holds now.
pub open spec fn mut_chunk_views<'a>(chunks: Seq<&'a mut [u8]>) -> Seq<Seq<u8>> {
    chunks.map_values(|c: &'a mut [u8]| c@)
}

/// A copy that starts at the given offsets into the first chunks.
pub open spec fn walk_start(dest_offset: usize, src_offset: usize, amount: Option<usize>) -> ChunkWalk {
    ChunkWalk {
        dest_chunk: 0,
        dest_offset: dest_offset as nat,
        src_chunk: 0,
        src_offset: src_offset as nat,
        left: match amount {
            Some(a) => Some(a as nat),
            None => None,
        },
        total: 0,
    }
}

/// Copies `amount` bytes from `source_chunks` to `destination_chunks`, or as
/// many as both hold if `amount` is `None`, starting at the given offsets into
/// their next chunks.
///
/// A chunk that is filled (or read) to its end is taken from its iterator;
/// the chunks the copy stopped in stay next, and the offsets are left where
/// the copy ended in them. Returns how many bytes were copied.
#[verifier::spinoff_prover]
#[verifier::rlimit(40)]
pub fn copy_chunks<'d, 's, D: Chunks<Item = &'d mut [u8]>, S: Chunks<Item = &'s [u8]>>(
    destination_chunks: &mut Peekable<D>,
    destination_offset: &mut usize,
    source_chunks: &mut Peekable<S>,
    source_offset: &mut usize,
    amount: Option<usize>,
) -> (r: Result<usize, CopyError>)
    requires
        old(destination_chunks).remaining().len() > 0 ==> *old(destination_offset)
            <= old(destination_chunks).remaining()[0]@.len(),
        old(source_chunks).remaining().len() > 0 ==> *old(source_offset) <= old(
            source_chunks,
        ).remaining()[0]@.len(),
        amount is None ==> chunks_len(
            mut_chunk_views(old(destination_chunks).remaining()),
            old(destination_chunks).remaining().len() as int,
        ) <= usize::MAX,
    ensures
        ({
            let dest = mut_chunk_views(old(destination_chunks).remaining());
            let src = chunk_views(old(source_chunks).remaining());
            let w = walk(dest, src, walk_start(*old(destination_offset), *old(source_offset), amount));
            &&& r == Ok::<usize, CopyError>(w.total as usize)
            &&& w.total == walk_amount(
                dest,
                src,
                walk_start(*old(destination_offset), *old(source_offset), amount),
            )
            &&& *final(destination_offset) == w.dest_offset
            &&& *final(source_offset) == w.src_offset
            &&& w.dest_chunk <= dest.len()
            &&& w.src_chunk <= src.len()
            &&& final(destination_chunks).remaining().len() == dest.len() - w.dest_chunk
            &&& final(source_chunks).remaining() == old(source_chunks).remaining().skip(
                w.src_chunk as int,
            )
            &&& chunks_len(dest, w.dest_chunk as int) + w.dest_offset == *old(destination_offset) + w.total
            &&& chunks_len(src, w.src_chunk as int) + w.src_offset == *old(source_offset) + w.total
            &&& forall|i: int|
                0 <= i < w.dest_chunk ==> copied_chunk(
                    final(old(destination_chunks).remaining()[i])@,
                    dest,
                    *old(destination_offset) as int,
                    src,
                    *old(source_offset) as int,
                    w.total as int,
                    i,
                )
            &&& forall|j: int|
                0 <= j < final(destination_chunks).remaining().len() ==> copied_chunk(
                    final(destination_chunks).remaining()[j]@,
                    dest,
                    *old(destination_offset) as int,
                    src,
                    *old(source_offset) as int,
                    w.total as int,
                    w.dest_chunk + j,
                )
            &&& forall|j: int|
                0 <= j < final(destination_chunks).remaining().len() ==> #[trigger] final(final(destination_chunks).remaining()[j])@ == final(old(destination_chunks).remaining()[w.dest_chunk + j])@
        }),
{
    let ghost ds = destination_chunks.remaining();
    let ghost ss = source_chunks.remaining();
    let ghost dest = mut_chunk_views(ds);
    let ghost src = chunk_views(ss);
    let ghost d0 = *destination_offset as int;
    let ghost s0 = *source_offset as int;
    let ghost w0 = walk_start(*destination_offset, *source_offset, amount);
    let ghost mut w = w0;
    let mut amount = amount;
    let mut total_copied: usize = 0;
    proof {
        assert(chunks_len(dest, 0) == 0);
        assert(chunks_len(src, 0) == 0);
        assert(ss.skip(0) =~= ss);
    }
    loop
        invariant
            dest == mut_chunk_views(ds),
            src == chunk_views(ss),
            0 <= d0,
            0 <= s0,
            w0.left matches Some(a) ==> a <= usize::MAX,
            walk(dest, src, w) == walk(dest, src, w0),
            w.dest_chunk <= dest.len(),
            w.src_chunk <= src.len(),
            destination_chunks.remaining().len() == dest.len() - w.dest_chunk,
            source_chunks.remaining() == ss.skip(w.src_chunk as int),
            *destination_offset == w.dest_offset,
            *source_offset == w.src_offset,
            total_copied == w.total,
            match amount {
                Some(a) => w.left == Some(a as nat) && w.total + a == w0.left->0,
                None => w.left is None && w0.left is None,
            },
            w.dest_chunk < dest.len() ==> w.dest_offset <= dest[w.dest_chunk as int].len(),
            w.src_chunk < src.len() ==> w.src_offset <= src[w.src_chunk as int].len(),
            chunks_len(dest, w.dest_chunk as int) + w.dest_offset == d0 + w.total,
            chunks_len(src, w.src_chunk as int) + w.src_offset == s0 + w.total,
            w0.left is None ==> chunks_len(dest, dest.len() as int) <= usize::MAX,
            forall|i: int|
                0 <= i < w.dest_chunk ==> copied_chunk(
                    final(ds[i])@,
                    dest,
                    d0,
                    src,
                    s0,
                    w.total as int,
                    i,
                ),
            forall|j: int|
                0 < j < destination_chunks.remaining().len() ==> destination_chunks.remaining()[j]
                    == ds[w.dest_chunk + j],
            destination_chunks.remaining().len() > 0 ==> copied_chunk(
                destination_chunks.remaining()[0]@,
                dest,
                d0,
                src,
                s0,
                w.total as int,
                w.dest_chunk as int,
            ) && final(destination_chunks.remaining()[0])@ == final(ds[w.dest_chunk as int])@,
        ensures
            walk_done(dest, src, w),
        decreases walk_measure(dest, src, w),
    {
        let stop = match amount {
            Some(a) => a == 0,
            None => false,
        };
        if stop {
            break;
        }
        let dest_peek = destination_chunks.peek_mut();
        let src_peek = source_chunks.peek();
        let dest_chunk = match dest_peek {
            Some(c) => c,
            None => {
                break;
            },
        };
        let src_chunk = match src_peek {
            Some(c) => c,
            None => {
                break;
            },
        };
        let dest_len = dest_chunk.len();
        let src_len = src_chunk.len();
        let dest_room = dest_len - *destination_offset;
        let src_room = src_len - *source_offset;
        let mut n = if dest_room <= src_room {
            dest_room
        } else {
            src_room
        };
        match amount {
            Some(a) => {
                if a < n {
                    n = a;
                }
                amount = Some(a - n);
            },
            None => {},
        }
        proof {
            lemma_chunks_len_step(dest, w.dest_chunk as int);
            lemma_chunks_len_step(src, w.src_chunk as int);
            lemma_chunks_len_monotonic(dest, w.dest_chunk + 1int, dest.len() as int);
        }
        let ghost chunk_before: Seq<u8> = (**dest_chunk)@;
        copy_bytes(dest_chunk, *destination_offset, src_chunk, *source_offset, n);
        proof {
            lemma_copy_into_chunk(
                dest,
                d0,
                src,
                s0,
                w.total as int,
                n as int,
                w.dest_chunk as int,
                w.dest_offset as int,
                w.src_chunk as int,
                w.src_offset as int,
                chunk_before,
                (**dest_chunk)@,
            );
            assert forall|i: int| 0 <= i < w.dest_chunk implies copied_chunk(
                final(ds[i])@,
                dest,
                d0,
                src,
                s0,
                w.total + n,
                i,
            ) by {
                lemma_copied_before(
                    dest,
                    d0,
                    src,
                    s0,
                    w.total as int,
                    n as int,
                    i,
                    w.dest_chunk as int,
                    w.dest_offset as int,
                    final(ds[i])@,
                );
            }
        }
        *destination_offset = *destination_offset + n;
        *source_offset = *source_offset + n;
        total_copied = total_copied + n;
        let dest_full = *destination_offset == dest_len;
        let src_full = *source_offset == src_len;
        if dest_full {
            let ghost k = w.dest_chunk as int;
            match destination_chunks.next() {
                Some(filled) => {
                    proof {
                        assert(copied_chunk(filled@, dest, d0, src, s0, w.total + n, k));
                        assert(final(filled)@ == final(ds[k])@);
                        assert(copied_chunk(final(ds[k])@, dest, d0, src, s0, w.total + n, k));
                    }
                },
                None => {},
            }
            *destination_offset = 0;
        }
        if src_full {
            let _finished = source_chunks.next();
            *source_offset = 0;
        }
        proof {
            w = walk_step(dest, src, w);
            if w.dest_chunk < dest.len() && dest_full {
                lemma_copied_after(
                    dest,
                    d0,
                    src,
                    s0,
                    w.total as int,
                    w.dest_chunk - 1,
                    dest[w.dest_chunk - 1].len() as int,
                    w.dest_chunk as int,
                );
            }
        }
    }
    proof {
        lemma_walk_total(dest, src, w0);
        assert(walk(dest, src, w) == w);
        let k = w.dest_chunk as int;
        let rem = destination_chunks.remaining();
        assert forall|j: int| 0 < j < rem.len() implies copied_chunk(
            rem[j]@,
            dest,
            d0,
            src,
            s0,
            w.total as int,
            k + j,
        ) by {
            lemma_copied_after(dest, d0, src, s0, w.total as int, k, w.dest_offset as int, k + j);
        }
    }
    Ok(total_copied)
}

} // verus!
