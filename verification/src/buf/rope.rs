//! A buffer made of a sequence of other buffers.

use vstd::prelude::*;

use super::{Buf, Length};
use crate::range::{Range, RangeOutOfBounds, as_range, converts, to_range};

verus! {

/// A buffer in a rope, with the position of its first byte in the rope.
struct Segment<B> {
    offset: usize,
    buf: B,
}

/// The bytes of `segments`, one after the other.
spec fn segments_bytes<B: Buf>(segments: Seq<Segment<B>>) -> Seq<u8>
    decreases segments.len(),
{
    if segments.len() == 0 {
        Seq::empty()
    } else {
        segments_bytes(segments.drop_last()) + segments.last().buf.bytes()
    }
}

/// The bytes of a prefix of the segments are a prefix of the bytes of a
/// longer prefix.
proof fn lemma_prefix_bytes<B: Buf>(segments: Seq<Segment<B>>, k: int, j: int)
    requires
        0 <= k <= j <= segments.len(),
    ensures
        segments_bytes(segments.take(k)).len() <= segments_bytes(segments.take(j)).len(),
        segments_bytes(segments.take(j)).subrange(0, segments_bytes(segments.take(k)).len() as int)
            == segments_bytes(segments.take(k)),
    decreases j - k,
{
    if k < j {
        lemma_prefix_bytes(segments, k, j - 1);
        assert(segments.take(j).drop_last() =~= segments.take(j - 1));
        let a = segments_bytes(segments.take(j - 1));
        let b = segments_bytes(segments.take(j));
        assert(b == a + segments[j - 1].buf.bytes());
        assert(b.subrange(0, segments_bytes(segments.take(k)).len() as int) =~= a.subrange(
            0,
            segments_bytes(segments.take(k)).len() as int,
        ));
    } else {
        assert(segments_bytes(segments.take(j)).subrange(
            0,
            segments_bytes(segments.take(k)).len() as int,
        ) =~= segments_bytes(segments.take(k)));
    }
}

/// One more segment adds its bytes at the end.
proof fn lemma_take_next<B: Buf>(segments: Seq<Segment<B>>, i: int)
    requires
        0 <= i < segments.len(),
    ensures
        segments_bytes(segments.take(i + 1)) == segments_bytes(segments.take(i))
            + segments[i].buf.bytes(),
{
    assert(segments.take(i + 1).drop_last() =~= segments.take(i));
}

/// The bytes of a run of segments are the bytes of the segments before it
/// subtracted from those up to its end.
proof fn lemma_split_bytes<B: Buf>(segments: Seq<Segment<B>>, s: int, e: int)
    requires
        0 <= s <= e <= segments.len(),
    ensures
        segments_bytes(segments.take(e)) == segments_bytes(segments.take(s)) + segments_bytes(
            segments.subrange(s, e),
        ),
    decreases e - s,
{
    if e == s {
        assert(segments.subrange(s, e) =~= Seq::<Segment<B>>::empty());
        assert(segments_bytes(segments.take(s)) + Seq::<u8>::empty() =~= segments_bytes(
            segments.take(s),
        ));
    } else {
        lemma_split_bytes(segments, s, e - 1);
        lemma_take_next(segments, e - 1);
        assert(segments.subrange(s, e).drop_last() =~= segments.subrange(s, e - 1));
        let a = segments_bytes(segments.take(s));
        let b = segments_bytes(segments.subrange(s, e - 1));
        let c = segments[e - 1].buf.bytes();
        assert(a + b + c =~= a + (b + c));
    }
}

/// The segments are laid out one after the other from position `base` on:
/// each starts where the bytes of the ones before it end, none is empty, and
/// all of them together end within memory.
spec fn segments_wf<B: Buf>(segments: Seq<Segment<B>>, base: int) -> bool {
    &&& forall|i: int|
        0 <= i < segments.len() ==> #[trigger] segments[i].offset == base + segments_bytes(
            segments.take(i),
        ).len()
    &&& forall|i: int| 0 <= i < segments.len() ==> #[trigger] segments[i].buf.bytes().len() > 0
    &&& 0 <= base
    &&& base + segments_bytes(segments).len() <= usize::MAX
}

/// Where the first of `segments` starts.
spec fn segments_base<B>(segments: Seq<Segment<B>>) -> int {
    if segments.len() > 0 {
        segments[0].offset as int
    } else {
        0
    }
}

/// The end of the last segment is where all bytes end.
proof fn lemma_segments_end<B: Buf>(segments: Seq<Segment<B>>, base: int)
    requires
        segments_wf(segments, base),
        segments.len() > 0,
    ensures
        segments_base(segments) == base,
        segments.last().offset + segments.last().buf.bytes().len() == base + segments_bytes(
            segments,
        ).len(),
{
    let n = segments.len();
    assert(segments.take(0) =~= Seq::<Segment<B>>::empty());
    lemma_take_next(segments, n - 1);
    assert(segments.take(n as int) =~= segments);
}

/// A run of segments is laid out from where its first segment starts, and
/// holds the bytes between its ends.
proof fn lemma_sub_segments<B: Buf>(segments: Seq<Segment<B>>, base: int, s: int, e: int)
    requires
        segments_wf(segments, base),
        0 <= s <= e <= segments.len(),
    ensures
        segments_wf(segments.subrange(s, e), base + segments_bytes(segments.take(s)).len()),
        segments_bytes(segments.take(s)).len() <= segments_bytes(segments.take(e)).len()
            <= segments_bytes(segments).len(),
        segments_bytes(segments.subrange(s, e)) == segments_bytes(segments).subrange(
            segments_bytes(segments.take(s)).len() as int,
            segments_bytes(segments.take(e)).len() as int,
        ),
{
    let n = segments.len() as int;
    let sub = segments.subrange(s, e);
    let ps = segments_bytes(segments.take(s)).len() as int;
    lemma_split_bytes(segments, s, e);
    lemma_prefix_bytes(segments, e, n);
    lemma_prefix_bytes(segments, s, e);
    assert(segments.take(n) =~= segments);
    let whole = segments_bytes(segments);
    let upto = segments_bytes(segments.take(e));
    assert(whole.subrange(ps, upto.len() as int) =~= upto.subrange(ps, upto.len() as int));
    assert(upto.subrange(ps, upto.len() as int) =~= segments_bytes(sub));
    assert forall|i: int| 0 <= i < sub.len() implies {
        &&& #[trigger] sub[i].offset == base + ps + segments_bytes(sub.take(i)).len()
        &&& sub[i].buf.bytes().len() > 0
    } by {
        assert(sub[i] == segments[s + i]);
        lemma_split_bytes(segments, s, s + i);
        assert(sub.take(i) =~= segments.subrange(s, s + i));
    }
}

/// The segment i covers the bytes from its offset on.
proof fn lemma_segment_bytes<B: Buf>(segments: Seq<Segment<B>>, base: int, i: int)
    requires
        segments_wf(segments, base),
        0 <= i < segments.len(),
    ensures
        base <= segments[i].offset,
        segments[i].offset + segments[i].buf.bytes().len() <= base + segments_bytes(
            segments,
        ).len(),
        segments_bytes(segments).subrange(
            segments[i].offset - base,
            segments[i].offset - base + segments[i].buf.bytes().len(),
        ) == segments[i].buf.bytes(),
{
    let n = segments.len();
    lemma_take_next(segments, i);
    lemma_prefix_bytes(segments, i + 1, n as int);
    assert(segments.take(n as int) =~= segments);
    let upto = segments_bytes(segments.take(i + 1));
    let start = segments[i].offset - base;
    let seg = segments[i].buf.bytes();
    assert(upto.subrange(start, start + seg.len()) =~= seg);
    assert(segments_bytes(segments).subrange(start, start + seg.len()) =~= upto.subrange(
        start,
        start + seg.len(),
    ));
}

/// Later segments start further on.
proof fn lemma_segments_ordered<B: Buf>(segments: Seq<Segment<B>>, base: int, i: int, j: int)
    requires
        segments_wf(segments, base),
        0 <= i < j < segments.len(),
    ensures
        segments[i].offset + segments[i].buf.bytes().len() <= segments[j].offset,
{
    lemma_take_next(segments, i);
    lemma_prefix_bytes(segments, i + 1, j);
}

/// Whether segment `i` is the one to pick for `offset`: the one that holds the
/// byte at `offset`, or, if `end_spill_over` is not set, also the one that ends
/// at `offset`.
spec fn segment_matches<B: Buf>(
    segments: Seq<Segment<B>>,
    i: int,
    offset: int,
    end_spill_over: bool,
) -> bool {
    let start = segments[i].offset as int;
    let end = start + segments[i].buf.bytes().len();
    if end_spill_over {
        start <= offset < end
    } else {
        start <= offset <= end
    }
}

/// Finds the segment for `offset` by binary search. With `end_spill_over`,
/// that is the segment that holds the byte at `offset`, so an offset where one
/// segment ends and the next starts goes to the next; without it, a segment
/// that ends at `offset` is a match too.
fn find_segment<B: Buf>(segments: &[Segment<B>], offset: usize, end_spill_over: bool) -> (r: Option<
    usize,
>)
    requires
        segments_wf(segments@, segments_base(segments@)),
    ensures
        match r {
            Some(i) => i < segments@.len() && segment_matches(
                segments@,
                i as int,
                offset as int,
                end_spill_over,
            ),
            None => forall|i: int|
                0 <= i < segments@.len() ==> !segment_matches(
                    segments@,
                    i,
                    offset as int,
                    end_spill_over,
                ),
        },
        r is None ==> {
            ||| segments@.len() == 0
            ||| offset < segments_base(segments@)
            ||| end_spill_over && offset >= segments_base(segments@) + segments_bytes(
                segments@,
            ).len()
            ||| !end_spill_over && offset > segments_base(segments@) + segments_bytes(
                segments@,
            ).len()
        },
{
    let n = segments.len();
    let ghost segs = segments@;
    let ghost base = segments_base(segs);
    if n == 0 {
        return None;
    }
    proof {
        lemma_segments_end(segs, base);
        assert(segs[0].offset == base);
    }
    if offset < segments[0].offset {
        proof {
            assert forall|i: int| 0 <= i < n implies !segment_matches(
                segs,
                i,
                offset as int,
                end_spill_over,
            ) by {
                if i > 0 {
                    lemma_segments_ordered(segs, base, 0, i);
                }
            }
        }
        return None;
    }
    if !end_spill_over && offset == segments[0].offset {
        return Some(0);
    }
    // The segment to pick is the last one that starts at `key` or before.
    let key = if end_spill_over {
        offset
    } else {
        offset - 1
    };
    let mut lo: usize = 0;
    let mut hi: usize = n;
    while hi - lo > 1
        invariant
            segs == segments@,
            n == segs.len(),
            segments_wf(segs, base),
            lo < hi <= n,
            segs[lo as int].offset <= key,
            hi < n ==> key < segs[hi as int].offset,
        decreases hi - lo,
    {
        let mid = lo + (hi - lo) / 2;
        if segments[mid].offset <= key {
            lo = mid;
        } else {
            hi = mid;
        }
    }
    let segment = &segments[lo];
    proof {
        segment.buf.lemma_length();
        lemma_segment_bytes(segs, base, lo as int);
    }
    let end = segment.offset + segment.buf.len();
    let found = if end_spill_over {
        offset < end
    } else {
        offset <= end
    };
    if found {
        Some(lo)
    } else {
        proof {
            assert(hi == lo + 1);
            lemma_not_found(segs, base, lo as int, key as int, offset as int, end_spill_over);
        }
        None
    }
}

/// If the last segment that starts at `key` or before is no match, no segment
/// is, and `offset` lies past the end of the segments.
proof fn lemma_not_found<B: Buf>(
    segments: Seq<Segment<B>>,
    base: int,
    lo: int,
    key: int,
    offset: int,
    end_spill_over: bool,
)
    requires
        segments_wf(segments, base),
        0 <= lo < segments.len(),
        segments[lo].offset <= key,
        lo + 1 < segments.len() ==> key < segments[lo + 1].offset,
        key == if end_spill_over {
            offset
        } else {
            offset - 1
        },
        !segment_matches(segments, lo, offset, end_spill_over),
    ensures
        forall|i: int|
            0 <= i < segments.len() ==> !segment_matches(segments, i, offset, end_spill_over),
        lo + 1 == segments.len(),
        end_spill_over ==> offset >= base + segments_bytes(segments).len(),
        !end_spill_over ==> offset > base + segments_bytes(segments).len(),
{
    let n = segments.len() as int;
    if lo + 1 < n {
        lemma_take_next(segments, lo);
        assert(segments[lo + 1].offset == segments[lo].offset + segments[lo].buf.bytes().len());
    }
    lemma_segments_end(segments, base);
    assert forall|i: int| 0 <= i < n implies !segment_matches(
        segments,
        i,
        offset,
        end_spill_over,
    ) by {
        if i < lo {
            lemma_segments_ordered(segments, base, i, lo);
        }
    }
}

/// Where a range of bytes starts and ends in a run of segments: the segments
/// and the offsets into them.
struct SegmentBounds {
    start_segment: usize,
    start_offset: usize,
    end_segment: usize,
    end_offset: usize,
}

/// The segments and offsets in them at which the bytes from `start` to `end`
/// start and end, or `None` if the range is empty.
fn segment_bounds_unchecked<B: Buf>(segments: &[Segment<B>], start: usize, end: usize) -> (r:
    Option<SegmentBounds>)
    requires
        segments_wf(segments@, segments_base(segments@)),
        segments_base(segments@) <= start <= end <= segments_base(segments@) + segments_bytes(
            segments@,
        ).len(),
    ensures
        start == end <==> r is None,
        r matches Some(b) ==> {
            &&& b.start_segment <= b.end_segment < segments@.len()
            &&& segments@[b.start_segment as int].offset + b.start_offset == start
            &&& b.start_offset < segments@[b.start_segment as int].buf.bytes().len()
            &&& segments@[b.end_segment as int].offset + b.end_offset == end
            &&& b.end_offset <= segments@[b.end_segment as int].buf.bytes().len()
            &&& b.start_segment == b.end_segment ==> b.start_offset < b.end_offset
        },
{
    if start == end {
        None
    } else {
        let ghost segs = segments@;
        let ghost base = segments_base(segs);
        let start_segment = match find_segment(segments, start, true) {
            Some(i) => i,
            None => {
                proof {
                    assert(false);
                }
                return None;
            },
        };
        let start_offset = start - segments[start_segment].offset;
        let n = segments.len();
        let rest = vstd::slice::slice_subrange(segments, start_segment, n);
        proof {
            lemma_sub_segments(segs, base, start_segment as int, n as int);
            assert(rest@ =~= segs.subrange(start_segment as int, n as int));
            lemma_segments_end(segs, base);
            assert(segs.take(start_segment as int).len() == start_segment);
            lemma_segment_bytes(segs, base, start_segment as int);
            assert(segs[start_segment as int].offset == base + segments_bytes(
                segs.take(start_segment as int),
            ).len());
            assert(segs.take(n as int) =~= segs);
            lemma_segments_end(rest@, segments_base(rest@));
        }
        let found = find_segment(rest, end, false);
        let end_segment = match found {
            Some(i) => i + start_segment,
            None => {
                proof {
                    assert(false);
                }
                return None;
            },
        };
        let end_offset = end - segments[end_segment].offset;
        proof {
            assert(rest@[end_segment - start_segment] == segs[end_segment as int]);
        }
        Some(SegmentBounds { start_segment, start_offset, end_segment, end_offset })
    }
}

/// A run of segments laid out one after the other, with a view starting at
/// `start_offset` into the first and ending at `end_offset` into the last; an
/// empty run has both offsets zero.
spec fn view_wf<B: Buf>(segments: Seq<Segment<B>>, start_offset: int, end_offset: int) -> bool {
    &&& segments_wf(segments, segments_base(segments))
    &&& segments.len() == 0 ==> start_offset == 0 && end_offset == 0
    &&& segments.len() > 0 ==> {
        &&& 0 <= start_offset < segments[0].buf.bytes().len()
        &&& 0 <= end_offset <= segments.last().buf.bytes().len()
        &&& segments.len() == 1 ==> start_offset < end_offset
    }
}

/// Where a view ends in the bytes of its segments.
spec fn view_end<B: Buf>(segments: Seq<Segment<B>>, end_offset: int) -> int {
    segments_bytes(segments).len() - segments.last().buf.bytes().len() + end_offset
}

/// The run of segments from `s` to `e`, from `start_offset` into the first to
/// `end_offset` into the last, holds the bytes from `start` to `end`.
proof fn lemma_view_bytes<B: Buf>(
    segments: Seq<Segment<B>>,
    base: int,
    s: int,
    e: int,
    start_offset: int,
    end_offset: int,
    start: int,
    end: int,
)
    requires
        segments_wf(segments, base),
        0 <= s <= e < segments.len(),
        segments[s].offset + start_offset == start,
        segments[e].offset + end_offset == end,
        0 <= start_offset,
        0 <= end_offset <= segments[e].buf.bytes().len(),
        start <= end,
        start_offset < segments[s].buf.bytes().len(),
        s == e ==> start_offset < end_offset,
    ensures
        view_wf(segments.subrange(s, e + 1), start_offset, end_offset),
        start_offset <= view_end(segments.subrange(s, e + 1), end_offset) <= segments_bytes(
            segments.subrange(s, e + 1),
        ).len(),
        segments_bytes(segments.subrange(s, e + 1)).subrange(
            start_offset,
            view_end(segments.subrange(s, e + 1), end_offset),
        ) == segments_bytes(segments).subrange(start - base, end - base),
{
    let sub = segments.subrange(s, e + 1);
    lemma_sub_segments(segments, base, s, e + 1);
    lemma_take_next(segments, e);
    lemma_prefix_bytes(segments, s, e);
    let ps = segments_bytes(segments.take(s)).len() as int;
    assert(sub[0] == segments[s]);
    assert(sub.last() == segments[e]);
    let whole = segments_bytes(segments);
    let part = segments_bytes(sub);
    let sub_end = part.len() - sub.last().buf.bytes().len() + end_offset;
    assert(part.subrange(start_offset, sub_end) =~= whole.subrange(start - base, end - base));
}

/// A view of the bytes from `start` to `end` of the segments.
fn view_unchecked<'b, B: Buf>(segments: &'b [Segment<B>], start: usize, end: usize) -> (r: RopeView<
    'b,
    B,
>)
    requires
        segments_wf(segments@, segments_base(segments@)),
        segments_base(segments@) <= start <= end <= segments_base(segments@) + segments_bytes(
            segments@,
        ).len(),
    ensures
        r.bytes() == segments_bytes(segments@).subrange(
            start - segments_base(segments@),
            end - segments_base(segments@),
        ),
{
    let ghost segs = segments@;
    let ghost base = segments_base(segs);
    match segment_bounds_unchecked(segments, start, end) {
        Some(bounds) => {
            let s = bounds.start_segment;
            let e = bounds.end_segment;
            let _count = segments.len();
            let sub = vstd::slice::slice_subrange(segments, s, e + 1);
            proof {
                lemma_view_bytes(
                    segs,
                    base,
                    s as int,
                    e as int,
                    bounds.start_offset as int,
                    bounds.end_offset as int,
                    start as int,
                    end as int,
                );
            }
            let view = RopeView {
                segments: sub,
                start_offset: bounds.start_offset,
                end_offset: bounds.end_offset,
            };
            proof {
                view.lemma_bytes_in(segs, base, s as int, e as int, start as int, end as int);
            }
            view
        },
        None => {
            let view = RopeView { segments: &[], start_offset: 0, end_offset: 0 };
            proof {
                assert(view.segments@ =~= Seq::<Segment<B>>::empty());
                assert(view.bytes() =~= segments_bytes(segs).subrange(start - base, end - base));
            }
            view
        },
    }
}

/// The longest run of bytes of the segments that one segment holds in one
/// piece, starting at `offset` and ending at `end` at the latest.
fn chunk_in<'a, B: Buf>(segments: &'a [Segment<B>], offset: usize, end: usize) -> (c: &'a [u8])
    requires
        segments_wf(segments@, segments_base(segments@)),
        segments_base(segments@) <= offset < end <= segments_base(segments@) + segments_bytes(
            segments@,
        ).len(),
    ensures
        c@.len() > 0,
        offset + c@.len() <= end,
        c@ == segments_bytes(segments@).subrange(
            offset - segments_base(segments@),
            offset - segments_base(segments@) + c@.len(),
        ),
{
    let ghost base = segments_base(segments@);
    let i = match find_segment(segments, offset, true) {
        Some(i) => i,
        None => {
            proof {
                assert(false);
            }
            return &[];
        },
    };
    let segment = &segments[i];
    let c = segment.buf.chunk_at(offset - segment.offset);
    proof {
        lemma_segment_bytes(segments@, base, i as int);
        let whole = segments_bytes(segments@);
        let start = segment.offset - base;
        let seg = segment.buf.bytes();
        let o = offset - segment.offset;
        assert(whole.subrange(offset - base, offset - base + c@.len()) =~= seg.subrange(
            o,
            o + c@.len(),
        ));
    }
    if c.len() <= end - offset {
        c
    } else {
        let t = vstd::slice::slice_subrange(c, 0, end - offset);
        proof {
            let whole = segments_bytes(segments@);
            assert(t@ =~= whole.subrange(offset - base, offset - base + t@.len()));
        }
        t
    }
}

/// A buffer made of a sequence of other buffers, one after the other. Only
/// buffers that aren't empty are kept as segments.
pub struct Rope<B: Buf> {
    segments: Vec<Segment<B>>,
}

impl<B: Buf> Rope<B> {
    #[verifier::type_invariant]
    closed spec fn inv(self) -> bool {
        segments_wf(self.segments@, 0)
    }

    /// The buffers of the rope, in order.
    pub closed spec fn spec_segments(self) -> Seq<Seq<u8>> {
        self.segments@.map_values(|s: Segment<B>| s.buf.bytes())
    }

    /// Creates an empty rope.
    pub fn new() -> (r: Self)
        ensures
            r.bytes() == Seq::<u8>::empty(),
            r.spec_segments() == Seq::<Seq<u8>>::empty(),
    {
        Self::with_capacity(0)
    }

    /// Creates an empty rope with room for `capacity` segments.
    pub fn with_capacity(capacity: usize) -> (r: Self)
        ensures
            r.bytes() == Seq::<u8>::empty(),
            r.spec_segments() == Seq::<Seq<u8>>::empty(),
    {
        let r = Rope { segments: Vec::with_capacity(capacity) };
        assert(r.spec_segments() =~= Seq::<Seq<u8>>::empty());
        r
    }

    /// The number of segments.
    pub fn num_segments(&self) -> (n: usize)
        ensures
            n == self.spec_segments().len(),
    {
        self.segments.len()
    }

    /// Appends `segment` to the rope. An empty buffer is not kept.
    pub fn push(&mut self, segment: B)
        requires
            old(self).bytes().len() + segment.bytes().len() <= usize::MAX,
        ensures
            (*final(self)).bytes() == old(self).bytes() + segment.bytes(),
            (*final(self)).spec_segments() == if segment.bytes().len() == 0 {
                old(self).spec_segments()
            } else {
                old(self).spec_segments().push(segment.bytes())
            },
    {
        proof {
            use_type_invariant(&*self);
            segment.lemma_length();
        }
        if !segment.is_empty() {
            let offset = self.len();
            let mut segments: Vec<Segment<B>> = Vec::new();
            std::mem::swap(&mut segments, &mut self.segments);
            let ghost before = segments@;
            segments.push(Segment { offset, buf: segment });
            proof {
                assert(segments@.drop_last() =~= before);
                assert forall|i: int| 0 <= i < segments@.len() implies segments@[i].offset
                    == segments_bytes(segments@.take(i)).len() by {
                    if i < before.len() {
                        assert(segments@.take(i) =~= before.take(i));
                    } else {
                        assert(segments@.take(i) =~= before);
                    }
                }
                assert(segments@.map_values(|s: Segment<B>| s.buf.bytes()) =~= before.map_values(
                    |s: Segment<B>| s.buf.bytes(),
                ).push(segment.bytes()));
            }
            self.segments = segments;
        } else {
            assert(old(self).bytes() + segment.bytes() =~= old(self).bytes());
        }
    }

    /// A view of the bytes of the rope in `range`.
    pub fn view<R: Into<Range>>(&self, range: R) -> (r: Result<RopeView<'_, B>, RangeOutOfBounds>)
        requires
            converts::<R>(),
        ensures
            match as_range(range).spec_slice_bounds(self.bytes().len()) {
                Some((s, e)) => r matches Ok(v) && v.bytes() == self.bytes().subrange(s, e),
                None => r == Err::<RopeView<'_, B>, _>(
                    RangeOutOfBounds {
                        required: as_range(range),
                        bounds: (0, self.bytes().len() as usize),
                    },
                ),
            },
    {
        proof {
            use_type_invariant(self);
            if self.segments@.len() > 0 {
                lemma_segments_end(self.segments@, 0);
            }
        }
        let range = to_range(range);
        let len = self.len();
        match range.indices_checked_in(0, len) {
            Ok((start, end)) => Ok(view_unchecked(self.segments.as_slice(), start, end)),
            Err(e) => Err(e),
        }
    }
}

impl<B: Buf> Length for Rope<B> {
    closed spec fn length(&self) -> nat {
        segments_bytes(self.segments@).len()
    }

    fn len(&self) -> (n: usize) {
        proof {
            use_type_invariant(self);
        }
        let k = self.segments.len();
        if k == 0 {
            0
        } else {
            let last = &self.segments[k - 1];
            proof {
                lemma_segments_end(self.segments@, 0);
                last.buf.lemma_length();
            }
            last.offset + last.buf.len()
        }
    }
}

impl<B: Buf> Buf for Rope<B> {
    closed spec fn bytes(&self) -> Seq<u8> {
        segments_bytes(self.segments@)
    }

    proof fn lemma_length(&self) {
    }

    fn chunk_at(&self, offset: usize) -> (c: &[u8]) {
        proof {
            use_type_invariant(self);
            if self.segments@.len() > 0 {
                lemma_segments_end(self.segments@, 0);
            }
        }
        let n = self.len();
        chunk_in(self.segments.as_slice(), offset, n)
    }
}

/// A view of a range of the bytes of a [`Rope`]: the segments it touches, the
/// offset into the first at which it starts and the offset into the last at
/// which it ends.
pub struct RopeView<'b, B: Buf> {
    segments: &'b [Segment<B>],
    start_offset: usize,
    end_offset: usize,
}

impl<'b, B: Buf> RopeView<'b, B> {
    #[verifier::type_invariant]
    closed spec fn inv(self) -> bool {
        view_wf(self.segments@, self.start_offset as int, self.end_offset as int)
    }

    /// A view of the run of `segments` from `s` to `e` holds the bytes from
    /// `start` to `end` of them.
    proof fn lemma_bytes_in(
        self,
        segments: Seq<Segment<B>>,
        base: int,
        s: int,
        e: int,
        start: int,
        end: int,
    )
        requires
            segments_wf(segments, base),
            0 <= s <= e < segments.len(),
            self.segments@ == segments.subrange(s, e + 1),
            segments[s].offset + self.start_offset == start,
            segments[e].offset + self.end_offset == end,
            self.end_offset <= segments[e].buf.bytes().len(),
            start <= end,
            self.start_offset < segments[s].buf.bytes().len(),
            s == e ==> self.start_offset < self.end_offset,
        ensures
            self.bytes() == segments_bytes(segments).subrange(start - base, end - base),
    {
        lemma_view_bytes(
            segments,
            base,
            s,
            e,
            self.start_offset as int,
            self.end_offset as int,
            start,
            end,
        );
    }

    /// Where the bytes of the view end in the bytes of its segments.
    closed spec fn spec_end(self) -> int {
        view_end(self.segments@, self.end_offset as int)
    }

    /// A view of the bytes of this view in `range`.
    pub fn view<R: Into<Range>>(&self, range: R) -> (r: Result<RopeView<'b, B>, RangeOutOfBounds>)
        requires
            converts::<R>(),
        ensures
            match as_range(range).spec_slice_bounds(self.bytes().len()) {
                Some((s, e)) => r matches Ok(v) && v.bytes() == self.bytes().subrange(s, e),
                None => r == Err::<RopeView<'b, B>, _>(
                    RangeOutOfBounds {
                        required: as_range(range),
                        bounds: (0, self.bytes().len() as usize),
                    },
                ),
            },
    {
        proof {
            use_type_invariant(self);
        }
        let range = to_range(range);
        let len = self.len();
        match range.indices_checked_in(0, len) {
            Ok((start, end)) => {
                if self.segments.len() == 0 {
                    let v = RopeView { segments: self.segments, start_offset: 0, end_offset: 0 };
                    assert(v.bytes() =~= self.bytes().subrange(start as int, end as int));
                    return Ok(v);
                }
                let ghost segs = self.segments@;
                let ghost base = segments_base(segs);
                proof {
                    lemma_segments_end(segs, base);
                    lemma_segment_bytes(segs, base, segs.len() - 1);
                    assert(base == segs[0].offset);
                    if segs.len() > 1 {
                        lemma_segments_ordered(segs, base, 0, segs.len() - 1);
                    }
                    assert(len == self.spec_end() - self.start_offset);
                }
                let first_offset = self.segments[0].offset;
                let v = view_unchecked(
                    self.segments,
                    start + first_offset + self.start_offset,
                    end + first_offset + self.start_offset,
                );
                proof {
                    let whole = segments_bytes(segs);
                    assert(v.bytes() =~= self.bytes().subrange(start as int, end as int));
                }
                Ok(v)
            },
            Err(e) => Err(e),
        }
    }
}

impl<'b, B: Buf> Length for RopeView<'b, B> {
    closed spec fn length(&self) -> nat {
        let segs = self.segments@;
        if segs.len() > 0 && self.start_offset <= self.spec_end() <= segments_bytes(segs).len() {
            (self.spec_end() - self.start_offset) as nat
        } else {
            0
        }
    }

    fn len(&self) -> (n: usize) {
        proof {
            use_type_invariant(self);
        }
        let k = self.segments.len();
        if k == 0 {
            0
        } else {
            let first = &self.segments[0];
            let last = &self.segments[k - 1];
            proof {
                let segs = self.segments@;
                let base = segments_base(segs);
                lemma_segments_end(segs, base);
                lemma_segment_bytes(segs, base, k - 1);
                last.buf.lemma_length();
                if k > 1 {
                    lemma_segments_ordered(segs, base, 0, k - 1);
                    first.buf.lemma_length();
                }
            }
            last.offset - first.offset + self.end_offset - self.start_offset
        }
    }
}

impl<'b, B: Buf> Buf for RopeView<'b, B> {
    closed spec fn bytes(&self) -> Seq<u8> {
        let segs = self.segments@;
        if segs.len() > 0 && self.start_offset <= self.spec_end() <= segments_bytes(segs).len() {
            segments_bytes(segs).subrange(self.start_offset as int, self.spec_end())
        } else {
            Seq::empty()
        }
    }

    proof fn lemma_length(&self) {
    }

    fn chunk_at(&self, offset: usize) -> (c: &[u8]) {
        proof {
            use_type_invariant(self);
        }
        let ghost segs = self.segments@;
        let ghost base = segments_base(segs);
        let k = self.segments.len();
        proof {
            lemma_segments_end(segs, base);
            lemma_segment_bytes(segs, base, k - 1);
        }
        let first = &self.segments[0];
        let last = &self.segments[k - 1];
        let c = chunk_in(
            self.segments,
            first.offset + self.start_offset + offset,
            last.offset + self.end_offset,
        );
        proof {
            let whole = segments_bytes(segs);
            assert(c@ =~= self.bytes().subrange(offset as int, offset + c@.len()));
        }
        c
    }
}

} // verus!
