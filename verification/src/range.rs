//! Byte ranges with optional bounds, and their resolution against buffer
//! bounds.

use vstd::prelude::*;
use vstd::std_specs::convert::FromSpecImpl;
use vstd::std_specs::convert::IntoSpec;
use vstd::std_specs::range::RangeInclusiveView;

use core::ops::RangeBounds;

verus! {

/// A range of byte positions. A missing `start` means "from the beginning", a
/// missing `end` means "to the end". `end` is exclusive.
#[derive(Clone, Copy, PartialEq, Eq, Default, Debug)]
pub struct Range {
    pub start: Option<usize>,
    pub end: Option<usize>,
}

/// The error returned when a range does not fit into the bounds of a buffer.
#[derive(Clone, Copy, Debug, PartialEq, Eq)]
pub struct RangeOutOfBounds {
    pub required: Range,
    pub bounds: (usize, usize),
}

// Range types of `core::ops` that the conversions below accept. They are only
// carried through; their bounds are read by the accessors below.
#[verifier::external_type_specification]
#[verifier::external_body]
#[verifier::reject_recursive_types(Idx)]
pub struct ExRangeTo<Idx>(core::ops::RangeTo<Idx>);

#[verifier::external_type_specification]
#[verifier::external_body]
#[verifier::reject_recursive_types(Idx)]
pub struct ExRangeFrom<Idx>(core::ops::RangeFrom<Idx>);

#[verifier::external_type_specification]
#[verifier::external_body]
#[verifier::reject_recursive_types(Idx)]
pub struct ExRangeToInclusive<Idx>(core::ops::RangeToInclusive<Idx>);

#[verifier::external_type_specification]
#[verifier::external_body]
pub struct ExRangeFull(core::ops::RangeFull);

/// The `end` field of a `..end` range.
pub uninterp spec fn range_to_end(r: core::ops::RangeTo<usize>) -> usize;

/// The `start` field of a `start..` range.
pub uninterp spec fn range_from_start(r: core::ops::RangeFrom<usize>) -> usize;

/// The `end` field of a `..=end` range.
pub uninterp spec fn range_to_inclusive_end(r: core::ops::RangeToInclusive<usize>) -> usize;

/// Reads the public field `end` of a `core::ops::RangeTo`; the result is the
/// field as named by `range_to_end`.
#[verifier::external_body]
fn read_range_to_end(r: core::ops::RangeTo<usize>) -> (e: usize)
    ensures
        e == range_to_end(r),
{
    r.end
}

/// Reads the public field `start` of a `core::ops::RangeFrom`; the result is
/// the field as named by `range_from_start`.
#[verifier::external_body]
fn read_range_from_start(r: core::ops::RangeFrom<usize>) -> (s: usize)
    ensures
        s == range_from_start(r),
{
    r.start
}

/// Reads the public field `end` of a `core::ops::RangeToInclusive`; the
/// result is the field as named by `range_to_inclusive_end`.
#[verifier::external_body]
fn read_range_to_inclusive_end(r: core::ops::RangeToInclusive<usize>) -> (e: usize)
    ensures
        e == range_to_inclusive_end(r),
{
    r.end
}

/// Calls `RangeInclusive::into_inner`, which returns the two bounds the range
/// was built with (std documents it as returning `(start, end)`).
#[verifier::external_body]
fn range_inclusive_bounds(r: core::ops::RangeInclusive<usize>) -> (b: (usize, usize))
    ensures
        b.0 == r@.start,
        b.1 == r@.end,
{
    r.into_inner()
}

/// Whether a `start..=end` range, given by its view, has an end bound that
/// excludes `end`, as `RangeBounds::end_bound` reports it.
pub uninterp spec fn range_inclusive_end_excluded(r: RangeInclusiveView<usize>) -> bool;

/// Calls `RangeBounds::end_bound` on a `RangeInclusive`, and tells whether
/// the bound it returns is `Excluded` (an `Included` or `Unbounded` bound
/// gives `false`). The result is named by `range_inclusive_end_excluded`.
#[verifier::external_body]
fn range_inclusive_end_is_excluded(r: &core::ops::RangeInclusive<usize>) -> (b: bool)
    ensures
        b == range_inclusive_end_excluded(r@),
{
    match r.end_bound() {
        core::ops::Bound::Included(_) => false,
        core::ops::Bound::Excluded(_) => true,
        core::ops::Bound::Unbounded => false,
    }
}

/// The successor of `n` as a `usize`, wrapping around at the top (this is the
/// only way an inclusive bound of `usize::MAX` can be represented).
pub open spec fn succ(n: usize) -> usize {
    if n == usize::MAX { 0 } else { (n + 1) as usize }
}

fn succ_exec(n: usize) -> (r: usize)
    ensures
        r == succ(n),
{
    n.wrapping_add(1)
}

impl From<core::ops::Range<usize>> for Range {
    fn from(value: core::ops::Range<usize>) -> (r: Self) {
        Range { start: Some(value.start), end: Some(value.end) }
    }
}

impl FromSpecImpl<core::ops::Range<usize>> for Range {
    open spec fn obeys_from_spec() -> bool {
        true
    }

    open spec fn from_spec(v: core::ops::Range<usize>) -> Self {
        Range { start: Some(v.start), end: Some(v.end) }
    }
}

impl From<core::ops::RangeFrom<usize>> for Range {
    fn from(value: core::ops::RangeFrom<usize>) -> (r: Self) {
        Range { start: Some(read_range_from_start(value)), end: None }
    }
}

impl FromSpecImpl<core::ops::RangeFrom<usize>> for Range {
    open spec fn obeys_from_spec() -> bool {
        true
    }

    open spec fn from_spec(v: core::ops::RangeFrom<usize>) -> Self {
        Range { start: Some(range_from_start(v)), end: None }
    }
}

impl From<core::ops::RangeFull> for Range {
    fn from(value: core::ops::RangeFull) -> (r: Self) {
        Range { start: None, end: None }
    }
}

impl FromSpecImpl<core::ops::RangeFull> for Range {
    open spec fn obeys_from_spec() -> bool {
        true
    }

    open spec fn from_spec(v: core::ops::RangeFull) -> Self {
        Range { start: None, end: None }
    }
}

impl From<core::ops::RangeInclusive<usize>> for Range {
    fn from(value: core::ops::RangeInclusive<usize>) -> (r: Self) {
        let excluded = range_inclusive_end_is_excluded(&value);
        let (start, end) = range_inclusive_bounds(value);
        if excluded {
            Range { start: Some(start), end: Some(end) }
        } else {
            Range { start: Some(start), end: Some(succ_exec(end)) }
        }
    }
}

impl FromSpecImpl<core::ops::RangeInclusive<usize>> for Range {
    open spec fn obeys_from_spec() -> bool {
        true
    }

    open spec fn from_spec(v: core::ops::RangeInclusive<usize>) -> Self {
        if range_inclusive_end_excluded(v@) {
            Range { start: Some(v@.start), end: Some(v@.end) }
        } else {
            Range { start: Some(v@.start), end: Some(succ(v@.end)) }
        }
    }
}

impl From<core::ops::RangeTo<usize>> for Range {
    fn from(value: core::ops::RangeTo<usize>) -> (r: Self) {
        Range { start: None, end: Some(read_range_to_end(value)) }
    }
}

impl FromSpecImpl<core::ops::RangeTo<usize>> for Range {
    open spec fn obeys_from_spec() -> bool {
        true
    }

    open spec fn from_spec(v: core::ops::RangeTo<usize>) -> Self {
        Range { start: None, end: Some(range_to_end(v)) }
    }
}

impl From<core::ops::RangeToInclusive<usize>> for Range {
    fn from(value: core::ops::RangeToInclusive<usize>) -> (r: Self) {
        Range { start: None, end: Some(succ_exec(read_range_to_inclusive_end(value))) }
    }
}

impl FromSpecImpl<core::ops::RangeToInclusive<usize>> for Range {
    open spec fn obeys_from_spec() -> bool {
        true
    }

    open spec fn from_spec(v: core::ops::RangeToInclusive<usize>) -> Self {
        Range { start: None, end: Some(succ(range_to_inclusive_end(v))) }
    }
}

impl From<usize> for Range {
    fn from(value: usize) -> (r: Self) {
        Range { start: Some(value), end: Some(succ_exec(value)) }
    }
}

impl FromSpecImpl<usize> for Range {
    open spec fn obeys_from_spec() -> bool {
        true
    }

    open spec fn from_spec(v: usize) -> Self {
        Range { start: Some(v), end: Some(succ(v)) }
    }
}

impl<'a> From<&'a Range> for Range {
    fn from(value: &'a Range) -> (r: Self) {
        *value
    }
}

impl<'a> FromSpecImpl<&'a Range> for Range {
    open spec fn obeys_from_spec() -> bool {
        true
    }

    open spec fn from_spec(v: &'a Range) -> Self {
        *v
    }
}

impl From<(usize, usize)> for Range {
    fn from(value: (usize, usize)) -> (r: Self) {
        Range { start: Some(value.0), end: Some(value.1) }
    }
}

impl FromSpecImpl<(usize, usize)> for Range {
    open spec fn obeys_from_spec() -> bool {
        true
    }

    open spec fn from_spec(v: (usize, usize)) -> Self {
        Range { start: Some(v.0), end: Some(v.1) }
    }
}

/// What a range converts to, for a type whose conversion is specified.
pub open spec fn as_range<R: Into<Range>>(r: R) -> Range {
    r.into_spec()
}

/// Whether converting a value of type `R` into a [`Range`] is specified.
pub open spec fn converts<R: Into<Range>>() -> bool {
    R::obeys_into_spec()
}

/// Converts anything that can be turned into a [`Range`].
pub fn to_range<R: Into<Range>>(r: R) -> (out: Range)
    requires
        converts::<R>(),
    ensures
        out == as_range(r),
{
    r.into()
}

impl Range {
    /// The index where this range starts inside bounds starting at `start`.
    pub open spec fn spec_index_start(self, start: usize) -> int {
        match self.start {
            Some(s) => s + start,
            None => start as int,
        }
    }

    /// The index where this range ends inside bounds `start..end`, before
    /// clamping.
    pub open spec fn spec_index_end(self, start: usize, end: usize) -> int {
        match self.end {
            Some(e) => e + start,
            None => end as int,
        }
    }

    /// The sums that resolving the range inside bounds starting at `start`
    /// computes fit into a `usize`.
    pub open spec fn fits_in(self, start: usize) -> bool {
        &&& self.spec_index_start(start) <= usize::MAX
        &&& self.spec_index_end(start, 0) <= usize::MAX
    }

    /// The indices `indices_unchecked_in` returns.
    pub open spec fn spec_indices_unchecked(self, start: usize, end: usize) -> (usize, usize) {
        let s = self.spec_index_start(start);
        let e = self.spec_index_end(start, end);
        (s as usize, if e < s { s as usize } else { e as usize })
    }

    /// Whether the range resolves inside bounds `start..end`.
    pub open spec fn spec_in_bounds(self, start: usize, end: usize) -> bool {
        &&& self.start is Some ==> self.spec_index_start(start) <= end
        &&& self.end is Some ==> {
            &&& self.spec_index_end(start, end) <= end
            &&& self.spec_index_start(start) <= self.spec_index_end(start, end)
        }
    }

    /// Whether `self` contains `other`.
    pub open spec fn spec_contains(self, other: Range) -> bool {
        &&& !(self.start matches Some(l) && other.start matches Some(r) && l > r)
        &&& !(self.end matches Some(l) && other.end matches Some(r) && l < r)
    }

    /// Whether `self` contains the position `index`.
    pub open spec fn spec_contains_index(self, index: usize) -> bool {
        &&& !(self.start matches Some(s) && s > index)
        &&& !(self.end matches Some(e) && e < index)
    }

    /// The bounds of this range inside a slice of length `len`, if it fits.
    pub open spec fn spec_slice_bounds(self, len: nat) -> Option<(int, int)> {
        let s: int = match self.start {
            Some(s) => s as int,
            None => 0,
        };
        let e: int = match self.end {
            Some(e) => e as int,
            None => len as int,
        };
        if s <= e && e <= len {
            Some((s, e))
        } else {
            None
        }
    }

    /// Converts anything that converts into a [`Range`] in the same way as
    /// `Range::from` for bounds of `core::ops`.
    pub fn from_range_bounds<R: Into<Range>>(range: R) -> (r: Self)
        requires
            converts::<R>(),
        ensures
            r == as_range(range),
    {
        to_range(range)
    }

    pub fn with_start(self, start: usize) -> (r: Self)
        ensures
            r == (Range { start: Some(start), ..self }),
    {
        let mut this = self;
        this.start = Some(start);
        this
    }

    pub fn with_end(self, end: usize) -> (r: Self)
        ensures
            r == (Range { end: Some(end), ..self }),
    {
        let mut this = self;
        this.end = Some(end);
        this
    }

    /// Sets the end of the range to `start + length`.
    ///
    /// The range must have a start.
    pub fn with_length(self, length: usize) -> (r: Self)
        requires
            self.start is Some,
            self.start.unwrap() + length <= usize::MAX,
        ensures
            r == (Range { end: Some((self.start.unwrap() + length) as usize), ..self }),
    {
        let mut this = self;
        match self.start {
            Some(start) => {
                this.end = Some(start + length);
            },
            None => {},
        }
        this
    }

    /// Returns the portion of `slice` this range selects.
    pub fn slice_get<'a>(&self, slice: &'a [u8]) -> (r: Result<&'a [u8], RangeOutOfBounds>)
        ensures
            match self.spec_slice_bounds(slice@.len()) {
                Some((s, e)) => r matches Ok(v) && v@ == slice@.subrange(s, e),
                None => r == Err::<&[u8], _>(
                    RangeOutOfBounds { required: *self, bounds: (0, slice@.len() as usize) },
                ),
            },
    {
        let len = slice.len();
        let start = match self.start {
            Some(s) => s,
            None => 0,
        };
        let end = match self.end {
            Some(e) => e,
            None => len,
        };
        if start <= end && end <= len {
            Ok(vstd::slice::slice_subrange(slice, start, end))
        } else {
            Err(RangeOutOfBounds { required: *self, bounds: (0, len) })
        }
    }

    /// The part of `slice` in this range, to change it in place.
    pub fn slice_get_mut<'a>(&self, slice: &'a mut [u8]) -> (r: Result<&'a mut [u8], RangeOutOfBounds>)
        ensures
            match self.spec_slice_bounds(old(slice)@.len()) {
                Some((s, e)) => r matches Ok(v) && (*v)@ == old(slice)@.subrange(s, e)
                    && (*final(slice))@ == old(slice)@.subrange(0, s) + (*final(v))@
                    + old(slice)@.subrange(e, old(slice)@.len() as int),
                None => r == Err::<&mut [u8], _>(
                    RangeOutOfBounds { required: *self, bounds: (0, old(slice)@.len() as usize) },
                ) && (*final(slice))@ == old(slice)@,
            },
    {
        let len = slice.len();
        let start = match self.start {
            Some(s) => s,
            None => 0,
        };
        let end = match self.end {
            Some(e) => e,
            None => len,
        };
        if start <= end && end <= len {
            let (left, rest) = slice.split_at_mut(start);
            let (middle, right) = rest.split_at_mut(end - start);
            Ok(middle)
        } else {
            Err(RangeOutOfBounds { required: *self, bounds: (0, len) })
        }
    }

    /// Resolves this range inside the bounds `start..end`, without checking
    /// that it fits. A range whose end lies before its start is empty.
    pub fn indices_unchecked_in(&self, start: usize, end: usize) -> (r: (usize, usize))
        requires
            self.fits_in(start),
        ensures
            r == self.spec_indices_unchecked(start, end),
    {
        let index_start = match self.start {
            Some(s) => s + start,
            None => start,
        };
        let mut index_end = match self.end {
            Some(e) => e + start,
            None => end,
        };
        if index_end < index_start {
            index_end = index_start;
        }
        (index_start, index_end)
    }

    /// Resolves this range inside the bounds `start..end`. Fails if the range
    /// doesn't fit into the bounds, or ends before it starts.
    pub fn indices_checked_in(&self, start: usize, end: usize) -> (r: Result<
        (usize, usize),
        RangeOutOfBounds,
    >)
        requires
            self.fits_in(start),
        ensures
            self.spec_in_bounds(start, end) ==> r == Ok::<_, RangeOutOfBounds>(
                (
                    self.spec_index_start(start) as usize,
                    if self.end is Some {
                        self.spec_index_end(start, end) as usize
                    } else {
                        end
                    },
                ),
            ),
            !self.spec_in_bounds(start, end) ==> r == Err::<(usize, usize), _>(
                RangeOutOfBounds { required: *self, bounds: (start, end) },
            ),
    {
        let index_start = match self.start {
            Some(range_start) => {
                let index_start = range_start + start;
                if index_start > end {
                    return Err(RangeOutOfBounds { required: *self, bounds: (start, end) });
                }
                index_start
            },
            None => start,
        };
        let index_end = match self.end {
            Some(range_end) => {
                let index_end = range_end + start;
                if index_end > end {
                    return Err(RangeOutOfBounds { required: *self, bounds: (start, end) });
                }
                if index_end < index_start {
                    return Err(RangeOutOfBounds { required: *self, bounds: (start, end) });
                }
                index_end
            },
            None => end,
        };
        Ok((index_start, index_end))
    }

    /// The number of positions this range selects inside the bounds
    /// `start..end`.
    pub fn len_in(&self, start: usize, end: usize) -> (r: usize)
        requires
            self.fits_in(start),
        ensures
            r == self.spec_indices_unchecked(start, end).1 - self.spec_indices_unchecked(
                start,
                end,
            ).0,
    {
        let (s, e) = self.indices_unchecked_in(start, end);
        e - s
    }

    /// Whether `self` contains the range `other`.
    pub fn contains<R: Into<Range>>(&self, other: R) -> (r: bool)
        requires
            converts::<R>(),
        ensures
            r == self.spec_contains(as_range(other)),
    {
        let other = to_range(other);
        self.contains_range(&other)
    }

    /// Whether `self` contains the range `other`.
    pub fn contains_range(&self, other: &Range) -> (r: bool)
        ensures
            r == self.spec_contains(*other),
    {
        match (self.start, other.start) {
            (Some(left), Some(right)) => {
                if left > right {
                    return false;
                }
            },
            _ => {},
        }
        match (self.end, other.end) {
            (Some(left), Some(right)) => !(left < right),
            _ => true,
        }
    }

    /// Whether `other` contains `self`.
    pub fn contained_by<R: Into<Range>>(&self, other: R) -> (r: bool)
        requires
            converts::<R>(),
        ensures
            r == as_range(other).spec_contains(*self),
    {
        let other = to_range(other);
        other.contains_range(self)
    }

    /// Whether the position `index` lies in this range. Note that the end of
    /// the range counts as contained.
    pub fn contains_index(&self, index: usize) -> (r: bool)
        ensures
            r == self.spec_contains_index(index),
    {
        match self.start {
            Some(start) => {
                if start > index {
                    return false;
                }
            },
            None => {},
        }
        match self.end {
            Some(end) => !(end < index),
            None => true,
        }
    }
}

/// Every range contains itself.
pub proof fn lemma_contains_reflexive(r: Range)
    ensures
        r.spec_contains(r),
{
}

/// Containment of ranges is transitive.
pub proof fn lemma_contains_transitive(a: Range, b: Range, c: Range)
    requires
        a.spec_contains(b),
        b.spec_contains(c),
        b.start is Some || c.start is None,
        b.end is Some || c.end is None,
    ensures
        a.spec_contains(c),
{
}

/// The unbounded range contains every range.
pub proof fn lemma_full_contains_all(r: Range)
    ensures
        (Range { start: None, end: None }).spec_contains(r),
{
}

/// A range that resolves inside some bounds stays inside them, and the number
/// of positions it selects is what `len_in` reports.
pub proof fn lemma_checked_within_bounds(r: Range, start: usize, end: usize)
    requires
        r.fits_in(start),
        r.spec_in_bounds(start, end),
        start <= end,
    ensures
        ({
            let s = r.spec_index_start(start);
            let e = if r.end is Some { r.spec_index_end(start, end) } else { end as int };
            &&& start <= s <= e <= end
            &&& r.spec_indices_unchecked(start, end) == (s as usize, e as usize)
        }),
{
}

} // verus!
