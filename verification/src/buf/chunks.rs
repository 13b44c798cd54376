//! Iteration over the chunks of a buffer.

use vstd::prelude::*;

use super::Length;

verus! {

/// Iterates over a single chunk.
#[derive(Debug)]
pub struct SingleChunk<'a> {
    chunk: Option<&'a [u8]>,
}

impl<'a> SingleChunk<'a> {
    /// The bytes of the chunks this iterator has yet to return.
    pub open spec fn remaining_bytes(&self) -> Seq<Seq<u8>> {
        self.remaining().map_values(|c: &'a [u8]| c@)
    }

    pub fn new(chunk: &'a [u8]) -> (r: Self)
        ensures
            r.remaining() == seq![chunk],
            r.remaining_bytes() == seq![chunk@],
    {
        let r = SingleChunk { chunk: Some(chunk) };
        assert(r.remaining_bytes() =~= seq![chunk@]);
        r
    }
}

impl<'a> Chunks for SingleChunk<'a> {
    type Item = &'a [u8];

    closed spec fn remaining(&self) -> Seq<&'a [u8]> {
        match self.chunk {
            Some(c) => seq![c],
            None => Seq::empty(),
        }
    }

    /// Returns the chunk, the first time it is called.
    fn next(&mut self) -> (r: Option<&'a [u8]>) {
        let r = self.chunk;
        self.chunk = None;
        proof {
            if old(self).remaining().len() > 0 {
                assert(old(self).remaining().drop_first() =~= Seq::<&'a [u8]>::empty());
            }
        }
        r
    }
}

impl<'a> ChunksBack for SingleChunk<'a> {
    /// Returns the chunk, the first time it is called.
    fn next_back(&mut self) -> (r: Option<&'a [u8]>) {
        let r = self.chunk;
        self.chunk = None;
        proof {
            if old(self).remaining().len() > 0 {
                assert(old(self).remaining().drop_last() =~= Seq::<&'a [u8]>::empty());
            }
        }
        r
    }
}

/// Iterates over a single mutable chunk.
#[derive(Debug)]
pub struct SingleChunkMut<'a> {
    chunk: Option<&'a mut [u8]>,
}

impl<'a> SingleChunkMut<'a> {
    pub fn new(chunk: &'a mut [u8]) -> (r: Self)
        ensures
            r.remaining().len() == 1,
            r.remaining()[0]@ == old(chunk)@,
            final(r.remaining()[0])@ == final(chunk)@,
    {
        SingleChunkMut { chunk: Some(chunk) }
    }
}

impl<'a> SingleChunkMut<'a> {
    /// Once the iterator is done with, so is the chunk it still holds: what
    /// the chunk holds then is what it holds at the end.
    pub proof fn lemma_resolved(self)
        ensures
            has_resolved(self) ==> forall|i: int|
                0 <= i < self.remaining().len() ==> final(#[trigger] self.remaining()[i])@ == self.remaining()[i]@,
    {
        if has_resolved(self) {
            if let Some(c) = self.chunk {
                assert(has_resolved(self.chunk));
                assert(has_resolved(c));
            }
        }
    }
}

impl<'a> Chunks for SingleChunkMut<'a> {
    type Item = &'a mut [u8];

    closed spec fn remaining(&self) -> Seq<&'a mut [u8]> {
        match self.chunk {
            Some(c) => seq![c],
            None => Seq::empty(),
        }
    }

    /// Returns the chunk, the first time it is called.
    fn next(&mut self) -> (r: Option<&'a mut [u8]>) {
        let mut r = None;
        std::mem::swap(&mut r, &mut self.chunk);
        proof {
            if old(self).remaining().len() > 0 {
                assert(old(self).remaining().drop_first() =~= Seq::<&'a mut [u8]>::empty());
            }
        }
        r
    }
}

/// Something that yields items one at a time.
pub trait Chunks {
    type Item;

    /// The items that are yet to be returned.
    spec fn remaining(&self) -> Seq<Self::Item>;

    /// Returns the next item, if any.
    fn next(&mut self) -> (r: Option<Self::Item>)
        ensures
            old(self).remaining().len() > 0 ==> r == Some(old(self).remaining()[0])
                && (*final(self)).remaining() == old(self).remaining().drop_first(),
            old(self).remaining().len() == 0 ==> r is None && (*final(self)).remaining()
                == old(self).remaining(),
    ;
}

/// Something that yields items one at a time, from either end.
pub trait ChunksBack: Chunks {
    /// Returns the last item, if any.
    fn next_back(&mut self) -> (r: Option<Self::Item>)
        ensures
            old(self).remaining().len() > 0 ==> r == Some(old(self).remaining().last())
                && (*final(self)).remaining() == old(self).remaining().drop_last(),
            old(self).remaining().len() == 0 ==> r is None && (*final(self)).remaining()
                == old(self).remaining(),
    ;
}

/// The items of `items` that are not empty.
pub open spec fn non_empty<T: Length>(items: Seq<T>) -> Seq<T> {
    items.filter(|t: T| t.length() > 0)
}

/// How many empty items `items` starts with.
pub open spec fn leading_empty<T: Length>(items: Seq<T>) -> nat
    decreases items.len(),
{
    if items.len() == 0 || items[0].length() > 0 {
        0
    } else {
        1 + leading_empty(items.drop_first())
    }
}

/// Iterator wrapper that skips empty items.
#[derive(Debug)]
pub struct NonEmpty<I> {
    inner: I,
}

impl<I> NonEmpty<I> {
    pub closed spec fn spec_inner(&self) -> I {
        self.inner
    }

    pub fn new(inner: I) -> (r: Self)
        ensures
            r.spec_inner() == inner,
    {
        NonEmpty { inner }
    }

    pub fn into_inner(self) -> (r: I)
        ensures
            r == self.spec_inner(),
    {
        self.inner
    }
}

impl<T: Length, I: Chunks<Item = T>> NonEmpty<I> {
    /// Returns the next item of the inner iterator that is not empty, taking
    /// the empty ones before it; or nothing if only empty items are left.
    pub fn next(&mut self) -> (r: Option<T>)
        ensures
            ({
                let rem = old(self).spec_inner().remaining();
                let k = leading_empty(rem);
                &&& k <= rem.len()
                &&& k < rem.len() ==> r == Some(rem[k as int])
                    && (*final(self)).spec_inner().remaining() == rem.skip(k + 1int)
                &&& k == rem.len() ==> r is None
                    && (*final(self)).spec_inner().remaining() == rem.skip(k as int)
            }),
    {
        let ghost rem = self.inner.remaining();
        let ghost mut i: int = 0;
        proof {
            assert(rem.skip(0) =~= rem);
            lemma_leading_empty_bound(rem);
        }
        loop
            invariant
                rem == old(self).spec_inner().remaining(),
                0 <= i <= leading_empty(rem),
                leading_empty(rem) <= rem.len(),
                self.inner.remaining() == rem.skip(i),
                leading_empty(rem.skip(i)) == leading_empty(rem) - i,
            decreases rem.len() - i,
        {
            let ghost before = self.inner.remaining();
            match self.inner.next() {
                None => {
                    proof {
                        assert(before.len() == 0);
                        assert(leading_empty(before) == 0);
                    }
                    return None;
                },
                Some(item) => {
                    proof {
                        assert(before.drop_first() =~= rem.skip(i + 1));
                        assert(before[0] == rem[i]);
                        assert(before.len() > 0);
                        if before[0].length() > 0 {
                            assert(leading_empty(before) == 0);
                        } else {
                            assert(leading_empty(before) == 1 + leading_empty(before.drop_first()));
                        }
                    }
                    if !item.is_empty() {
                        return Some(item);
                    }
                    proof {
                        i = i + 1;
                    }
                },
            }
        }
    }
}

/// Items are never fewer than the empty items they start with.
proof fn lemma_leading_empty_bound<T: Length>(items: Seq<T>)
    ensures
        leading_empty(items) <= items.len(),
    decreases items.len(),
{
    if items.len() > 0 {
        lemma_leading_empty_bound(items.drop_first());
    }
}

/// Wrapper for chunk iterators that also tracks the current offset.
#[derive(Debug)]
pub struct WithOffset<I> {
    inner: I,
    offset: usize,
}

impl<I> WithOffset<I> {
    pub closed spec fn spec_inner(&self) -> I {
        self.inner
    }

    pub closed spec fn spec_offset(&self) -> usize {
        self.offset
    }

    pub fn new(inner: I) -> (r: Self)
        ensures
            r.spec_inner() == inner,
            r.spec_offset() == 0,
    {
        Self::with_offset(inner, 0)
    }

    pub fn with_offset(inner: I, offset: usize) -> (r: Self)
        ensures
            r.spec_inner() == inner,
            r.spec_offset() == offset,
    {
        WithOffset { inner, offset }
    }

    /// The offset at which the next chunk starts.
    pub fn offset(&self) -> (r: usize)
        ensures
            r == self.spec_offset(),
    {
        self.offset
    }

    pub fn into_inner(self) -> (r: I)
        ensures
            r == self.spec_inner(),
    {
        self.inner
    }
}

/// The chunks of `items` each with the offset at which it starts, the first
/// starting at `offset` and each following on from the one before.
pub open spec fn with_offsets<T: Length>(items: Seq<T>, offset: int) -> Seq<(int, T)>
    decreases items.len(),
{
    if items.len() == 0 {
        Seq::empty()
    } else {
        seq![(offset, items[0])] + with_offsets(items.drop_first(), offset + items[0].length())
    }
}

impl<T: Length, I: Chunks<Item = T>> WithOffset<I> {
    /// What is left to yield: the chunks left in the wrapped iterator, each
    /// with the offset at which it starts. Each call of `next` takes the
    /// first of them off, so a whole run yields `with_offsets` of the chunks,
    /// starting at the offset the wrapper was made with.
    pub open spec fn spec_yields(&self) -> Seq<(int, T)> {
        with_offsets(self.spec_inner().remaining(), self.spec_offset() as int)
    }

    /// Returns the next chunk together with the offset at which it starts.
    pub fn next(&mut self) -> (r: Option<(usize, T)>)
        requires
            old(self).spec_inner().remaining().len() > 0 ==> old(self).spec_offset() + old(self).spec_inner().remaining()[0].length() <= usize::MAX,
        ensures
            old(self).spec_inner().remaining().len() > 0 ==> {
                &&& r == Some((old(self).spec_offset(), old(self).spec_inner().remaining()[0]))
                &&& (*final(self)).spec_offset() == old(self).spec_offset() + old(self).spec_inner().remaining()[0].length()
                &&& (*final(self)).spec_inner().remaining() == old(self).spec_inner().remaining().drop_first()
            },
            old(self).spec_inner().remaining().len() == 0 ==> r is None && (*final(self)).spec_offset() == old(self).spec_offset(),
            r matches Some(x) ==> old(self).spec_yields() == seq![(x.0 as int, x.1)] + (*final(self)).spec_yields(),
            r is None ==> old(self).spec_yields() == Seq::<(int, T)>::empty(),
    {
        match self.inner.next() {
            None => None,
            Some(chunk) => {
                let offset = self.offset;
                self.offset = offset + chunk.len();
                Some((offset, chunk))
            },
        }
    }
}

} // verus!
