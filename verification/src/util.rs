//! Helpers: comparing buffers, and adapters for chunk iterators.

use vstd::prelude::*;

use crate::buf::chunks::{Chunks, ChunksBack, SingleChunkMut};
use crate::buf::Buf;

verus! {

/// The item in `o`, as a sequence of none or one items.
pub open spec fn opt_seq<T>(o: Option<T>) -> Seq<T> {
    match o {
        Some(x) => seq![x],
        None => Seq::empty(),
    }
}

/// Whether two buffers hold the same bytes, whatever chunks they hold them
/// in.
pub fn buf_eq<L: Buf, R: Buf>(left: L, right: R) -> (b: bool)
    ensures
        b == (left.bytes() == right.bytes()),
{
    proof {
        left.lemma_length();
        right.lemma_length();
    }
    let n = left.len();
    if n != right.len() {
        proof {
            if left.bytes() == right.bytes() {
                assert(false);
            }
        }
        return false;
    }
    let mut offset: usize = 0;
    while offset < n
        invariant
            n == left.bytes().len(),
            n == right.bytes().len(),
            offset <= n,
            left.bytes().subrange(0, offset as int) == right.bytes().subrange(0, offset as int),
        decreases n - offset,
    {
        let l = left.chunk_at(offset);
        let r = right.chunk_at(offset);
        let k = if l.len() < r.len() { l.len() } else { r.len() };
        let mut i: usize = 0;
        while i < k
            invariant
                n == left.bytes().len(),
                n == right.bytes().len(),
                k <= l@.len(),
                k <= r@.len(),
                offset + l@.len() <= n,
                offset + r@.len() <= n,
                l@ == left.bytes().subrange(offset as int, offset + l@.len()),
                r@ == right.bytes().subrange(offset as int, offset + r@.len()),
                i <= k,
                left.bytes().subrange(0, offset + i) == right.bytes().subrange(0, offset + i),
            decreases k - i,
        {
            if l[i] != r[i] {
                proof {
                    assert(left.bytes()[offset + i] == l@[i as int]);
                    assert(right.bytes()[offset + i] == r@[i as int]);
                    if left.bytes() == right.bytes() {
                        assert(false);
                    }
                }
                return false;
            }
            proof {
                assert(left.bytes()[offset + i] == l@[i as int]);
                assert(right.bytes()[offset + i] == r@[i as int]);
                assert(left.bytes().subrange(0, offset + i + 1) =~= left.bytes().subrange(
                    0,
                    offset + i,
                ).push(left.bytes()[offset + i]));
                assert(right.bytes().subrange(0, offset + i + 1) =~= right.bytes().subrange(
                    0,
                    offset + i,
                ).push(right.bytes()[offset + i]));
            }
            i += 1;
        }
        offset += k;
    }
    assert(left.bytes() =~= left.bytes().subrange(0, n as int));
    assert(right.bytes() =~= right.bytes().subrange(0, n as int));
    true
}

/// A chunk iterator that can look at its next item from either end without
/// taking it.
pub struct Peekable<I: Chunks> {
    pub inner: I,
    pub peeked: Option<I::Item>,
    pub peeked_back: Option<I::Item>,
}

impl<I: Chunks> Peekable<I> {
    /// Wraps `inner`, with nothing peeked yet.
    pub fn new(inner: I) -> (r: Self)
        ensures
            r.inner == inner,
            r.peeked is None,
            r.peeked_back is None,
            r.remaining() == inner.remaining(),
    {
        let r = Peekable { inner, peeked: None, peeked_back: None };
        assert(r.remaining() =~= inner.remaining());
        r
    }

    /// Returns the next item without taking it.
    pub fn peek(&mut self) -> (r: Option<&I::Item>)
        ensures
            (*final(self)).remaining() == old(self).remaining(),
            old(self).remaining().len() > 0 ==> (r matches Some(x) && *x == old(
                self,
            ).remaining()[0]),
            old(self).remaining().len() == 0 ==> r is None,
    {
        self.peek_inner();
        match &self.peeked {
            Some(x) => Some(x),
            None => match &self.peeked_back {
                Some(x) => Some(x),
                None => None,
            },
        }
    }

    /// Returns the next item without taking it, to change it in place.
    pub fn peek_mut(&mut self) -> (r: Option<&mut I::Item>)
        ensures
            old(self).remaining().len() > 0 ==> (r matches Some(x) && *x == old(self).remaining()[0]
                && (*final(self)).remaining() == old(self).remaining().update(0, *final(x))),
            old(self).remaining().len() == 0 ==> r is None && (*final(self)).remaining() == old(
                self,
            ).remaining(),
    {
        self.peek_inner();
        if self.peeked.is_some() {
            match &mut self.peeked {
                Some(x) => Some(x),
                None => None,
            }
        } else {
            match &mut self.peeked_back {
                Some(x) => Some(x),
                None => None,
            }
        }
    }

    /// Takes the next item of the inner iterator into the peek slot, if that
    /// is empty.
    fn peek_inner(&mut self)
        ensures
            (*final(self)).remaining() == old(self).remaining(),
            (*final(self)).peeked_back == old(self).peeked_back,
            (*final(self)).peeked is None ==> (*final(self)).inner.remaining().len() == 0,
    {
        if self.peeked.is_none() {
            let ghost before = self.inner.remaining();
            self.peeked = self.inner.next();
            proof {
                if before.len() > 0 {
                    assert(before =~= seq![before[0]] + before.drop_first());
                }
                assert(self.remaining() =~= old(self).remaining());
            }
        }
    }
}

impl<'a> Peekable<SingleChunkMut<'a>> {
    /// Once the iterator is done with, so are the chunks it still holds,
    /// peeked or not: what each holds then is what it holds at the end.
    pub proof fn lemma_resolved(self)
        ensures
            has_resolved(self) ==> forall|i: int|
                0 <= i < self.remaining().len() ==> final(#[trigger] self.remaining()[i])@
                    == self.remaining()[i]@,
    {
        if has_resolved(self) {
            assert(has_resolved(self.peeked));
            assert(has_resolved(self.inner));
            assert(has_resolved(self.peeked_back));
            self.inner.lemma_resolved();
            if let Some(c) = self.peeked {
                assert(has_resolved(c));
            }
            if let Some(c) = self.peeked_back {
                assert(has_resolved(c));
            }
            let a = opt_seq(self.peeked);
            let b = self.inner.remaining();
            assert forall|i: int| 0 <= i < self.remaining().len()
                implies final(#[trigger] self.remaining()[i])@ == self.remaining()[i]@ by {
                if i < a.len() {
                    assert(self.remaining()[i] == a[i]);
                } else if i < a.len() + b.len() {
                    assert(self.remaining()[i] == b[i - a.len()]);
                } else {
                    assert(self.remaining()[i] == opt_seq(self.peeked_back)[i - a.len() - b.len()]);
                }
            }
        }
    }
}

impl<I: Chunks> Chunks for Peekable<I> {
    type Item = I::Item;

    open spec fn remaining(&self) -> Seq<I::Item> {
        opt_seq(self.peeked) + self.inner.remaining() + opt_seq(self.peeked_back)
    }

    fn next(&mut self) -> (r: Option<I::Item>) {
        let ghost before = self.remaining();
        let mut peeked = None;
        std::mem::swap(&mut peeked, &mut self.peeked);
        match peeked {
            Some(x) => {
                assert(self.remaining() =~= before.drop_first());
                Some(x)
            },
            None => {
                let ghost inner_before = self.inner.remaining();
                match self.inner.next() {
                    Some(x) => {
                        assert(self.remaining() =~= before.drop_first());
                        Some(x)
                    },
                    None => {
                        let mut back = None;
                        std::mem::swap(&mut back, &mut self.peeked_back);
                        assert(self.remaining() =~= before.drop_first() || before.len() == 0);
                        proof {
                            if before.len() > 0 {
                                assert(self.remaining() =~= before.drop_first());
                            } else {
                                assert(self.remaining() =~= before);
                            }
                        }
                        back
                    },
                }
            },
        }
    }
}

impl<I: ChunksBack> Peekable<I> {
    /// Returns the last item without taking it.
    pub fn peek_back(&mut self) -> (r: Option<&I::Item>)
        ensures
            (*final(self)).remaining() == old(self).remaining(),
            old(self).remaining().len() > 0 ==> (r matches Some(x) && *x == old(
                self,
            ).remaining().last()),
            old(self).remaining().len() == 0 ==> r is None,
    {
        self.peek_back_inner();
        match &self.peeked_back {
            Some(x) => Some(x),
            None => match &self.peeked {
                Some(x) => Some(x),
                None => None,
            },
        }
    }

    /// Returns the last item without taking it, to change it in place.
    pub fn peek_back_mut(&mut self) -> (r: Option<&mut I::Item>)
        ensures
            old(self).remaining().len() > 0 ==> (r matches Some(x) && *x == old(self).remaining().last()
                && (*final(self)).remaining() == old(self).remaining().update(
                old(self).remaining().len() - 1,
                *final(x),
            )),
            old(self).remaining().len() == 0 ==> r is None && (*final(self)).remaining() == old(
                self,
            ).remaining(),
    {
        self.peek_back_inner();
        if self.peeked_back.is_some() {
            match &mut self.peeked_back {
                Some(x) => Some(x),
                None => None,
            }
        } else {
            match &mut self.peeked {
                Some(x) => Some(x),
                None => None,
            }
        }
    }

    /// Takes the last item of the inner iterator into the back peek slot, if
    /// that is empty.
    fn peek_back_inner(&mut self)
        ensures
            (*final(self)).remaining() == old(self).remaining(),
            (*final(self)).peeked == old(self).peeked,
            (*final(self)).peeked_back is None ==> (*final(self)).inner.remaining().len() == 0,
    {
        if self.peeked_back.is_none() {
            let ghost before = self.inner.remaining();
            self.peeked_back = self.inner.next_back();
            proof {
                if before.len() > 0 {
                    assert(before =~= before.drop_last() + seq![before.last()]);
                }
                assert(self.remaining() =~= old(self).remaining());
            }
        }
    }
}

impl<I: ChunksBack> ChunksBack for Peekable<I> {
    fn next_back(&mut self) -> (r: Option<I::Item>) {
        let ghost before = self.remaining();
        let mut peeked_back = None;
        std::mem::swap(&mut peeked_back, &mut self.peeked_back);
        match peeked_back {
            Some(x) => {
                assert(self.remaining() =~= before.drop_last());
                Some(x)
            },
            None => {
                match self.inner.next_back() {
                    Some(x) => {
                        assert(self.remaining() =~= before.drop_last());
                        Some(x)
                    },
                    None => {
                        let mut front = None;
                        std::mem::swap(&mut front, &mut self.peeked);
                        proof {
                            if before.len() > 0 {
                                assert(self.remaining() =~= before.drop_last());
                            } else {
                                assert(self.remaining() =~= before);
                            }
                        }
                        front
                    },
                }
            },
        }
    }
}

/// A function applied to each item of a [`MapIter`].
pub trait MapFunc<T> {
    type Output;

    /// What the function gives for `input`.
    spec fn spec_map(&self, input: T) -> Self::Output;

    /// Applies the function to `input`.
    fn map(&mut self, input: T) -> (r: Self::Output)
        ensures
            r == old(self).spec_map(input),
            forall|x: T| #[trigger] (*final(self)).spec_map(x) == old(self).spec_map(x),
    ;
}

/// A chunk iterator that applies a function to each item of another.
pub struct MapIter<I, M> {
    inner: I,
    map: M,
}

impl<I, M> MapIter<I, M> {
    /// The iterator whose items are mapped.
    pub closed spec fn spec_inner(&self) -> I {
        self.inner
    }

    /// The function applied to the items.
    pub closed spec fn spec_map_func(&self) -> M {
        self.map
    }

    /// Applies `map` to each item of `inner`.
    pub fn new(inner: I, map: M) -> (r: Self)
        ensures
            r.spec_inner() == inner,
            r.spec_map_func() == map,
    {
        MapIter { inner, map }
    }
}

impl<I: Chunks, M: MapFunc<I::Item>> Chunks for MapIter<I, M> {
    type Item = M::Output;

    closed spec fn remaining(&self) -> Seq<M::Output> {
        self.inner.remaining().map_values(|x: I::Item| self.map.spec_map(x))
    }

    fn next(&mut self) -> (r: Option<M::Output>) {
        let ghost before = self.remaining();
        match self.inner.next() {
            Some(item) => {
                let out = self.map.map(item);
                assert(self.remaining() =~= before.drop_first());
                Some(out)
            },
            None => {
                assert(self.remaining() =~= before);
                None
            },
        }
    }
}

/// A chunk iterator that keeps count of how many items are left, starting
/// from a count it is given.
pub struct ExactSizeIter<I> {
    inner: I,
    exact_size: usize,
}

impl<I> ExactSizeIter<I> {
    /// The iterator whose items are counted.
    pub closed spec fn spec_inner(&self) -> I {
        self.inner
    }

    /// How many items are said to be left.
    pub closed spec fn spec_exact_size(&self) -> usize {
        self.exact_size
    }

    /// Wraps `inner`, which is said to have `exact_size` items.
    pub fn new(inner: I, exact_size: usize) -> (r: Self)
        ensures
            r.spec_inner() == inner,
            r.spec_exact_size() == exact_size,
    {
        ExactSizeIter { inner, exact_size }
    }

    /// The number of items left, as the count says.
    pub fn size_hint(&self) -> (r: (usize, Option<usize>))
        ensures
            r == (self.spec_exact_size(), Some(self.spec_exact_size())),
    {
        (self.exact_size, Some(self.exact_size))
    }
}

impl<I: Chunks> ExactSizeIter<I> {
    /// The items left are those left in the wrapped iterator.
    pub proof fn lemma_items(&self)
        ensures
            self.remaining() == self.spec_inner().remaining(),
    {
    }
}

impl<I: Chunks> Chunks for ExactSizeIter<I> {
    type Item = I::Item;

    closed spec fn remaining(&self) -> Seq<I::Item> {
        self.inner.remaining()
    }

    /// Takes an item, counting it off. The count stays at 0 once there.
    fn next(&mut self) -> (r: Option<I::Item>)
        ensures
            (*final(self)).spec_exact_size() == if old(self).remaining().len() > 0 {
                if old(self).spec_exact_size() > 0 {
                    (old(self).spec_exact_size() - 1) as usize
                } else {
                    0
                }
            } else {
                old(self).spec_exact_size()
            },
            old(self).spec_exact_size() == old(self).remaining().len() ==> (*final(self)).spec_exact_size()
                == (*final(self)).remaining().len(),
    {
        match self.inner.next() {
            Some(item) => {
                self.exact_size = self.exact_size.saturating_sub(1);
                Some(item)
            },
            None => None,
        }
    }
}

impl<I: ChunksBack> ChunksBack for ExactSizeIter<I> {
    /// Takes the last item, counting it off. The count stays at 0 once there.
    fn next_back(&mut self) -> (r: Option<I::Item>)
        ensures
            (*final(self)).spec_exact_size() == if old(self).remaining().len() > 0 {
                if old(self).spec_exact_size() > 0 {
                    (old(self).spec_exact_size() - 1) as usize
                } else {
                    0
                }
            } else {
                old(self).spec_exact_size()
            },
            old(self).spec_exact_size() == old(self).remaining().len() ==> (*final(self)).spec_exact_size()
                == (*final(self)).remaining().len(),
    {
        match self.inner.next_back() {
            Some(item) => {
                self.exact_size = self.exact_size.saturating_sub(1);
                Some(item)
            },
            None => None,
        }
    }
}

/// An item of an [`IsEndIter`], with whether it is the first and whether it
/// is the last.
#[derive(Debug)]
pub struct IsEnd<T> {
    pub is_start: bool,
    pub is_end: bool,
    pub item: T,
}

/// A chunk iterator that tells, with each item, whether it is the first or
/// the last.
pub struct IsEndIter<I: Chunks> {
    inner: Peekable<I>,
    iterated_from_start: bool,
    iterated_from_end: bool,
}

impl<I: Chunks> IsEndIter<I> {
    /// Wraps `inner`.
    pub fn new(inner: I) -> (r: Self)
        ensures
            r.remaining() == Seq::new(
                inner.remaining().len(),
                |i: int|
                    IsEnd {
                        is_start: i == 0,
                        is_end: i == inner.remaining().len() - 1,
                        item: inner.remaining()[i],
                    },
            ),
    {
        let r = IsEndIter {
            inner: Peekable::new(inner),
            iterated_from_end: false,
            iterated_from_start: false,
        };
        assert(r.remaining() =~= Seq::new(
            inner.remaining().len(),
            |i: int|
                IsEnd {
                    is_start: i == 0,
                    is_end: i == inner.remaining().len() - 1,
                    item: inner.remaining()[i],
                },
        ));
        r
    }
}

impl<I: Chunks> Chunks for IsEndIter<I> {
    type Item = IsEnd<I::Item>;

    closed spec fn remaining(&self) -> Seq<IsEnd<I::Item>> {
        let items = self.inner.remaining();
        Seq::new(
            items.len(),
            |i: int|
                IsEnd {
                    is_start: i == 0 && !self.iterated_from_start,
                    is_end: i == items.len() - 1 && !self.iterated_from_end,
                    item: items[i],
                },
        )
    }

    fn next(&mut self) -> (r: Option<IsEnd<I::Item>>) {
        let ghost before = self.remaining();
        let ghost items = self.inner.remaining();
        match self.inner.next() {
            Some(item) => {
                let is_start = !self.iterated_from_start;
                let is_end = !self.iterated_from_end && self.inner.peek().is_none();
                self.iterated_from_start = true;
                assert(self.remaining() =~= before.drop_first());
                Some(IsEnd { is_start, is_end, item })
            },
            None => {
                assert(self.remaining() =~= before);
                None
            },
        }
    }
}

impl<I: ChunksBack> ChunksBack for IsEndIter<I> {
    fn next_back(&mut self) -> (r: Option<IsEnd<I::Item>>) {
        let ghost before = self.remaining();
        match self.inner.next_back() {
            Some(item) => {
                let is_end = !self.iterated_from_end;
                let is_start = !self.iterated_from_start && self.inner.peek_back().is_none();
                self.iterated_from_end = true;
                assert(self.remaining() =~= before.drop_last());
                Some(IsEnd { is_start, is_end, item })
            },
            None => {
                assert(self.remaining() =~= before);
                None
            },
        }
    }
}

} // verus!
