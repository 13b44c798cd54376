//! Allocation of equally-sized buffers that are reused once they are no
//! longer referred to.

use vstd::prelude::*;

use super::arc_buf::{ArcBufMut, Reclaim};
use super::Buf;

verus! {

/// How many buffers a slab has in use and available after a `get` that
/// found no buffer available and `found` in-use buffers free, out of
/// `in_use`: with none free, a new buffer is added to those in use; otherwise
/// the first free one is handed out again, and the others leave those in use,
/// up to `reuse_count` of them being kept available.
pub open spec fn spec_reuse_outcome(in_use: nat, found: nat, reuse_count: usize) -> (nat, nat) {
    if found == 0 {
        (in_use + 1, 0)
    } else {
        (
            (in_use - (found - 1)) as nat,
            if found - 1 <= reuse_count {
                (found - 1) as nat
            } else {
                reuse_count as nat
            },
        )
    }
}

/// How many of `checked` are `Some`.
pub open spec fn num_found<T>(checked: Seq<Option<T>>) -> nat
    decreases checked.len(),
{
    if checked.len() == 0 {
        0
    } else {
        num_found(checked.drop_last()) + if checked.last() is Some {
            1nat
        } else {
            0nat
        }
    }
}

proof fn lemma_num_found_step<T>(checked: Seq<Option<T>>, k: int)
    requires
        0 <= k < checked.len(),
    ensures
        num_found(checked.take(k + 1)) == num_found(checked.take(k)) + if checked[k] is Some {
            1nat
        } else {
            0nat
        },
{
    assert(checked.take(k + 1).drop_last() =~= checked.take(k));
}

proof fn lemma_num_found_bound<T>(checked: Seq<Option<T>>)
    ensures
        num_found(checked) <= checked.len(),
    decreases checked.len(),
{
    if checked.len() > 0 {
        lemma_num_found_bound(checked.drop_last());
    }
}

/// Efficient allocation of equally-sized buffers.
pub struct Slab {
    buf_size: usize,
    reuse_count: usize,
    in_use: Vec<Reclaim>,
    available: Vec<(Reclaim, ArcBufMut)>,
    next_id: Ghost<int>,
}

/// Adding a buffer in use of the slab's size and with an identity given out
/// before keeps each buffer of the slab right.
#[verifier::spinoff_prover]
proof fn lemma_slots_push_in_use(s: Slab, t: Slab, x: Reclaim)
    requires
        s.slots_ok(),
        t.in_use@ == s.in_use@.push(x),
        t.available@ == s.available@,
        t.buf_size == s.buf_size,
        s.next_id@ <= t.next_id@,
        x.spec_capacity() == s.buf_size,
        0 <= x.spec_id() < t.next_id@,
    ensures
        t.slots_ok(),
{
    assert forall|i: int| #![trigger t.in_use@[i]] 0 <= i < t.in_use@.len() implies (t.in_use@[i].spec_capacity()
        == t.buf_size && 0 <= t.in_use@[i].spec_id() && t.in_use@[i].spec_id() < t.next_id@) by {
        let y = t.in_use@[i];
        if i < s.in_use@.len() {
            assert(y == s.in_use@[i]);
            assert(s.in_use@[i].spec_capacity() == s.buf_size);
            assert(0 <= s.in_use@[i].spec_id() < s.next_id@);
        } else {
            assert(y == x);
        }
        assert(y.spec_capacity() == t.buf_size);
        assert(0 <= y.spec_id());
        assert(y.spec_id() < t.next_id@);
    }
    assert forall|i: int| 0 <= i < t.available@.len() implies {
        &&& (#[trigger] t.available@[i]).0.spec_capacity() == t.buf_size
        &&& t.available@[i].1.spec_capacity() == t.buf_size
        &&& t.available@[i].1.bytes() == Seq::<u8>::empty()
        &&& t.available@[i].1.spec_id() == t.available@[i].0.spec_id()
        &&& t.available@[i].1.spec_reclaimable()
        &&& 0 <= t.available@[i].0.spec_id() < t.next_id@
    } by {
        assert(t.available@[i] == s.available@[i]);
    }
}

/// Adding a buffer kept for reuse, empty, of the slab's size, with the
/// handle that reclaims it and an identity given out before, keeps each
/// buffer of the slab right.
proof fn lemma_slots_push_available(s: Slab, t: Slab, x: (Reclaim, ArcBufMut))
    requires
        s.slots_ok(),
        t.in_use@ == s.in_use@,
        t.available@ == s.available@.push(x),
        t.buf_size == s.buf_size,
        s.next_id@ == t.next_id@,
        x.0.spec_capacity() == s.buf_size,
        x.1.spec_capacity() == s.buf_size,
        x.1.bytes() == Seq::<u8>::empty(),
        x.1.spec_id() == x.0.spec_id(),
        x.1.spec_reclaimable(),
        0 <= x.0.spec_id() < t.next_id@,
    ensures
        t.slots_ok(),
{
    assert forall|i: int| 0 <= i < t.in_use@.len() implies #[trigger] t.in_use@[i].spec_capacity()
        == t.buf_size && 0 <= t.in_use@[i].spec_id() < t.next_id@ by {
        assert(t.in_use@[i] == s.in_use@[i]);
        assert(s.in_use@[i].spec_capacity() == s.buf_size);
        assert(0 <= s.in_use@[i].spec_id() < s.next_id@);
    }
    assert forall|i: int| 0 <= i < t.available@.len() implies {
        &&& (#[trigger] t.available@[i]).0.spec_capacity() == t.buf_size
        &&& t.available@[i].1.spec_capacity() == t.buf_size
        &&& t.available@[i].1.bytes() == Seq::<u8>::empty()
        &&& t.available@[i].1.spec_id() == t.available@[i].0.spec_id()
        &&& t.available@[i].1.spec_reclaimable()
        &&& 0 <= t.available@[i].0.spec_id() < t.next_id@
    } by {
        if i < s.available@.len() {
            assert(t.available@[i] == s.available@[i]);
        }
    }
}

/// The last of `ids`, if none occurs twice there and none in `others`, occurs
/// nowhere else in either.
proof fn lemma_last_alone(ids: Seq<int>, others: Seq<int>)
    requires
        ids.len() > 0,
        ids.no_duplicates(),
        forall|i: int, j: int|
            0 <= i < ids.len() && 0 <= j < others.len() ==> #[trigger] ids[i] != #[trigger] others[j],
    ensures
        forall|i: int| 0 <= i < ids.len() - 1 ==> ids[i] != ids.last(),
        !others.contains(ids.last()),
{
    assert forall|i: int| 0 <= i < ids.len() - 1 implies ids[i] != ids.last() by {
        assert(ids[i] != ids[ids.len() - 1]);
    }
    if others.contains(ids.last()) {
        let j = choose|j: int| 0 <= j < others.len() && others[j] == ids.last();
        assert(ids[ids.len() - 1] != others[j]);
    }
}

/// A slab whose buffers are buffers of `before` at distinct places of its
/// list in use (`ix_in` and `ix_av` give the places), and perhaps one new
/// buffer last in use, has no two buffers with the same identity.
proof fn lemma_ids_from(before: Slab, after: Slab, ix_in: Seq<int>, ix_av: Seq<int>)
    requires
        before.slots_ok(),
        before.ids_distinct(),
        ix_in.len() <= after.in_use@.len() <= ix_in.len() + 1,
        ix_av.len() == after.available@.len(),
        forall|i: int|
            0 <= i < ix_in.len() ==> 0 <= #[trigger] ix_in[i] < before.in_use@.len()
                && after.in_use@[i] == before.in_use@[ix_in[i]],
        forall|i: int|
            0 <= i < ix_av.len() ==> 0 <= #[trigger] ix_av[i] < before.in_use@.len()
                && after.available@[i].0 == before.in_use@[ix_av[i]],
        forall|i: int, j: int|
            #![trigger ix_in[i], ix_in[j]]
            0 <= i < j < ix_in.len() ==> ix_in[i] != ix_in[j],
        forall|i: int, j: int|
            #![trigger ix_av[i], ix_av[j]]
            0 <= i < j < ix_av.len() ==> ix_av[i] != ix_av[j],
        forall|i: int, j: int|
            #![trigger ix_in[i], ix_av[j]]
            0 <= i < ix_in.len() && 0 <= j < ix_av.len() ==> ix_in[i] != ix_av[j],
        after.in_use@.len() == ix_in.len() + 1 ==> after.in_use@.last().spec_id()
            >= before.next_id@,
    ensures
        after.ids_distinct(),
{
    let m = ix_in.len();
    assert forall|a: int, b: int| 0 <= a < before.in_use@.len() && 0 <= b < before.in_use@.len()
        && a != b implies #[trigger] before.in_use@[a].spec_id() != #[trigger] before.in_use@[b].spec_id() by {
        if a < b {
            assert(before.in_use@[a].spec_id() != before.in_use@[b].spec_id());
        } else {
            assert(before.in_use@[b].spec_id() != before.in_use@[a].spec_id());
        }
    }
    assert forall|i: int, j: int| 0 <= i < j < after.in_use@.len() implies #[trigger] after.in_use@[i].spec_id()
        != #[trigger] after.in_use@[j].spec_id() by {
        if j < m {
            assert(ix_in[i] != ix_in[j]);
        } else {
            let t = ix_in[i];
            assert(before.in_use@[t].spec_capacity() == before.buf_size);
        }
    }
    assert forall|i: int, j: int| 0 <= i < j < after.available@.len() implies #[trigger] after.available@[i].0.spec_id()
        != #[trigger] after.available@[j].0.spec_id() by {
        assert(ix_av[i] != ix_av[j]);
    }
    assert forall|i: int, j: int| 0 <= i < after.in_use@.len() && 0 <= j < after.available@.len() implies #[trigger] after.in_use@[i].spec_id()
        != #[trigger] after.available@[j].0.spec_id() by {
        if i < m {
            assert(ix_in[i] != ix_av[j]);
        } else {
            let t = ix_av[j];
            assert(before.in_use@[t].spec_capacity() == before.buf_size);
        }
    }
}

impl Slab {
    /// Every buffer the slab manages has its size and an identity the slab
    /// gave out before, and the buffers kept for reuse are empty, each with
    /// the handle that reclaims it.
    pub closed spec fn wf(&self) -> bool {
        &&& self.slots_ok()
        &&& self.ids_distinct()
    }

    /// No two buffers the slab manages have the same identity.
    closed spec fn ids_distinct(&self) -> bool {
        &&& forall|i: int, j: int|
            #![trigger self.in_use@[i], self.in_use@[j]]
            0 <= i < j < self.in_use@.len() ==> self.in_use@[i].spec_id() != self.in_use@[j].spec_id()
        &&& forall|i: int, j: int|
            #![trigger self.available@[i], self.available@[j]]
            0 <= i < j < self.available@.len() ==> self.available@[i].0.spec_id()
                != self.available@[j].0.spec_id()
        &&& forall|i: int, j: int|
            #![trigger self.in_use@[i], self.available@[j]]
            0 <= i < self.in_use@.len() && 0 <= j < self.available@.len() ==> self.in_use@[i].spec_id()
                != self.available@[j].0.spec_id()
    }

    /// Each buffer the slab manages has its size and an identity the slab
    /// gave out before.
    closed spec fn slots_ok(&self) -> bool {
        &&& self.next_id@ >= 0
        &&& forall|i: int|
            0 <= i < self.in_use@.len() ==> #[trigger] self.in_use@[i].spec_capacity()
                == self.buf_size && 0 <= self.in_use@[i].spec_id() < self.next_id@
        &&& forall|i: int|
            0 <= i < self.available@.len() ==> {
                &&& (#[trigger] self.available@[i]).0.spec_capacity() == self.buf_size
                &&& self.available@[i].1.spec_capacity() == self.buf_size
                &&& self.available@[i].1.bytes() == Seq::<u8>::empty()
                &&& self.available@[i].1.spec_id() == self.available@[i].0.spec_id()
                &&& self.available@[i].1.spec_reclaimable()
                &&& 0 <= self.available@[i].0.spec_id() < self.next_id@
            }
    }

    /// The identities of the buffers in use, oldest first.
    pub closed spec fn spec_in_use_ids(&self) -> Seq<int> {
        self.in_use@.map_values(|r: Reclaim| r.spec_id())
    }

    /// The identities of the buffers kept for reuse.
    pub closed spec fn spec_available_ids(&self) -> Seq<int> {
        self.available@.map_values(|a: (Reclaim, ArcBufMut)| a.0.spec_id())
    }

    /// No two buffers of a well-formed slab have the same identity, and all
    /// of them have identities the slab gave out before.
    pub proof fn lemma_ids(&self)
        requires
            self.wf(),
        ensures
            self.spec_in_use_ids().no_duplicates(),
            self.spec_available_ids().no_duplicates(),
            forall|i: int, j: int|
                0 <= i < self.spec_in_use_ids().len() && 0 <= j < self.spec_available_ids().len()
                    ==> #[trigger] self.spec_in_use_ids()[i] != #[trigger] self.spec_available_ids()[j],
            forall|i: int|
                0 <= i < self.spec_in_use_ids().len() ==> 0 <= #[trigger] self.spec_in_use_ids()[i]
                    < self.spec_next_id(),
    {
        assert forall|i: int, j: int|
            0 <= i < self.in_use@.len() && 0 <= j < self.in_use@.len() && i != j implies self.spec_in_use_ids()[i]
            != self.spec_in_use_ids()[j] by {
            if i < j {
                assert(self.in_use@[i].spec_id() != self.in_use@[j].spec_id());
            } else {
                assert(self.in_use@[j].spec_id() != self.in_use@[i].spec_id());
            }
        }
        assert forall|i: int, j: int|
            0 <= i < self.available@.len() && 0 <= j < self.available@.len() && i != j implies self.spec_available_ids()[i]
            != self.spec_available_ids()[j] by {
            if i < j {
                assert(self.available@[i].0.spec_id() != self.available@[j].0.spec_id());
            } else {
                assert(self.available@[j].0.spec_id() != self.available@[i].0.spec_id());
            }
        }
        assert forall|i: int, j: int|
            0 <= i < self.spec_in_use_ids().len() && 0 <= j < self.spec_available_ids().len() implies #[trigger] self.spec_in_use_ids()[i]
            != #[trigger] self.spec_available_ids()[j] by {
            assert(self.in_use@[i].spec_id() != self.available@[j].0.spec_id());
        }
        assert forall|i: int| 0 <= i < self.spec_in_use_ids().len() implies 0 <= #[trigger] self.spec_in_use_ids()[i]
            < self.spec_next_id() by {
            assert(self.in_use@[i].spec_capacity() == self.buf_size);
        }
    }

    /// The identity the next new buffer gets; all the slab gave out before
    /// are lower, and none is negative.
    pub closed spec fn spec_next_id(&self) -> int {
        self.next_id@
    }

    pub closed spec fn spec_buf_size(&self) -> usize {
        self.buf_size
    }

    pub closed spec fn spec_reuse_count(&self) -> usize {
        self.reuse_count
    }

    pub closed spec fn spec_num_in_use(&self) -> nat {
        self.in_use@.len()
    }

    pub closed spec fn spec_num_available(&self) -> nat {
        self.available@.len()
    }

    /// Creates a new slab allocator for buffers of size `buf_size`.
    ///
    /// The argument `reuse_count` controls how many buffers should be kept
    /// around for reuse. If a buffer becomes available again, but the [`Slab`]
    /// already has `reuse_count` available buffers, it will free the
    /// newly-available buffer.
    pub fn new(buf_size: usize, reuse_count: usize) -> (s: Self)
        requires
            reuse_count <= usize::MAX / 2,
        ensures
            s.wf(),
            s.spec_buf_size() == buf_size,
            s.spec_reuse_count() == reuse_count,
            s.spec_num_in_use() == 0,
            s.spec_num_available() == 0,
            s.spec_next_id() == 0,
    {
        Slab {
            buf_size,
            reuse_count,
            in_use: Vec::with_capacity(reuse_count * 2),
            available: Vec::with_capacity(reuse_count),
            next_id: Ghost(0),
        }
    }

    /// Returns an empty buffer of size `buf_size`.
    ///
    /// This either hands out again a buffer slot that nothing refers to any
    /// more, or adds a new one. Slots that were found to be unused on the way
    /// are kept for reuse, as long as no more than `reuse_count` are kept. A
    /// slot handed out again starts empty, with its bytes allocated afresh.
    ///
    /// The buffer handed out is the slot last in use, and no other slot has
    /// its identity. How many slots are in use and available afterwards is
    /// given by [`spec_reuse_outcome`] from the number found free, which
    /// depends on what other handles still exist.
    #[verifier::spinoff_prover]
    pub fn get(&mut self) -> (b: ArcBufMut)
        requires
            old(self).wf(),
        ensures
            (*final(self)).wf(),
            b.bytes() == Seq::<u8>::empty(),
            b.spec_capacity() == old(self).spec_buf_size(),
            (*final(self)).spec_buf_size() == old(self).spec_buf_size(),
            (*final(self)).spec_reuse_count() == old(self).spec_reuse_count(),
            old(self).spec_buf_size() == 0 ==> *final(self) == *old(self),
            (*final(self)).spec_num_available() <= old(self).spec_num_available() || (
            *final(self)).spec_num_available() <= old(self).spec_reuse_count(),
            (*final(self)).spec_num_in_use() + (*final(self)).spec_num_available() <= old(self).spec_num_in_use() + old(self).spec_num_available() + 1,
            old(self).spec_buf_size() > 0 && old(self).spec_num_available() > 0 ==> (*final(self)).spec_num_available()
                == old(self).spec_num_available() - 1 && (*final(self)).spec_num_in_use()
                == old(self).spec_num_in_use() + 1,
            old(self).spec_buf_size() > 0 && old(self).spec_num_available() == 0 ==> exists|found: nat|
                #![trigger spec_reuse_outcome(old(self).spec_num_in_use(), found, old(self).spec_reuse_count())]
                found <= old(self).spec_num_in_use()
                && spec_reuse_outcome(old(self).spec_num_in_use(), found, old(self).spec_reuse_count()) == (
                (*final(self)).spec_num_in_use(),
                (*final(self)).spec_num_available(),
            ),
            old(self).spec_buf_size() > 0 ==> {
                &&& (*final(self)).spec_num_in_use() > 0
                &&& b.spec_id() == (*final(self)).spec_in_use_ids().last()
                &&& forall|i: int|
                    0 <= i < (*final(self)).spec_num_in_use() - 1
                        ==> (*final(self)).spec_in_use_ids()[i] != b.spec_id()
                &&& !(*final(self)).spec_available_ids().contains(b.spec_id())
                &&& b.spec_reclaimable()
            },
            old(self).spec_buf_size() > 0 && old(self).spec_num_available() > 0 ==> {
                &&& b.spec_id() == old(self).spec_available_ids().last()
                &&& (*final(self)).spec_in_use_ids() == old(self).spec_in_use_ids().push(b.spec_id())
                &&& (*final(self)).spec_available_ids() == old(self).spec_available_ids().drop_last()
                &&& (*final(self)).spec_next_id() == old(self).spec_next_id()
            },
            old(self).spec_buf_size() > 0 && old(self).spec_num_available() == 0 ==> {
                ||| (b.spec_id() == old(self).spec_next_id() && (*final(self)).spec_next_id() == old(
                    self,
                ).spec_next_id() + 1)
                ||| (old(self).spec_in_use_ids().contains(b.spec_id()) && (*final(self)).spec_next_id()
                    == old(self).spec_next_id())
            },
    {
        if self.buf_size == 0 {
            return ArcBufMut::default();
        }
        match self.available.pop() {
            Some((reclaim, buf)) => {
                proof {
                    let k = old(self).available@.len() - 1;
                    assert(old(self).available@[k] == (reclaim, buf));
                }
                self.in_use.push(reclaim);
                assert(forall|i: int|
                    0 <= i < self.in_use@.len() - 1 ==> self.in_use@[i] == old(self).in_use@[i]);
                assert(self.spec_in_use_ids() =~= old(self).spec_in_use_ids().push(buf.spec_id()));
                assert(self.spec_available_ids() =~= old(self).spec_available_ids().drop_last());
                proof {
                    self.lemma_ids();
                    lemma_last_alone(self.spec_in_use_ids(), self.spec_available_ids());
                }
                buf
            },
            None => {
                // check which buffers in use nothing refers to any more.
                let mut checked: Vec<Option<ArcBufMut>> = Vec::new();
                let mut i: usize = 0;
                while i < self.in_use.len()
                    invariant
                        i <= self.in_use@.len(),
                        checked@.len() == i,
                        self.in_use@ == old(self).in_use@,
                        self.available@ == old(self).available@,
                        self.buf_size == old(self).buf_size,
                        self.reuse_count == old(self).reuse_count,
                        forall|j: int|
                            0 <= j < i ==> ((#[trigger] checked@[j]) matches Some(b) ==> b.bytes()
                                == Seq::<u8>::empty() && b.spec_capacity() == self.in_use@[j].spec_capacity()
                                && b.spec_id() == self.in_use@[j].spec_id() && b.spec_reclaimable()),
                        self.wf(),
                        self.buf_size > 0,
                        self.next_id == old(self).next_id,
                    decreases self.in_use@.len() - i,
                {
                    let r = self.in_use[i].try_reclaim();
                    checked.push(r);
                    i += 1;
                }
                proof {
                    lemma_num_found_bound(checked@);
                }
                let ghost ids = old(self).spec_in_use_ids();
                let b = self.settle(checked);
                assert(spec_reuse_outcome(old(self).spec_num_in_use(), num_found(checked@), old(self).spec_reuse_count()) == (
                    self.spec_num_in_use(),
                    self.spec_num_available(),
                ));
                proof {
                    self.lemma_ids();
                    lemma_last_alone(self.spec_in_use_ids(), self.spec_available_ids());
                    if b.spec_id() != old(self).spec_next_id() {
                        let j = choose|j: int| 0 <= j < old(self).in_use@.len() && b.spec_id()
                            == old(self).in_use@[j].spec_id();
                        assert(ids[j] == b.spec_id());
                    }
                }
                b
            },
        }
    }

    /// Hands out a buffer once the buffers in use were checked, `checked[i]`
    /// being what checking the `i`-th gave: the buffer back if nothing else
    /// referred to it. One buffer found free is handed out and becomes the
    /// last in use; the other ones found free leave those in use and are kept
    /// available, as far as `reuse_count` allows, or dropped. If none was
    /// found free, a new buffer with a new identity is added last to those in
    /// use.
    #[verifier::spinoff_prover]
    fn settle(&mut self, checked: Vec<Option<ArcBufMut>>) -> (b: ArcBufMut)
        requires
            old(self).wf(),
            old(self).buf_size > 0,
            old(self).available@.len() == 0,
            checked@.len() == old(self).in_use@.len(),
            forall|j: int|
                0 <= j < checked@.len() ==> ((#[trigger] checked@[j]) matches Some(b) ==> b.bytes()
                    == Seq::<u8>::empty() && b.spec_capacity() == old(self).buf_size && b.spec_id()
                    == old(self).in_use@[j].spec_id() && b.spec_reclaimable()),
        ensures
            (*final(self)).wf(),
            b.bytes() == Seq::<u8>::empty(),
            b.spec_capacity() == old(self).buf_size,
            b.spec_reclaimable(),
            (*final(self)).buf_size == old(self).buf_size,
            (*final(self)).reuse_count == old(self).reuse_count,
            spec_reuse_outcome(old(self).in_use@.len(), num_found(checked@), old(self).reuse_count) == (
                (*final(self)).in_use@.len(),
                (*final(self)).available@.len(),
            ),
            (*final(self)).in_use@.len() > 0,
            b.spec_id() == (*final(self)).in_use@.last().spec_id(),
            num_found(checked@) == 0 ==> b.spec_id() == old(self).next_id@ && (*final(self)).next_id@
                == old(self).next_id@ + 1,
            num_found(checked@) > 0 ==> (*final(self)).next_id@ == old(self).next_id@ && exists|j: int|
                0 <= j < checked@.len() && (#[trigger] checked@[j]) is Some && b.spec_id() == old(
                    self,
                ).in_use@[j].spec_id(),
    {
        let ghost all = checked@;
        let ghost n = old(self).in_use@.len();
        let mut rest: Vec<Reclaim> = Vec::new();
        std::mem::swap(&mut rest, &mut self.in_use);
        let mut checked = checked;
        let mut reclaimed: Option<(Reclaim, ArcBufMut)> = None;
        let ghost mut found: nat = 0;
        let ghost mut rj: int = 0;
        let ghost mut ix_in: Seq<int> = Seq::empty();
        let ghost mut ix_av: Seq<int> = Seq::empty();
        assert(all.take(rest@.len() as int) =~= all);
        assert(old(self).in_use@.take(rest@.len() as int) =~= old(self).in_use@);
        while rest.len() > 0
            invariant
                rest@ == old(self).in_use@.take(rest@.len() as int),
                checked@ == all.take(rest@.len() as int),
                all.len() == n,
                n == old(self).in_use@.len(),
                rest@.len() <= n,
                found + num_found(all.take(rest@.len() as int)) == num_found(all),
                reclaimed is Some <==> found > 0,
                found <= n - rest@.len(),
                found == 0 ==> self.in_use@.len() == n - rest@.len() && self.available@.len() == 0,
                found > 0 ==> spec_reuse_outcome((n - rest@.len()) as nat, found, self.reuse_count) == (
                    self.in_use@.len() + 1,
                    self.available@.len(),
                ),
                self.next_id == old(self).next_id,
                self.slots_ok(),
                ix_in.len() == self.in_use@.len(),
                ix_av.len() == self.available@.len(),
                forall|i: int|
                    0 <= i < ix_in.len() ==> rest@.len() <= #[trigger] ix_in[i] < n && self.in_use@[i]
                        == old(self).in_use@[ix_in[i]],
                forall|i: int|
                    0 <= i < ix_av.len() ==> rest@.len() <= #[trigger] ix_av[i] < n
                        && self.available@[i].0 == old(self).in_use@[ix_av[i]],
                forall|i: int, j: int|
                    #![trigger ix_in[i], ix_in[j]]
                    0 <= i < j < ix_in.len() ==> ix_in[i] != ix_in[j],
                forall|i: int, j: int|
                    #![trigger ix_av[i], ix_av[j]]
                    0 <= i < j < ix_av.len() ==> ix_av[i] != ix_av[j],
                forall|i: int, j: int|
                    #![trigger ix_in[i], ix_av[j]]
                    0 <= i < ix_in.len() && 0 <= j < ix_av.len() ==> ix_in[i] != ix_av[j],
                found > 0 ==> rest@.len() <= rj && (forall|i: int| 0 <= i < ix_in.len() ==> #[trigger] ix_in[i] != rj)
                    && (forall|i: int| 0 <= i < ix_av.len() ==> #[trigger] ix_av[i] != rj),
                self.buf_size == old(self).buf_size > 0,
                self.reuse_count == old(self).reuse_count,
                old(self).wf(),
                forall|j: int|
                    0 <= j < all.len() ==> ((#[trigger] all[j]) matches Some(b) ==> b.bytes()
                        == Seq::<u8>::empty() && b.spec_capacity() == old(self).buf_size && b.spec_id()
                        == old(self).in_use@[j].spec_id() && b.spec_reclaimable()),
                reclaimed matches Some(rb) ==> {
                    &&& rb.1.bytes() == Seq::<u8>::empty()
                    &&& rb.1.spec_capacity() == self.buf_size
                    &&& rb.1.spec_reclaimable()
                    &&& rb.0.spec_capacity() == self.buf_size
                    &&& rb.1.spec_id() == rb.0.spec_id()
                    &&& 0 <= rj < n && all[rj] is Some && rb.0 == old(self).in_use@[rj]
                    &&& 0 <= rb.0.spec_id() < self.next_id@
                },
            decreases rest@.len(),
        {
            let ghost k = rest@.len();
            proof {
                lemma_num_found_step(all, k - 1);
                assert(old(self).in_use@.take(k as int)[k - 1] == old(self).in_use@[k - 1]);
            }
            let r = rest.pop().unwrap();
            let c = checked.pop().unwrap();
            assert(c == all[k - 1]);
            assert(r == old(self).in_use@[k - 1]);
            assert(old(self).in_use@[k - 1].spec_capacity() == old(self).buf_size);
            assert(0 <= r.spec_id() < self.next_id@ && r.spec_capacity() == self.buf_size);
            assert(rest@ =~= old(self).in_use@.take(rest@.len() as int));
            assert(checked@ =~= all.take(rest@.len() as int));
            match c {
                None => {
                    let ghost s0 = *self;
                    self.in_use.push(r);
                    assert(forall|i: int| 0 <= i < s0.in_use@.len() ==> self.in_use@[i] == s0.in_use@[i]);
                    proof {
                        lemma_slots_push_in_use(s0, *self, r);
                        ix_in = ix_in.push(k - 1);
                    }
                },
                Some(buf) => {
                    proof {
                        found = found + 1;
                    }
                    if reclaimed.is_none() {
                        reclaimed = Some((r, buf));
                        proof {
                            rj = k - 1;
                        }
                    } else if self.available.len() < self.reuse_count {
                        let ghost s0 = *self;
                        self.available.push((r, buf));
                        assert(forall|i: int| 0 <= i < s0.available@.len() ==> self.available@[i] == s0.available@[i]);
                        proof {
                            lemma_slots_push_available(s0, *self, (r, buf));
                            ix_av = ix_av.push(k - 1);
                        }
                    }
                },
            }
        }
        assert(all.take(0) =~= Seq::<Option<ArcBufMut>>::empty());
        match reclaimed {
            Some((reclaim, buf)) => {
                let ghost s0 = *self;
                self.in_use.push(reclaim);
                assert(all[rj] is Some);
                proof {
                    lemma_slots_push_in_use(s0, *self, reclaim);
                    assert forall|i: int| 0 <= i < ix_in.len() implies self.in_use@[i] == old(self).in_use@[#[trigger] ix_in[i]] by {
                        assert(self.in_use@[i] == s0.in_use@[i]);
                    }
                    lemma_ids_from(*old(self), *self, ix_in.push(rj), ix_av);
                    assert(self.wf());
                }
                buf
            },
            None => {
                // allocate a new buffer
                let (buf, reclaim) = ArcBufMut::new_reclaimable_as(self.buf_size, self.next_id);
                let ghost s0 = *self;
                self.in_use.push(reclaim);
                proof {
                    self.next_id = Ghost(self.next_id@ + 1);
                    lemma_slots_push_in_use(s0, *self, reclaim);
                    assert forall|i: int| 0 <= i < ix_in.len() implies self.in_use@[i] == old(self).in_use@[#[trigger] ix_in[i]] by {
                        assert(self.in_use@[i] == s0.in_use@[i]);
                    }
                    lemma_ids_from(*old(self), *self, ix_in, ix_av);
                    assert(self.wf());
                }
                buf
            },
        }
    }

    /// Number of in-use buffers.
    ///
    /// This value might not be accurate, because the [`Slab`] only checks if
    /// buffers became available again, if none are available during
    /// [`Slab::get`]. Thus the actual number of in-use buffers might be lower.
    pub fn num_in_use(&self) -> (n: usize)
        ensures
            n == self.spec_num_in_use(),
    {
        self.in_use.len()
    }

    /// Number of available buffers.
    ///
    /// This value might not be accurate, because the [`Slab`] only checks if
    /// buffers became available again, if none are available during
    /// [`Slab::get`]. Thus the actual number of available buffers might be
    /// higher.
    pub fn num_available(&self) -> (n: usize)
        ensures
            n == self.spec_num_available(),
    {
        self.available.len()
    }

    /// Total number of buffers managed by this [`Slab`].
    pub fn num_total(&self) -> (n: usize)
        requires
            self.spec_num_in_use() + self.spec_num_available() <= usize::MAX,
        ensures
            n == self.spec_num_in_use() + self.spec_num_available(),
    {
        self.in_use.len() + self.available.len()
    }

    /// Size of buffer this [`Slab`] allocates.
    pub fn buf_size(&self) -> (n: usize)
        ensures
            n == self.spec_buf_size(),
    {
        self.buf_size
    }

    /// The `reuse_count` with which this [`Slab`] was configured. See
    /// [`Slab::new`].
    pub fn reuse_count(&self) -> (n: usize)
        ensures
            n == self.spec_reuse_count(),
    {
        self.reuse_count
    }

    /// Change the `reuse_count`. See [`Slab::new`].
    pub fn set_reuse_count(&mut self, reuse_count: usize)
        requires
            old(self).wf(),
        ensures
            (*final(self)).wf(),
            (*final(self)).spec_reuse_count() == reuse_count,
            (*final(self)).spec_buf_size() == old(self).spec_buf_size(),
            (*final(self)).spec_num_in_use() == old(self).spec_num_in_use(),
            (*final(self)).spec_num_available() == old(self).spec_num_available(),
    {
        self.reuse_count = reuse_count;
    }
}

} // verus!
