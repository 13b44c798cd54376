//! A slab allocator that hands out writable buffers, which can be frozen into
//! shared read-only ones, and reuses buffers nothing refers to any more.

use vstd::prelude::*;

use std::sync::Arc;

use crate::buf::chunks::SingleChunk;
use crate::buf::{Buf, BufMut, Full, Length, SizeLimit, WriteError, spec_grow, spec_reuse_outcome};
use crate::copy::{CopyRangeError, copy_range, copy_range_defined, spec_destination_end,
    spec_destination_start, spec_source_end, spec_source_start, spec_write};
use crate::range::{Range, RangeOutOfBounds, as_range, converts, to_range};
use crate::shared::{Handle, owner_is_alone};

verus! {

/// How a buffer is reference counted.
#[derive(Clone, Copy, Debug, PartialEq, Eq)]
pub enum RefCount {
    /// The buffer is empty and not counted.
    Static,
    /// The buffer has `ref_count` references and belongs to a [`Slab`].
    SlabManaged { ref_count: usize },
    /// The buffer has `ref_count` references, and its [`Slab`] is gone.
    Orphaned { ref_count: usize },
}

impl RefCount {
    fn of(handle: &Option<Handle>) -> (r: RefCount)
        ensures
            handle is None <==> r is Static,
            r.spec_counted_at_least_once(),
    {
        match handle {
            None => RefCount::Static,
            Some(h) => {
                let ref_count = h.users();
                if h.is_managed() {
                    RefCount::SlabManaged { ref_count }
                } else {
                    RefCount::Orphaned { ref_count }
                }
            },
        }
    }

    /// A counted buffer has at least one reference.
    pub open spec fn spec_counted_at_least_once(&self) -> bool {
        match *self {
            RefCount::Static => true,
            RefCount::SlabManaged { ref_count } => ref_count >= 1,
            RefCount::Orphaned { ref_count } => ref_count >= 1,
        }
    }

    /// The number of references, if counted.
    pub fn ref_count(&self) -> (r: Option<usize>)
        ensures
            r == match *self {
                RefCount::Static => None,
                RefCount::SlabManaged { ref_count } => Some(ref_count),
                RefCount::Orphaned { ref_count } => Some(ref_count),
            },
    {
        match self {
            RefCount::Static => None,
            RefCount::SlabManaged { ref_count } => Some(*ref_count),
            RefCount::Orphaned { ref_count } => Some(*ref_count),
        }
    }

    /// Whether the [`Slab`] the buffer belongs to is gone.
    pub fn is_orphaned(&self) -> (r: bool)
        ensures
            r == (*self is Orphaned),
    {
        match self {
            RefCount::Orphaned { .. } => true,
            _ => false,
        }
    }
}

/// A buffer a [`Slab`] owns.
struct BufferOwned {
    owner: Arc<()>,
    id: Ghost<int>,
}

impl BufferOwned {
    spec fn spec_id(&self) -> int {
        self.id@
    }

    /// A new buffer with identity `id`.
    fn new(id: Ghost<int>) -> (b: Self)
        ensures
            b.spec_id() == id@,
    {
        BufferOwned { owner: Arc::new(()), id }
    }

    /// A new, empty, writable buffer of size `size` that this buffer hands
    /// out, with its identity.
    fn get_ref(&self, size: usize) -> (b: BytesMut)
        requires
            size > 0,
        ensures
            b.bytes() == Seq::<u8>::empty(),
            b.spec_buf_size() == size,
            b.spec_id() == self.spec_id(),
    {
        BytesMut {
            handle: Some(Handle::new(&self.owner)),
            data: Vec::with_capacity(size),
            buf_size: size,
            id: self.id,
        }
    }

    /// Whether nothing refers to the buffer any more.
    fn is_reclaimable(&self) -> (b: bool) {
        owner_is_alone(&self.owner)
    }
}

/// How many of `free` are `true`.
pub open spec fn num_free(free: Seq<bool>) -> nat
    decreases free.len(),
{
    if free.len() == 0 {
        0
    } else {
        num_free(free.drop_last()) + if free.last() {
            1nat
        } else {
            0nat
        }
    }
}

proof fn lemma_num_free_step(free: Seq<bool>, k: int)
    requires
        0 <= k < free.len(),
    ensures
        num_free(free.take(k + 1)) == num_free(free.take(k)) + if free[k] {
            1nat
        } else {
            0nat
        },
{
    assert(free.take(k + 1).drop_last() =~= free.take(k));
}

proof fn lemma_num_free_bound(free: Seq<bool>)
    ensures
        num_free(free) <= free.len(),
    decreases free.len(),
{
    if free.len() > 0 {
        lemma_num_free_bound(free.drop_last());
    }
}

/// A slab whose buffers are buffers of `before` at distinct places of its
/// list in use (`ix_in` and `ix_av` give the places), and perhaps one new
/// buffer last in use, has no two buffers with the same identity.
proof fn lemma_ids_from(before: Slab, after: Slab, ix_in: Seq<int>, ix_av: Seq<int>)
    requires
        before.slots_ok(),
        before.ids_distinct(),
        ix_in.len() <= after.in_use@.len() <= ix_in.len() + 1,
        ix_av.len() == after.available@.len(),
        forall|i: int|
            0 <= i < ix_in.len() ==> 0 <= #[trigger] ix_in[i] < before.in_use@.len()
                && after.in_use@[i] == before.in_use@[ix_in[i]],
        forall|i: int|
            0 <= i < ix_av.len() ==> 0 <= #[trigger] ix_av[i] < before.in_use@.len()
                && after.available@[i] == before.in_use@[ix_av[i]],
        forall|i: int, j: int|
            #![trigger ix_in[i], ix_in[j]]
            0 <= i < j < ix_in.len() ==> ix_in[i] != ix_in[j],
        forall|i: int, j: int|
            #![trigger ix_av[i], ix_av[j]]
            0 <= i < j < ix_av.len() ==> ix_av[i] != ix_av[j],
        forall|i: int, j: int|
            #![trigger ix_in[i], ix_av[j]]
            0 <= i < ix_in.len() && 0 <= j < ix_av.len() ==> ix_in[i] != ix_av[j],
        after.in_use@.len() == ix_in.len() + 1 ==> after.in_use@.last().spec_id()
            >= before.next_id@,
    ensures
        after.ids_distinct(),
{
    let m = ix_in.len();
    assert forall|a: int, b: int| 0 <= a < before.in_use@.len() && 0 <= b < before.in_use@.len()
        && a != b implies #[trigger] before.in_use@[a].spec_id() != #[trigger] before.in_use@[b].spec_id() by {
        if a < b {
            assert(before.in_use@[a].spec_id() != before.in_use@[b].spec_id());
        } else {
            assert(before.in_use@[b].spec_id() != before.in_use@[a].spec_id());
        }
    }
    assert forall|i: int, j: int| 0 <= i < j < after.in_use@.len() implies #[trigger] after.in_use@[i].spec_id()
        != #[trigger] after.in_use@[j].spec_id() by {
        if j < m {
            assert(ix_in[i] != ix_in[j]);
        } else {
            let t = ix_in[i];
            assert(0 <= before.in_use@[t].spec_id() < before.next_id@);
        }
    }
    assert forall|i: int, j: int| 0 <= i < j < after.available@.len() implies #[trigger] after.available@[i].spec_id()
        != #[trigger] after.available@[j].spec_id() by {
        assert(ix_av[i] != ix_av[j]);
    }
    assert forall|i: int, j: int| 0 <= i < after.in_use@.len() && 0 <= j < after.available@.len() implies #[trigger] after.in_use@[i].spec_id()
        != #[trigger] after.available@[j].spec_id() by {
        if i < m {
            assert(ix_in[i] != ix_av[j]);
        } else {
            let t = ix_av[j];
            assert(0 <= before.in_use@[t].spec_id() < before.next_id@);
        }
    }
}

/// The last of `ids`, if none occurs twice there and none in `others`, occurs
/// nowhere else in either.
proof fn lemma_last_alone(ids: Seq<int>, others: Seq<int>)
    requires
        ids.len() > 0,
        ids.no_duplicates(),
        forall|i: int, j: int|
            0 <= i < ids.len() && 0 <= j < others.len() ==> #[trigger] ids[i] != #[trigger] others[j],
    ensures
        forall|i: int| 0 <= i < ids.len() - 1 ==> ids[i] != ids.last(),
        !others.contains(ids.last()),
{
    assert forall|i: int| 0 <= i < ids.len() - 1 implies ids[i] != ids.last() by {
        assert(ids[i] != ids[ids.len() - 1]);
    }
    if others.contains(ids.last()) {
        let j = choose|j: int| 0 <= j < others.len() && others[j] == ids.last();
        assert(ids[ids.len() - 1] != others[j]);
    }
}

/// Efficient allocation of equally-sized buffers.
pub struct Slab {
    buf_size: usize,
    reuse_count: usize,
    in_use: Vec<BufferOwned>,
    available: Vec<BufferOwned>,
    next_id: Ghost<int>,
}

impl Slab {
    /// Each buffer the slab manages has an identity the slab gave out before,
    /// and no two have the same.
    pub closed spec fn wf(&self) -> bool {
        &&& self.slots_ok()
        &&& self.ids_distinct()
    }

    /// Each buffer the slab manages has an identity the slab gave out before.
    closed spec fn slots_ok(&self) -> bool {
        &&& self.next_id@ >= 0
        &&& forall|i: int|
            0 <= i < self.in_use@.len() ==> 0 <= #[trigger] self.in_use@[i].spec_id() < self.next_id@
        &&& forall|i: int|
            0 <= i < self.available@.len() ==> 0 <= #[trigger] self.available@[i].spec_id()
                < self.next_id@
    }

    /// No two buffers the slab manages have the same identity.
    closed spec fn ids_distinct(&self) -> bool {
        &&& forall|i: int, j: int|
            #![trigger self.in_use@[i], self.in_use@[j]]
            0 <= i < j < self.in_use@.len() ==> self.in_use@[i].spec_id() != self.in_use@[j].spec_id()
        &&& forall|i: int, j: int|
            #![trigger self.available@[i], self.available@[j]]
            0 <= i < j < self.available@.len() ==> self.available@[i].spec_id()
                != self.available@[j].spec_id()
        &&& forall|i: int, j: int|
            #![trigger self.in_use@[i], self.available@[j]]
            0 <= i < self.in_use@.len() && 0 <= j < self.available@.len() ==> self.in_use@[i].spec_id()
                != self.available@[j].spec_id()
    }

    pub closed spec fn spec_buf_size(&self) -> usize {
        self.buf_size
    }

    pub closed spec fn spec_reuse_count(&self) -> usize {
        self.reuse_count
    }

    pub closed spec fn spec_num_in_use(&self) -> nat {
        self.in_use@.len()
    }

    pub closed spec fn spec_num_available(&self) -> nat {
        self.available@.len()
    }

    /// The identities of the buffers in use, oldest first.
    pub closed spec fn spec_in_use_ids(&self) -> Seq<int> {
        self.in_use@.map_values(|b: BufferOwned| b.spec_id())
    }

    /// The identities of the buffers kept for reuse.
    pub closed spec fn spec_available_ids(&self) -> Seq<int> {
        self.available@.map_values(|b: BufferOwned| b.spec_id())
    }

    /// The identity the next new buffer gets; all the slab gave out before
    /// are lower, and none is negative.
    pub closed spec fn spec_next_id(&self) -> int {
        self.next_id@
    }

    /// No two buffers of a well-formed slab have the same identity, and all
    /// of them have identities the slab gave out before.
    pub proof fn lemma_ids(&self)
        requires
            self.wf(),
        ensures
            self.spec_in_use_ids().no_duplicates(),
            self.spec_available_ids().no_duplicates(),
            forall|i: int, j: int|
                0 <= i < self.spec_in_use_ids().len() && 0 <= j < self.spec_available_ids().len()
                    ==> #[trigger] self.spec_in_use_ids()[i] != #[trigger] self.spec_available_ids()[j],
            forall|i: int|
                0 <= i < self.spec_in_use_ids().len() ==> 0 <= #[trigger] self.spec_in_use_ids()[i]
                    < self.spec_next_id(),
    {
        assert forall|i: int, j: int|
            0 <= i < self.in_use@.len() && 0 <= j < self.in_use@.len() && i != j implies self.spec_in_use_ids()[i]
            != self.spec_in_use_ids()[j] by {
            if i < j {
                assert(self.in_use@[i].spec_id() != self.in_use@[j].spec_id());
            } else {
                assert(self.in_use@[j].spec_id() != self.in_use@[i].spec_id());
            }
        }
        assert forall|i: int, j: int|
            0 <= i < self.available@.len() && 0 <= j < self.available@.len() && i != j implies self.spec_available_ids()[i]
            != self.spec_available_ids()[j] by {
            if i < j {
                assert(self.available@[i].spec_id() != self.available@[j].spec_id());
            } else {
                assert(self.available@[j].spec_id() != self.available@[i].spec_id());
            }
        }
        assert forall|i: int, j: int|
            0 <= i < self.spec_in_use_ids().len() && 0 <= j < self.spec_available_ids().len() implies #[trigger] self.spec_in_use_ids()[i]
            != #[trigger] self.spec_available_ids()[j] by {
            assert(self.in_use@[i].spec_id() != self.available@[j].spec_id());
        }
        assert forall|i: int| 0 <= i < self.spec_in_use_ids().len() implies 0 <= #[trigger] self.spec_in_use_ids()[i]
            < self.spec_next_id() by {
            assert(0 <= self.in_use@[i].spec_id() < self.next_id@);
        }
    }

    /// Creates a new slab allocator for buffers of size `buf_size`.
    ///
    /// The argument `reuse_count` controls how many buffers should be kept
    /// around for reuse. If a buffer becomes available again, but the [`Slab`]
    /// already has `reuse_count` available buffers, it will free the
    /// newly-available buffer.
    pub fn new(buf_size: usize, reuse_count: usize) -> (s: Self)
        requires
            reuse_count <= usize::MAX / 2,
        ensures
            s.wf(),
            s.spec_buf_size() == buf_size,
            s.spec_reuse_count() == reuse_count,
            s.spec_num_in_use() == 0,
            s.spec_num_available() == 0,
            s.spec_next_id() == 0,
    {
        Slab {
            buf_size,
            reuse_count,
            in_use: Vec::with_capacity(reuse_count * 2),
            available: Vec::with_capacity(reuse_count),
            next_id: Ghost(0),
        }
    }

    /// Returns an empty buffer of size `buf_size`.
    ///
    /// This either hands out again a buffer slot that nothing refers to any
    /// more, or adds a new one. Once the returned [`BytesMut`], and all
    /// [`Bytes`] frozen from it, are gone, its slot is handed out again. A slot
    /// handed out again starts empty, with its bytes allocated afresh: the
    /// bytes of a buffer live with the [`BytesMut`] or [`Bytes`] that hold
    /// them, and the slab keeps only the count of references to the slot.
    ///
    /// The buffer handed out is the slot last in use, and no other slot has
    /// its identity. How many slots are in use and available afterwards is
    /// given by [`spec_reuse_outcome`] from the number found free, which
    /// depends on what other handles still exist.
    #[verifier::spinoff_prover]
    pub fn get(&mut self) -> (b: BytesMut)
        requires
            old(self).wf(),
        ensures
            (*final(self)).wf(),
            b.bytes() == Seq::<u8>::empty(),
            b.spec_buf_size() == old(self).spec_buf_size(),
            (*final(self)).spec_buf_size() == old(self).spec_buf_size(),
            (*final(self)).spec_reuse_count() == old(self).spec_reuse_count(),
            old(self).spec_buf_size() == 0 ==> *final(self) == *old(self),
            (*final(self)).spec_num_in_use() + (*final(self)).spec_num_available() <= old(self).spec_num_in_use() + old(self).spec_num_available() + 1,
            old(self).spec_buf_size() > 0 && old(self).spec_num_available() > 0 ==> (*final(self)).spec_num_available() == old(self).spec_num_available() - 1 && (*final(self)).spec_num_in_use() == old(self).spec_num_in_use() + 1,
            old(self).spec_buf_size() > 0 && old(self).spec_num_available() == 0 ==> exists|found: nat|
                #![trigger spec_reuse_outcome(old(self).spec_num_in_use(), found, old(self).spec_reuse_count())]
                found <= old(self).spec_num_in_use()
                && spec_reuse_outcome(old(self).spec_num_in_use(), found, old(self).spec_reuse_count()) == (
                (*final(self)).spec_num_in_use(),
                (*final(self)).spec_num_available(),
            ),
            old(self).spec_buf_size() > 0 ==> {
                &&& (*final(self)).spec_num_in_use() > 0
                &&& b.spec_id() == (*final(self)).spec_in_use_ids().last()
                &&& forall|i: int|
                    0 <= i < (*final(self)).spec_num_in_use() - 1
                        ==> (*final(self)).spec_in_use_ids()[i] != b.spec_id()
                &&& !(*final(self)).spec_available_ids().contains(b.spec_id())
            },
            old(self).spec_buf_size() > 0 && old(self).spec_num_available() > 0 ==> {
                &&& b.spec_id() == old(self).spec_available_ids().last()
                &&& (*final(self)).spec_in_use_ids() == old(self).spec_in_use_ids().push(b.spec_id())
                &&& (*final(self)).spec_available_ids() == old(self).spec_available_ids().drop_last()
                &&& (*final(self)).spec_next_id() == old(self).spec_next_id()
            },
            old(self).spec_buf_size() > 0 && old(self).spec_num_available() == 0 ==> {
                ||| (b.spec_id() == old(self).spec_next_id() && (*final(self)).spec_next_id() == old(
                    self,
                ).spec_next_id() + 1)
                ||| (old(self).spec_in_use_ids().contains(b.spec_id()) && (*final(self)).spec_next_id()
                    == old(self).spec_next_id())
            },
    {
        if self.buf_size == 0 {
            return BytesMut::default();
        }
        match self.available.pop() {
            Some(buf) => {
                proof {
                    let k = old(self).available@.len() - 1;
                    assert(old(self).available@[k] == buf);
                }
                let buf_ref = buf.get_ref(self.buf_size);
                self.in_use.push(buf);
                assert(forall|i: int|
                    0 <= i < self.in_use@.len() - 1 ==> self.in_use@[i] == old(self).in_use@[i]);
                assert(self.spec_in_use_ids() =~= old(self).spec_in_use_ids().push(buf_ref.spec_id()));
                assert(self.spec_available_ids() =~= old(self).spec_available_ids().drop_last());
                proof {
                    self.lemma_ids();
                    lemma_last_alone(self.spec_in_use_ids(), self.spec_available_ids());
                }
                buf_ref
            },
            None => {
                // check which buffers in use nothing refers to any more.
                let mut free: Vec<bool> = Vec::new();
                let mut i: usize = 0;
                while i < self.in_use.len()
                    invariant
                        i <= self.in_use@.len(),
                        free@.len() == i,
                        self.in_use@ == old(self).in_use@,
                        self.available@ == old(self).available@,
                        self.buf_size == old(self).buf_size,
                        self.reuse_count == old(self).reuse_count,
                        self.next_id == old(self).next_id,
                    decreases self.in_use@.len() - i,
                {
                    let f = self.in_use[i].is_reclaimable();
                    free.push(f);
                    i += 1;
                }
                proof {
                    lemma_num_free_bound(free@);
                }
                let ghost ids = old(self).spec_in_use_ids();
                let b = self.settle(free);
                assert(spec_reuse_outcome(old(self).spec_num_in_use(), num_free(free@), old(self).spec_reuse_count()) == (
                    self.spec_num_in_use(),
                    self.spec_num_available(),
                ));
                proof {
                    self.lemma_ids();
                    lemma_last_alone(self.spec_in_use_ids(), self.spec_available_ids());
                    if b.spec_id() != old(self).spec_next_id() {
                        let j = choose|j: int| 0 <= j < old(self).in_use@.len() && b.spec_id()
                            == old(self).in_use@[j].spec_id();
                        assert(ids[j] == b.spec_id());
                    }
                }
                b
            },
        }
    }

    /// Hands out a buffer once the buffers in use were checked, `free[i]`
    /// telling whether nothing referred to the `i`-th any more. One buffer
    /// found free is handed out again and becomes the last in use; the other
    /// ones found free leave those in use and are kept available, as far as
    /// `reuse_count` allows, or dropped. If none was found free, a new buffer
    /// is added last to those in use.
    #[verifier::spinoff_prover]
    fn settle(&mut self, free: Vec<bool>) -> (b: BytesMut)
        requires
            old(self).wf(),
            old(self).buf_size > 0,
            old(self).available@.len() == 0,
            free@.len() == old(self).in_use@.len(),
        ensures
            (*final(self)).wf(),
            b.bytes() == Seq::<u8>::empty(),
            b.spec_buf_size() == old(self).buf_size,
            (*final(self)).buf_size == old(self).buf_size,
            (*final(self)).reuse_count == old(self).reuse_count,
            spec_reuse_outcome(old(self).in_use@.len(), num_free(free@), old(self).reuse_count) == (
                (*final(self)).in_use@.len(),
                (*final(self)).available@.len(),
            ),
            (*final(self)).in_use@.len() > 0,
            b.spec_id() == (*final(self)).in_use@.last().spec_id(),
            num_free(free@) == 0 ==> b.spec_id() == old(self).next_id@ && (*final(self)).next_id@
                == old(self).next_id@ + 1,
            num_free(free@) > 0 ==> (*final(self)).next_id@ == old(self).next_id@ && exists|j: int|
                0 <= j < free@.len() && #[trigger] free@[j] && b.spec_id() == old(
                    self,
                ).in_use@[j].spec_id(),
    {
        let ghost all = free@;
        let ghost n = old(self).in_use@.len();
        let mut rest: Vec<BufferOwned> = Vec::new();
        std::mem::swap(&mut rest, &mut self.in_use);
        let mut free = free;
        let mut reclaimed: Option<(BufferOwned, BytesMut)> = None;
        let ghost mut found: nat = 0;
        let ghost mut rj: int = 0;
        let ghost mut ix_in: Seq<int> = Seq::empty();
        let ghost mut ix_av: Seq<int> = Seq::empty();
        assert(all.take(rest@.len() as int) =~= all);
        assert(old(self).in_use@.take(rest@.len() as int) =~= old(self).in_use@);
        while rest.len() > 0
            invariant
                rest@ == old(self).in_use@.take(rest@.len() as int),
                free@ == all.take(rest@.len() as int),
                all.len() == n,
                n == old(self).in_use@.len(),
                rest@.len() <= n,
                found + num_free(all.take(rest@.len() as int)) == num_free(all),
                reclaimed is Some <==> found > 0,
                found <= n - rest@.len(),
                found == 0 ==> self.in_use@.len() == n - rest@.len() && self.available@.len() == 0,
                found > 0 ==> spec_reuse_outcome((n - rest@.len()) as nat, found, self.reuse_count) == (
                    self.in_use@.len() + 1,
                    self.available@.len(),
                ),
                self.available@.len() <= self.reuse_count,
                self.buf_size == old(self).buf_size > 0,
                self.reuse_count == old(self).reuse_count,
                self.next_id == old(self).next_id,
                old(self).wf(),
                self.slots_ok(),
                ix_in.len() == self.in_use@.len(),
                ix_av.len() == self.available@.len(),
                forall|i: int|
                    0 <= i < ix_in.len() ==> rest@.len() <= #[trigger] ix_in[i] < n && self.in_use@[i]
                        == old(self).in_use@[ix_in[i]],
                forall|i: int|
                    0 <= i < ix_av.len() ==> rest@.len() <= #[trigger] ix_av[i] < n
                        && self.available@[i] == old(self).in_use@[ix_av[i]],
                forall|i: int, j: int|
                    #![trigger ix_in[i], ix_in[j]]
                    0 <= i < j < ix_in.len() ==> ix_in[i] != ix_in[j],
                forall|i: int, j: int|
                    #![trigger ix_av[i], ix_av[j]]
                    0 <= i < j < ix_av.len() ==> ix_av[i] != ix_av[j],
                forall|i: int, j: int|
                    #![trigger ix_in[i], ix_av[j]]
                    0 <= i < ix_in.len() && 0 <= j < ix_av.len() ==> ix_in[i] != ix_av[j],
                found > 0 ==> rest@.len() <= rj && (forall|i: int| 0 <= i < ix_in.len() ==> #[trigger] ix_in[i] != rj)
                    && (forall|i: int| 0 <= i < ix_av.len() ==> #[trigger] ix_av[i] != rj),
                reclaimed matches Some(rb) ==> {
                    &&& rb.1.bytes() == Seq::<u8>::empty()
                    &&& rb.1.spec_buf_size() == self.buf_size
                    &&& rb.1.spec_id() == rb.0.spec_id()
                    &&& 0 <= rj < n && all[rj] && rb.0 == old(self).in_use@[rj]
                },
            decreases rest@.len(),
        {
            let ghost k = rest@.len();
            proof {
                lemma_num_free_step(all, k - 1);
                assert(old(self).in_use@.take(k as int)[k - 1] == old(self).in_use@[k - 1]);
            }
            let r = rest.pop().unwrap();
            let f = free.pop().unwrap();
            assert(f == all[k - 1]);
            assert(r == old(self).in_use@[k - 1]);
            assert(0 <= old(self).in_use@[k - 1].spec_id() < old(self).next_id@);
            assert(rest@ =~= old(self).in_use@.take(rest@.len() as int));
            assert(free@ =~= all.take(rest@.len() as int));
            if !f {
                let ghost before = self.in_use@;
                self.in_use.push(r);
                assert(forall|i: int| 0 <= i < before.len() ==> self.in_use@[i] == before[i]);
                proof {
                    ix_in = ix_in.push(k - 1);
                }
            } else {
                proof {
                    found = found + 1;
                }
                if reclaimed.is_none() {
                    let buf_ref = r.get_ref(self.buf_size);
                    reclaimed = Some((r, buf_ref));
                    proof {
                        rj = k - 1;
                    }
                } else if self.available.len() < self.reuse_count {
                    let ghost before = self.available@;
                    self.available.push(r);
                    assert(forall|i: int| 0 <= i < before.len() ==> self.available@[i] == before[i]);
                    proof {
                        ix_av = ix_av.push(k - 1);
                    }
                }
            }
        }
        assert(all.take(0) =~= Seq::<bool>::empty());
        match reclaimed {
            Some((owned, buf)) => {
                let ghost before = self.in_use@;
                self.in_use.push(owned);
                assert(forall|i: int| 0 <= i < before.len() ==> self.in_use@[i] == before[i]);
                assert(all[rj]);
                proof {
                    lemma_ids_from(*old(self), *self, ix_in.push(rj), ix_av);
                }
                buf
            },
            None => {
                // allocate a new buffer
                let owned = BufferOwned::new(self.next_id);
                let buf_ref = owned.get_ref(self.buf_size);
                let ghost before = self.in_use@;
                self.in_use.push(owned);
                assert(forall|i: int| 0 <= i < before.len() ==> self.in_use@[i] == before[i]);
                proof {
                    self.next_id = Ghost(self.next_id@ + 1);
                    lemma_ids_from(*old(self), *self, ix_in, ix_av);
                }
                buf_ref
            },
        }
    }

    /// Number of in-use buffers.
    ///
    /// This value might not be accurate, because the [`Slab`] only checks if
    /// buffers became available again, if none are available during
    /// [`Slab::get`]. Thus the actual number of in-use buffers might be lower.
    pub fn num_in_use(&self) -> (n: usize)
        ensures
            n == self.spec_num_in_use(),
    {
        self.in_use.len()
    }

    /// Number of available buffers.
    ///
    /// This value might not be accurate, because the [`Slab`] only checks if
    /// buffers became available again, if none are available during
    /// [`Slab::get`]. Thus the actual number of available buffers might be
    /// higher.
    pub fn num_available(&self) -> (n: usize)
        ensures
            n == self.spec_num_available(),
    {
        self.available.len()
    }

    /// Total number of buffers managed by this [`Slab`].
    pub fn num_total(&self) -> (n: usize)
        requires
            self.spec_num_in_use() + self.spec_num_available() <= usize::MAX,
        ensures
            n == self.spec_num_in_use() + self.spec_num_available(),
    {
        self.in_use.len() + self.available.len()
    }

    /// Size of buffer this [`Slab`] allocates.
    pub fn buf_size(&self) -> (n: usize)
        ensures
            n == self.spec_buf_size(),
    {
        self.buf_size
    }

    /// The `reuse_count` with which this [`Slab`] was configured. See
    /// [`Slab::new`].
    pub fn reuse_count(&self) -> (n: usize)
        ensures
            n == self.spec_reuse_count(),
    {
        self.reuse_count
    }

    /// Change the `reuse_count`. See [`Slab::new`].
    pub fn set_reuse_count(&mut self, reuse_count: usize)
        ensures
            old(self).wf() ==> (*final(self)).wf(),
            (*final(self)).spec_reuse_count() == reuse_count,
            (*final(self)).spec_buf_size() == old(self).spec_buf_size(),
            (*final(self)).spec_num_in_use() == old(self).spec_num_in_use(),
            (*final(self)).spec_num_available() == old(self).spec_num_available(),
    {
        self.reuse_count = reuse_count;
    }
}

/// A mutable buffer.
///
/// The [`freeze`](Self::freeze) method turns it into a [`Bytes`], which can be
/// shared.
pub struct BytesMut {
    handle: Option<Handle>,
    data: Vec<u8>,
    buf_size: usize,
    id: Ghost<int>,
}

impl BytesMut {
    #[verifier::type_invariant]
    closed spec fn inv(&self) -> bool {
        &&& self.data@.len() <= self.buf_size
        &&& self.handle is None <==> self.buf_size == 0
    }

    /// The size of the underlying buffer, i.e. how far this buffer can grow.
    pub closed spec fn spec_buf_size(&self) -> usize {
        self.buf_size
    }

    /// Which slab buffer this is: the one of the [`Slab`]'s buffers with the
    /// same identity.
    pub closed spec fn spec_id(&self) -> int {
        self.id@
    }

    /// Sets the length to `new_len`, filling new bytes with `value`; a
    /// shorter length drops the bytes past it.
    fn resize(&mut self, new_len: usize, value: u8)
        requires
            new_len <= old(self).spec_buf_size(),
        ensures
            (*final(self)).spec_buf_size() == old(self).spec_buf_size(),
            (*final(self)).bytes() == if new_len > old(self).bytes().len() {
                spec_grow(old(self).bytes(), new_len as nat, value)
            } else {
                old(self).bytes().subrange(0, new_len as int)
            },
    {
        proof {
            use_type_invariant(&*self);
        }
        let mut data: Vec<u8> = Vec::new();
        std::mem::swap(&mut self.data, &mut data);
        let ghost old_bytes = data@;
        if new_len > data.len() {
            let r = BufMut::grow(&mut data, new_len, value);
        } else {
            data.truncate(new_len);
        }
        self.data = data;
    }

    /// Turns this mutable buffer into a read-only sharable buffer. An empty
    /// buffer turns into one that is not reference counted.
    pub fn freeze(self) -> (b: Bytes)
        ensures
            b.bytes() == self.bytes(),
    {
        proof {
            use_type_invariant(&self);
        }
        if self.data.len() == 0 {
            let b = Bytes::default();
            assert(b.bytes() =~= self.bytes());
            b
        } else {
            let len = self.data.len();
            let b = Bytes {
                inner: BytesInner {
                    handle: self.handle,
                    data: Arc::new(self.data),
                    offset: 0,
                    len,
                },
            };
            assert(b.bytes() =~= self.bytes());
            b
        }
    }

    /// The size of the underlying buffer, i.e. how far this buffer can grow.
    pub fn buf_size(&self) -> (n: usize)
        ensures
            n == self.spec_buf_size(),
    {
        self.buf_size
    }

    /// How this buffer is reference counted. Buffers of size 0 are not; a
    /// counted buffer has at least the one reference that is `self`.
    pub fn ref_count(&self) -> (r: RefCount)
        ensures
            self.spec_buf_size() == 0 <==> r is Static,
            r.spec_counted_at_least_once(),
    {
        proof {
            use_type_invariant(self);
        }
        RefCount::of(&self.handle)
    }

    /// The bytes of the buffer in `range`.
    pub fn view<R: Into<Range>>(&self, range: R) -> (r: Result<&[u8], RangeOutOfBounds>)
        requires
            converts::<R>(),
        ensures
            match as_range(range).spec_slice_bounds(self.bytes().len()) {
                Some((s, e)) => r matches Ok(v) && v@ == self.bytes().subrange(s, e),
                None => r == Err::<&[u8], _>(
                    RangeOutOfBounds {
                        required: as_range(range),
                        bounds: (0, self.bytes().len() as usize),
                    },
                ),
            },
    {
        let range = to_range(range);
        range.slice_get(self.data.as_slice())
    }

    /// The bytes of the buffer in `range`, as one chunk.
    pub fn chunks<R: Into<Range>>(&self, range: R) -> (r: Result<
        SingleChunk<'_>,
        RangeOutOfBounds,
    >)
        requires
            converts::<R>(),
        ensures
            match as_range(range).spec_slice_bounds(self.bytes().len()) {
                Some((s, e)) => r matches Ok(c) && c.remaining_bytes() == seq![
                    self.bytes().subrange(s, e),
                ],
                None => r matches Err(err) && err == RangeOutOfBounds {
                    required: as_range(range),
                    bounds: (0, self.bytes().len() as usize),
                },
            },
    {
        let range = to_range(range);
        match range.slice_get(self.data.as_slice()) {
            Ok(slice) => Ok(SingleChunk::new(slice)),
            Err(e) => Err(e),
        }
    }

    /// Sets the length of the buffer to the length of `range` inside the
    /// buffer, filling new bytes with zeros. Fails if the buffer can't grow
    /// that far.
    pub fn grow_for<R: Into<Range>>(&mut self, range: R) -> (r: Result<(), RangeOutOfBounds>)
        requires
            converts::<R>(),
            as_range(range).fits_in(0),
        ensures
            (*final(self)).spec_buf_size() == old(self).spec_buf_size(),
            ({
                let (s, e) = as_range(range).spec_indices_unchecked(0, old(self).bytes().len() as usize);
                let new_len = e - s;
                if new_len <= old(self).spec_buf_size() {
                    &&& r is Ok
                    &&& (*final(self)).bytes() == if new_len > old(self).bytes().len() {
                        spec_grow(old(self).bytes(), new_len as nat, 0)
                    } else {
                        old(self).bytes().subrange(0, new_len as int)
                    }
                } else {
                    &&& r == Err::<(), _>(
                        RangeOutOfBounds {
                            required: as_range(range),
                            bounds: (0, old(self).spec_buf_size()),
                        },
                    )
                    &&& (*final(self)).bytes() == old(self).bytes()
                }
            }),
    {
        let range = to_range(range);
        let len = self.data.len();
        let new_len = range.len_in(0, len);
        if new_len <= self.buf_size {
            self.resize(new_len, 0);
            Ok(())
        } else {
            Err(RangeOutOfBounds { required: range, bounds: (0, self.buf_size) })
        }
    }

    /// Writes the bytes of `source` in `source_range` into this buffer at
    /// `destination_range`: the buffer is filled with zeros up to the start
    /// of the destination range, overwritten, and extended as far as needed.
    ///
    /// Fails if the source range doesn't fit into the source, the two ranges
    /// differ in length, or the result doesn't fit into the buffer.
    pub fn write<DR: Into<Range>, S: Buf, SR: Into<Range>>(
        &mut self,
        destination_range: DR,
        source: S,
        source_range: SR,
    ) -> (r: Result<(), WriteError>)
        requires
            converts::<DR>(),
            converts::<SR>(),
            copy_range_defined(
                as_range(destination_range),
                as_range(source_range),
                source.bytes().len(),
            ),
        ensures
            (*final(self)).spec_buf_size() == old(self).spec_buf_size(),
            ({
                let dr = as_range(destination_range);
                let sr = as_range(source_range);
                let len = source.bytes().len();
                let s_start = spec_source_start(sr);
                let s_end = spec_source_end(sr, len);
                let n = (s_end - s_start) as nat;
                let d_start = spec_destination_start(dr);
                let d_end = spec_destination_end(dr, n);
                if sr.end matches Some(e) && e > len {
                    &&& r == Err::<(), _>(
                        WriteError::SourceRangeOutOfBounds(
                            RangeOutOfBounds { required: sr, bounds: (0, len as usize) },
                        ),
                    )
                    &&& (*final(self)).bytes() == old(self).bytes()
                } else if d_end - d_start != n {
                    &&& r matches Err(WriteError::LengthMismatch(_))
                    &&& (*final(self)).bytes() == old(self).bytes()
                } else if d_end > old(self).spec_buf_size() {
                    &&& r == Err::<(), _>(
                        WriteError::Full { required: dr, buf_length: old(self).spec_buf_size() },
                    )
                    &&& (*final(self)).bytes() == old(self).bytes()
                } else {
                    &&& r is Ok
                    &&& (*final(self)).bytes() == spec_write(
                        old(self).bytes(),
                        d_start,
                        source.bytes().subrange(s_start as int, s_end as int),
                    )
                }
            }),
    {
        proof {
            use_type_invariant(&*self);
        }
        let ghost dr = as_range(destination_range);
        let destination_range = to_range(destination_range);
        let buf_size = self.buf_size;
        let mut this = BytesMut::default();
        std::mem::swap(self, &mut this);
        let r = copy_range(&mut this, &destination_range, source, source_range);
        std::mem::swap(self, &mut this);
        match r {
            Ok(()) => Ok(()),
            Err(CopyRangeError::SourceRangeOutOfBounds(e)) => Err(
                WriteError::SourceRangeOutOfBounds(e),
            ),
            Err(CopyRangeError::LengthMismatch(e)) => Err(WriteError::LengthMismatch(e)),
            Err(CopyRangeError::DestinationFull(_)) => Err(
                WriteError::Full { required: destination_range, buf_length: buf_size },
            ),
        }
    }
}

impl Default for BytesMut {
    fn default() -> (r: Self)
        ensures
            r.bytes() == Seq::<u8>::empty(),
            r.spec_buf_size() == 0,
    {
        BytesMut { handle: None, data: Vec::new(), buf_size: 0, id: Ghost(0) }
    }
}

impl Length for BytesMut {
    closed spec fn length(&self) -> nat {
        self.data@.len()
    }

    fn len(&self) -> (n: usize) {
        self.data.len()
    }
}

impl Buf for BytesMut {
    closed spec fn bytes(&self) -> Seq<u8> {
        self.data@
    }

    proof fn lemma_length(&self) {
    }

    fn chunk_at(&self, offset: usize) -> (c: &[u8]) {
        vstd::slice::slice_subrange(self.data.as_slice(), offset, self.data.len())
    }
}

impl BufMut for BytesMut {
    closed spec fn capacity_bound(&self) -> Option<nat> {
        Some(self.buf_size as nat)
    }

    fn reserve(&mut self, size: usize) -> (r: Result<(), Full>) {
        proof {
            use_type_invariant(&*self);
        }
        if size <= self.buf_size {
            Ok(())
        } else {
            Err(Full { required: size, capacity: self.buf_size })
        }
    }

    fn size_limit(&self) -> (l: SizeLimit) {
        SizeLimit::Exact(self.buf_size)
    }

    fn grow(&mut self, new_len: usize, value: u8) -> (r: Result<(), Full>) {
        proof {
            use_type_invariant(&*self);
        }
        if new_len <= self.buf_size {
            let mut data: Vec<u8> = Vec::new();
            std::mem::swap(&mut self.data, &mut data);
            let r = BufMut::grow(&mut data, new_len, value);
            self.data = data;
            r
        } else {
            Err(Full { required: new_len, capacity: self.buf_size })
        }
    }

    fn extend(&mut self, with: &[u8]) -> (r: Result<(), Full>) {
        proof {
            use_type_invariant(&*self);
        }
        let len = self.data.len();
        if with.len() <= self.buf_size - len {
            let mut data: Vec<u8> = Vec::new();
            std::mem::swap(&mut self.data, &mut data);
            let r = BufMut::extend(&mut data, with);
            self.data = data;
            r
        } else {
            Err(Full { required: len.saturating_add(with.len()), capacity: self.buf_size })
        }
    }

    fn overwrite(&mut self, offset: usize, with: &[u8]) {
        proof {
            use_type_invariant(&*self);
        }
        let mut data: Vec<u8> = Vec::new();
        std::mem::swap(&mut self.data, &mut data);
        BufMut::overwrite(&mut data, offset, with);
        self.data = data;
    }
}

/// The bytes that a [`Bytes`] refers to.
struct BytesInner {
    handle: Option<Handle>,
    data: Arc<Vec<u8>>,
    offset: usize,
    len: usize,
}

impl BytesInner {
    #[verifier::type_invariant]
    closed spec fn inv(&self) -> bool {
        &&& self.offset + self.len <= self.data@.len()
        &&& self.offset + self.len <= usize::MAX
        &&& self.handle is None ==> self.len == 0
    }

    pub closed spec fn bytes(&self) -> Seq<u8> {
        self.data@.subrange(self.offset as int, self.offset + self.len)
    }

    fn empty() -> (r: Self)
        ensures
            r.bytes() == Seq::<u8>::empty(),
    {
        let r = BytesInner { handle: None, data: Arc::new(Vec::new()), offset: 0, len: 0 };
        assert(r.bytes() =~= Seq::<u8>::empty());
        r
    }

    /// The number of bytes.
    pub fn len(&self) -> (n: usize)
        ensures
            n == self.bytes().len(),
    {
        proof {
            use_type_invariant(self);
        }
        self.len
    }

    fn share(&self) -> (r: Self)
        ensures
            r.bytes() == self.bytes(),
    {
        proof {
            use_type_invariant(self);
        }
        let handle = match &self.handle {
            Some(h) => Some(h.share()),
            None => None,
        };
        BytesInner { handle, data: self.data.clone(), offset: self.offset, len: self.len }
    }
}

/// A share-able read-only buffer.
///
/// These are cheap to clone. Once all the [`Bytes`] referring to the
/// underlying buffer are gone, the buffer is reused by the [`Slab`].
pub struct Bytes {
    inner: BytesInner,
}

impl Bytes {
    /// How this buffer is reference counted. Empty buffers are not; a
    /// counted buffer has at least the one reference that is `self`.
    pub fn ref_count(&self) -> (r: RefCount)
        ensures
            self.bytes().len() == 0 ==> r is Static,
            r.spec_counted_at_least_once(),
    {
        proof {
            use_type_invariant(&self.inner);
        }
        if self.inner.len == 0 {
            RefCount::Static
        } else {
            RefCount::of(&self.inner.handle)
        }
    }

    /// A view of a portion of the buffer, sharing its bytes.
    pub fn view<R: Into<Range>>(&self, range: R) -> (r: Result<Bytes, RangeOutOfBounds>)
        requires
            converts::<R>(),
            as_range(range).fits_in(0),
        ensures
            match as_range(range).spec_slice_bounds(self.bytes().len()) {
                Some((s, e)) => r matches Ok(v) && v.bytes() == self.bytes().subrange(s, e),
                None => r is Err,
            },
    {
        proof {
            use_type_invariant(&self.inner);
        }
        let range = to_range(range);
        match range.indices_checked_in(0, self.inner.len) {
            Err(e) => Err(e),
            Ok((start, end)) => {
                if start == end {
                    let v = Bytes::default();
                    assert(v.bytes() =~= self.bytes().subrange(start as int, end as int));
                    Ok(v)
                } else {
                    let handle = match &self.inner.handle {
                        Some(h) => Some(h.share()),
                        None => None,
                    };
                    let v = Bytes {
                        inner: BytesInner {
                            handle,
                            data: self.inner.data.clone(),
                            offset: self.inner.offset + start,
                            len: end - start,
                        },
                    };
                    assert(v.bytes() =~= self.bytes().subrange(start as int, end as int));
                    Ok(v)
                }
            },
        }
    }

    /// The bytes of the buffer in `range`, as one chunk.
    pub fn chunks<R: Into<Range>>(&self, range: R) -> (r: Result<
        SingleChunk<'_>,
        RangeOutOfBounds,
    >)
        requires
            converts::<R>(),
        ensures
            match as_range(range).spec_slice_bounds(self.bytes().len()) {
                Some((s, e)) => r matches Ok(c) && c.remaining_bytes() == seq![
                    self.bytes().subrange(s, e),
                ],
                None => r is Err,
            },
    {
        proof {
            use_type_invariant(&self.inner);
        }
        let range = to_range(range);
        let bytes = vstd::slice::slice_subrange(
            self.inner.data.as_slice(),
            self.inner.offset,
            self.inner.offset + self.inner.len,
        );
        match range.slice_get(bytes) {
            Ok(slice) => Ok(SingleChunk::new(slice)),
            Err(e) => Err(e),
        }
    }
}

impl Clone for Bytes {
    fn clone(&self) -> (r: Self)
        ensures
            r.bytes() == self.bytes(),
    {
        Bytes { inner: self.inner.share() }
    }
}

impl Default for Bytes {
    fn default() -> (r: Self)
        ensures
            r.bytes() == Seq::<u8>::empty(),
    {
        Bytes { inner: BytesInner::empty() }
    }
}

impl Length for Bytes {
    closed spec fn length(&self) -> nat {
        self.inner.bytes().len()
    }

    fn len(&self) -> (n: usize) {
        self.inner.len()
    }
}

impl Buf for Bytes {
    closed spec fn bytes(&self) -> Seq<u8> {
        self.inner.bytes()
    }

    proof fn lemma_length(&self) {
    }

    fn chunk_at(&self, offset: usize) -> (c: &[u8]) {
        proof {
            use_type_invariant(&self.inner);
        }
        let c = vstd::slice::slice_subrange(
            self.inner.data.as_slice(),
            self.inner.offset + offset,
            self.inner.offset + self.inner.len,
        );
        assert(c@ =~= self.bytes().subrange(offset as int, offset + c@.len()));
        c
    }
}

} // verus!
