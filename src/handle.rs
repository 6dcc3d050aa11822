//! Handles, the blocks they point into, and the heap that holds the blocks.
use vstd::prelude::*;
use crate::protocol::{
    acts_on_live, clones_in, lemma_released_once_at_end, releases, releases_in, run, step,
};

verus! {

/// The record behind every handle of a sized payload: the number of owners
/// beyond the first, followed by the payload.
struct Block<T> {
    count: usize,
    payload: T,
}

/// Size and alignment of a block.
pub struct BlockLayout {
    pub size: usize,
    pub align: usize,
}

/// The memory that blocks live in. Slot `a` holds the block at address `a`
/// while it is allocated and nothing once it is released; addresses are
/// never reused. Payloads of zero-sized types are kept apart from blocks:
/// a `Vec` of them takes no storage.
pub struct Heap<T> {
    blocks: Vec<Option<Block<T>>>,
    units: Vec<T>,
}

/// A shared-ownership handle: the address of a block, or, for a zero-sized
/// payload, of a value that needs no block.
pub struct Arc<T> {
    address: usize,
    zero_sized: bool,
    marker: core::marker::PhantomData<T>,
}

/// Number of released slots in a run of blocks.
pub open spec fn released_in<T>(blocks: Seq<Option<(T, nat)>>) -> nat
    decreases blocks.len(),
{
    if blocks.len() == 0 {
        0
    } else {
        released_in(blocks.drop_last()) + if blocks.last() is None {
            1nat
        } else {
            0nat
        }
    }
}

/// The blocks after a clone of a handle to the block at `a`: it gains an owner.
pub open spec fn after_clone<T>(blocks: Seq<Option<(T, nat)>>, a: int) -> Seq<Option<(T, nat)>> {
    blocks.update(a, Some((blocks[a].unwrap().0, step(blocks[a].unwrap().1, true))))
}

/// The blocks after a drop of a handle to the block at `a`: it loses an owner,
/// and is released when that was its last.
pub open spec fn after_drop<T>(blocks: Seq<Option<(T, nat)>>, a: int) -> Seq<Option<(T, nat)>> {
    if releases(blocks[a].unwrap().1, false) {
        blocks.update(a, None)
    } else {
        blocks.update(a, Some((blocks[a].unwrap().0, step(blocks[a].unwrap().1, false))))
    }
}

/// The blocks after a run of clones (`true`) and drops (`false`) of handles
/// to the block at `a`.
pub open spec fn apply<T>(blocks: Seq<Option<(T, nat)>>, a: int, events: Seq<bool>) -> Seq<
    Option<(T, nat)>,
>
    decreases events.len(),
{
    if events.len() == 0 {
        blocks
    } else {
        let before = apply(blocks, a, events.drop_last());
        if events.last() {
            after_clone(before, a)
        } else {
            after_drop(before, a)
        }
    }
}

proof fn lemma_released_in_update<T>(blocks: Seq<Option<(T, nat)>>, a: int, slot: Option<(T, nat)>)
    requires
        0 <= a < blocks.len(),
    ensures
        released_in(blocks.update(a, slot)) + (if blocks[a] is None {
            1nat
        } else {
            0nat
        }) == released_in(blocks) + (if slot is None {
            1nat
        } else {
            0nat
        }),
    decreases blocks.len(),
{
    let updated = blocks.update(a, slot);
    if a == blocks.len() - 1 {
        assert(updated.drop_last() == blocks.drop_last());
    } else {
        assert(updated.drop_last() == blocks.drop_last().update(a, slot));
        lemma_released_in_update(blocks.drop_last(), a, slot);
    }
}

proof fn lemma_apply_follows_run<T>(blocks: Seq<Option<(T, nat)>>, a: int, events: Seq<bool>)
    requires
        0 <= a < blocks.len(),
        blocks[a] is Some,
        blocks[a].unwrap().1 >= 1,
        acts_on_live(blocks[a].unwrap().1, events),
    ensures
        apply(blocks, a, events).len() == blocks.len(),
        forall|i: int| 0 <= i < blocks.len() && i != a ==> apply(blocks, a, events)[i] == blocks[i],
        run(blocks[a].unwrap().1, events) >= 1 ==> apply(blocks, a, events)[a] == Some(
            (blocks[a].unwrap().0, run(blocks[a].unwrap().1, events)),
        ),
        run(blocks[a].unwrap().1, events) == 0 ==> apply(blocks, a, events)[a] is None,
        released_in(apply(blocks, a, events)) == released_in(blocks) + if run(
            blocks[a].unwrap().1,
            events,
        ) == 0 {
            1nat
        } else {
            0nat
        },
    decreases events.len(),
{
    if events.len() > 0 {
        let owners = blocks[a].unwrap().1;
        let before = events.drop_last();
        assert forall|k: int| 0 <= k < before.len() implies run(owners, #[trigger] before.take(k))
            >= 1 by {
            assert(before.take(k) == events.take(k));
        }
        lemma_apply_follows_run(blocks, a, before);
        assert(events.take(events.len() - 1) == before);
        let prev = apply(blocks, a, before);
        let next = apply(blocks, a, events);
        if events.last() {
            lemma_released_in_update(prev, a, next[a]);
        } else if releases(prev[a].unwrap().1, false) {
            lemma_released_in_update(prev, a, None);
        } else {
            lemma_released_in_update(prev, a, next[a]);
        }
    }
}

/// A block made with one owner, then put through any order of `n` clones and
/// `n + 1` drops of its handles in which each event acts on a live block, is
/// released exactly once: it stays allocated, with its payload, after every
/// proper prefix of the run, and is released by the last event, which adds
/// one to the heap's count of released blocks. No other block changes.
pub proof fn lemma_block_released_once<T>(
    blocks: Seq<Option<(T, nat)>>,
    a: int,
    n: nat,
    events: Seq<bool>,
)
    requires
        0 <= a < blocks.len(),
        blocks[a] is Some,
        blocks[a].unwrap().1 == 1,
        events.len() == 2 * n + 1,
        clones_in(events) == n,
        acts_on_live(1, events),
    ensures
        apply(blocks, a, events)[a] is None,
        releases_in(1, events) == 1,
        released_in(apply(blocks, a, events)) == released_in(blocks) + 1,
        forall|k: int|
            0 <= k < events.len() ==> #[trigger] apply(blocks, a, events.take(k))[a] == Some(
                (blocks[a].unwrap().0, run(1, events.take(k))),
            ),
        forall|i: int| 0 <= i < blocks.len() && i != a ==> apply(blocks, a, events)[i] == blocks[i],
{
    lemma_released_once_at_end(n, events);
    lemma_apply_follows_run(blocks, a, events);
    assert forall|k: int| 0 <= k < events.len() implies #[trigger] apply(
        blocks,
        a,
        events.take(k),
    )[a] == Some((blocks[a].unwrap().0, run(1, events.take(k)))) by {
        let prefix = events.take(k);
        assert forall|j: int| 0 <= j < prefix.len() implies run(1, #[trigger] prefix.take(j))
            >= 1 by {
            assert(prefix.take(j) == events.take(j));
        }
        lemma_apply_follows_run(blocks, a, prefix);
    }
}

impl<T> Heap<T> {
    /// Every block ever allocated, by address: its payload and number of
    /// owners while it is allocated, `None` once released.
    pub closed spec fn blocks(&self) -> Seq<Option<(T, nat)>> {
        self.blocks@.map_values(
            |b: Option<Block<T>>|
                match b {
                    Some(b) => Some((b.payload, b.count as nat + 1)),
                    None => None,
                },
        )
    }

    /// The zero-sized payloads, by address.
    pub closed spec fn units(&self) -> Seq<T> {
        self.units@
    }

    /// The handle points at an allocated block, or at a zero-sized payload.
    pub open spec fn holds(&self, h: &Arc<T>) -> bool {
        &&& h.is_unit() == (vstd::layout::size_of::<T>() == 0)
        &&& if h.is_unit() {
            h.address() < self.units().len()
        } else {
            h.address() < self.blocks().len() && self.blocks()[h.address()] is Some
        }
    }

    /// The payload that a held handle reaches.
    pub open spec fn value(&self, h: &Arc<T>) -> T {
        if h.is_unit() {
            self.units()[h.address()]
        } else {
            self.blocks()[h.address()].unwrap().0
        }
    }

    /// The number of owners of the block that a held handle points at.
    pub open spec fn owners(&self, h: &Arc<T>) -> nat {
        self.blocks()[h.address()].unwrap().1
    }

    /// Cloning a held handle and then dropping the clone leaves every block as
    /// it was: the original still reaches its payload, with the same owners.
    pub proof fn lemma_clone_then_drop(&self, h: &Arc<T>)
        requires
            self.holds(h),
        ensures
            !h.is_unit() ==> after_drop(after_clone(self.blocks(), h.address()), h.address())
                == self.blocks(),
            !h.is_unit() ==> after_clone(self.blocks(), h.address())[h.address()] is Some,
    {
        if !h.is_unit() {
            assert(after_drop(after_clone(self.blocks(), h.address()), h.address())
                =~= self.blocks());
        }
    }

    /// An empty heap.
    pub fn new() -> (r: Self)
        ensures
            r.blocks() == Seq::<Option<(T, nat)>>::empty(),
            r.units() == Seq::<T>::empty(),
    {
        let r = Heap { blocks: Vec::new(), units: Vec::new() };
        assert(r.blocks() =~= Seq::<Option<(T, nat)>>::empty());
        r
    }

    /// How many blocks have been allocated.
    pub fn allocations(&self) -> (r: usize)
        ensures
            r == self.blocks().len(),
    {
        self.blocks.len()
    }

    /// How many blocks have been released.
    pub fn deallocations(&self) -> (r: usize)
        ensures
            r == released_in(self.blocks()),
    {
        let mut n: usize = 0;
        let mut i: usize = 0;
        while i < self.blocks.len()
            invariant
                i <= self.blocks().len(),
                n <= i,
                n == released_in(self.blocks().take(i as int)),
            decreases self.blocks().len() - i,
        {
            assert(self.blocks().take(i + 1).drop_last() == self.blocks().take(i as int));
            if self.blocks[i].is_none() {
                n = n + 1;
            }
            i = i + 1;
        }
        assert(self.blocks().take(i as int) == self.blocks());
        n
    }
}

impl<T> Arc<T> {
    /// The address the handle carries.
    pub closed spec fn address(&self) -> int {
        self.address as int
    }

    /// The handle reaches a zero-sized payload rather than a block.
    pub closed spec fn is_unit(&self) -> bool {
        self.zero_sized
    }

    /// Makes a handle to `payload`, its only owner. A sized payload goes into
    /// a fresh block at the next address; a zero-sized one takes no block.
    pub fn new(heap: &mut Heap<T>, payload: T) -> (r: Arc<T>)
        ensures
            final(heap).holds(&r),
            final(heap).value(&r) == payload,
            r.is_unit() == (vstd::layout::size_of::<T>() == 0),
            vstd::layout::size_of::<T>() == 0 ==> {
                &&& final(heap).blocks() == old(heap).blocks()
                &&& final(heap).units() == old(heap).units().push(payload)
                &&& r.address() == old(heap).units().len()
            },
            vstd::layout::size_of::<T>() != 0 ==> {
                &&& final(heap).blocks() == old(heap).blocks().push(Some((payload, 1nat)))
                &&& final(heap).units() == old(heap).units()
                &&& r.address() == old(heap).blocks().len()
                &&& final(heap).owners(&r) == 1
            },
    {
        if Self::is_zero_sized() {
            let address = heap.units.len();
            heap.units.push(payload);
            Arc { address, zero_sized: true, marker: core::marker::PhantomData }
        } else {
            let address = heap.blocks.len();
            heap.blocks.push(Some(Block { count: 0, payload }));
            assert(heap.blocks() =~= old(heap).blocks().push(Some((payload, 1nat))));
            Arc { address, zero_sized: false, marker: core::marker::PhantomData }
        }
    }

    /// Reads the payload that the handle reaches.
    pub fn deref<'a>(&'a self, heap: &'a Heap<T>) -> (r: &'a T)
        requires
            heap.holds(self),
        ensures
            *r == heap.value(self),
    {
        if self.zero_sized {
            &heap.units[self.address]
        } else {
            let block = heap.blocks[self.address].as_ref().unwrap();
            &block.payload
        }
    }

    /// Makes another handle to the same payload. The block gains an owner;
    /// a zero-sized payload has no count to change.
    pub fn clone(&self, heap: &mut Heap<T>) -> (r: Arc<T>)
        requires
            old(heap).holds(self),
            !self.is_unit() ==> old(heap).owners(self) <= usize::MAX,
        ensures
            r.address() == self.address(),
            r.is_unit() == self.is_unit(),
            final(heap).holds(&r),
            final(heap).value(&r) == old(heap).value(self),
            final(heap).units() == old(heap).units(),
            vstd::layout::size_of::<T>() == 0 ==> final(heap).blocks() == old(heap).blocks(),
            !self.is_unit() ==> final(heap).blocks() == after_clone(old(heap).blocks(), self.address()),
    {
        if !self.zero_sized {
            let mut slot: Option<Block<T>> = None;
            core::mem::swap(&mut heap.blocks[self.address], &mut slot);
            let mut block = slot.unwrap();
            block.count = block.count + 1;
            heap.blocks.set(self.address, Some(block));
            assert(heap.blocks() =~= after_clone(old(heap).blocks(), self.address()));
        }
        Arc { address: self.address, zero_sized: self.zero_sized, marker: core::marker::PhantomData }
    }

    /// Gives up this handle. The block loses an owner, and is released when
    /// this was its last one; a zero-sized payload has no count to change.
    pub fn drop(self, heap: &mut Heap<T>)
        requires
            old(heap).holds(&self),
        ensures
            final(heap).units() == old(heap).units(),
            vstd::layout::size_of::<T>() == 0 ==> final(heap).blocks() == old(heap).blocks(),
            !self.is_unit() ==> final(heap).blocks() == after_drop(old(heap).blocks(), self.address()),
    {
        if !self.zero_sized {
            let mut slot: Option<Block<T>> = None;
            core::mem::swap(&mut heap.blocks[self.address], &mut slot);
            let mut block = slot.unwrap();
            if block.count == 0 {
                assert(heap.blocks() =~= after_drop(old(heap).blocks(), self.address()));
            } else {
                block.count = block.count - 1;
                heap.blocks.set(self.address, Some(block));
                assert(heap.blocks() =~= after_drop(old(heap).blocks(), self.address()));
            }
        }
    }

    /// Reports whether values of `T` occupy no storage.
    pub fn is_zero_sized() -> (r: bool)
        ensures
            r == (vstd::layout::size_of::<T>() == 0),
    {
        core::mem::size_of::<T>() == 0
    }

    /// Size and alignment of the block that holds a payload of type `T`.
    pub fn block_layout() -> (r: BlockLayout)
        ensures
            r.size as nat == vstd::layout::size_of::<Block<T>>(),
            r.align as nat == vstd::layout::align_of::<Block<T>>(),
    {
        vstd::layout::layout_for_type_is_valid::<Block<T>>();
        BlockLayout { size: core::mem::size_of::<Block<T>>(), align: core::mem::align_of::<Block<T>>() }
    }
}

} // verus!
