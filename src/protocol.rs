//! The ownership protocol of one block, as a state machine over its number
//! of owners.
use vstd::prelude::*;

verus! {

/// Owners of a block after one event: a clone (`true`) adds an owner, a drop
/// (`false`) removes one.
pub open spec fn step(owners: nat, is_clone: bool) -> nat {
    if is_clone {
        owners + 1
    } else {
        (owners - 1) as nat
    }
}

/// An event releases the block when it is the drop of its last owner.
pub open spec fn releases(owners: nat, is_clone: bool) -> bool {
    !is_clone && owners == 1
}

/// Owners after a run of events, starting from `owners`.
pub open spec fn run(owners: nat, events: Seq<bool>) -> nat
    decreases events.len(),
{
    if events.len() == 0 {
        owners
    } else {
        step(run(owners, events.drop_last()), events.last())
    }
}

/// How many events of the run released the block.
pub open spec fn releases_in(owners: nat, events: Seq<bool>) -> nat
    decreases events.len(),
{
    if events.len() == 0 {
        0
    } else {
        releases_in(owners, events.drop_last()) + if releases(
            run(owners, events.drop_last()),
            events.last(),
        ) {
            1nat
        } else {
            0nat
        }
    }
}

/// How many events of the run are clones.
pub open spec fn clones_in(events: Seq<bool>) -> nat
    decreases events.len(),
{
    if events.len() == 0 {
        0
    } else {
        clones_in(events.drop_last()) + if events.last() {
            1nat
        } else {
            0nat
        }
    }
}

/// Every event of the run acts on a block that still has an owner.
pub open spec fn acts_on_live(owners: nat, events: Seq<bool>) -> bool {
    forall|k: int| 0 <= k < events.len() ==> run(owners, #[trigger] events.take(k)) >= 1
}

proof fn lemma_run_counts(owners: nat, events: Seq<bool>)
    requires
        owners >= 1,
        acts_on_live(owners, events),
    ensures
        run(owners, events) == owners + clones_in(events) - (events.len() - clones_in(events)),
        releases_in(owners, events) == if run(owners, events) == 0 {
            1nat
        } else {
            0nat
        },
    decreases events.len(),
{
    if events.len() > 0 {
        let before = events.drop_last();
        assert forall|k: int| 0 <= k < before.len() implies run(owners, #[trigger] before.take(k))
            >= 1 by {
            assert(before.take(k) == events.take(k));
        }
        lemma_run_counts(owners, before);
        assert(events.take(events.len() - 1) == before);
    }
}

/// After a block is made with one owner, any order of `n` clones and `n + 1`
/// drops in which each event acts on a live block releases the block exactly
/// once, at the last event, and never before it.
pub proof fn lemma_released_once_at_end(n: nat, events: Seq<bool>)
    requires
        events.len() == 2 * n + 1,
        clones_in(events) == n,
        acts_on_live(1, events),
    ensures
        run(1, events) == 0,
        releases_in(1, events) == 1,
        forall|k: int| 0 <= k < events.len() ==> releases_in(1, #[trigger] events.take(k)) == 0,
{
    lemma_run_counts(1, events);
    assert forall|k: int| 0 <= k < events.len() implies releases_in(1, #[trigger] events.take(k))
        == 0 by {
        let prefix = events.take(k);
        assert forall|j: int| 0 <= j < prefix.len() implies run(1, #[trigger] prefix.take(j))
            >= 1 by {
            assert(prefix.take(j) == events.take(j));
        }
        lemma_run_counts(1, prefix);
    }
}

} // verus!
