//! Which memory of a pool belongs to which object.

use crate::image::{LogRecord, PoolView};
use crate::table::{EntryView, FreedBlock, Probe};
use vstd::prelude::*;

verus! {

impl EntryView {
    /// The addresses of the block that the object lies in.
    pub open spec fn block(self) -> Set<int> {
        match self.data {
            Some(address) => crate::heap::span(
                address as int,
                crate::heap::block_len(self.type_size as int),
            ),
            None => Set::empty(),
        }
    }
}

impl PoolView {
    /// Memory is in order: objects that are there or were given up have a block, free slots have
    /// none, objects lie in the memory of the pool, no two blocks overlap, and no block is free.
    pub open spec fn tidy(self, free: Set<int>) -> bool {
        &&& forall|i: int| #![trigger self.table[i]]
            0 <= i < self.table.len() ==> {
                &&& self.table[i].live() || self.table[i].done ==> self.table[i].data is Some
                &&& Probe::Free.hits(self.table[i]) ==> self.table[i].data is None
                &&& self.table[i].data matches Some(address) ==> self.holds(
                    address as int,
                    self.table[i].type_size as int,
                )
                &&& self.table[i].block().disjoint(free)
            }
        &&& forall|i: int, j: int| #![trigger self.table[i], self.table[j]]
            0 <= i < j < self.table.len() ==> self.table[i].block().disjoint(self.table[j].block())
    }

    /// The same objects in the same slots, whatever their flags, in as much memory.
    pub open spec fn same_blocks(self, other: PoolView) -> bool {
        &&& self.start == other.start
        &&& self.memory.len() == other.memory.len()
        &&& self.table.len() == other.table.len()
        &&& forall|i: int| #![trigger self.table[i]]
            0 <= i < self.table.len() ==> {
                &&& self.table[i].data == other.table[i].data
                &&& self.table[i].type_size == other.table[i].type_size
                &&& self.table[i].live() || self.table[i].done ==> self.table[i].data is Some
                &&& Probe::Free.hits(self.table[i]) ==> self.table[i].data is None
            }
    }
}

/// The addresses of the blocks that go back to the heap.
pub open spec fn returned(freed: Seq<FreedBlock>) -> Set<int> {
    Set::new(
        |x: int|
            exists|k: int|
                0 <= k < freed.len() && #[trigger] crate::heap::span(
                    freed[k].address as int,
                    crate::heap::block_len(freed[k].size as int),
                ).contains(x),
    )
}

/// A pool that refers to no object is in order, whatever memory is free.
pub proof fn law_blank_pool_is_tidy(pool: PoolView, free: Set<int>)
    requires
        forall|i: int| 0 <= i < pool.table.len() ==> #[trigger] pool.table[i] == EntryView::blank(),
    ensures
        pool.tidy(free),
{
}

/// Where memory is in order, a transaction can be taken back.
pub proof fn law_tidy_pool_is_startable(pool: PoolView, free: Set<int>)
    requires
        pool.tidy(free),
    ensures
        crate::undo::startable(pool, free),
{
    assert forall|i: int| #![trigger pool.table[i]]
        0 <= i < pool.table.len() && pool.table[i].data is Some implies {
        &&& pool.table[i].block().contains(pool.table[i].data->Some_0 as int)
        &&& forall|x: int| pool.table[i].spans(x) ==> #[trigger] pool.table[i].block().contains(x)
    } by {
        crate::heap::lemma_block_len(pool.table[i].type_size as int);
    }
    assert forall|i: int, j: int| #![trigger pool.table[i], pool.table[j]]
        0 <= i < pool.table.len() && 0 <= j < pool.table.len() && pool.table[i].data is Some
            && pool.table[i].data == pool.table[j].data implies i == j by {
        let x = pool.table[i].data->Some_0 as int;
        assert(pool.table[i].block().contains(x));
        assert(pool.table[j].block().contains(x));
    }
    assert forall|i: int, x: int| #![trigger pool.table[i].spans(x)]
        0 <= i < pool.table.len() && pool.table[i].live() && pool.table[i].spans(x) implies
        !free.contains(x) by {
        assert(pool.table[i].block().contains(x));
    }
}

/// Where memory is in order, recovery knows the blocks that it gives back.
pub proof fn law_tidy_pool_is_sound(pool: PoolView, free: Set<int>)
    requires
        pool.tidy(free),
        pool.memory.len() <= isize::MAX - 63,
    ensures
        pool.sound(),
{
}

/// Memory in which the same objects lie is in order too, where no more of it is free.
pub proof fn lemma_same_blocks(before: PoolView, after: PoolView, free: Set<int>, left: Set<int>)
    requires
        before.tidy(free),
        after.same_blocks(before),
        left.subset_of(free),
    ensures
        after.tidy(left),
{
    assert forall|i: int| #![trigger after.table[i]] 0 <= i < after.table.len() implies {
        &&& after.table[i].block() == before.table[i].block()
        &&& after.table[i].block().disjoint(left)
    } by {
        assert(before.table[i].block().disjoint(free));
    }
    assert forall|i: int, j: int| #![trigger after.table[i], after.table[j]]
        0 <= i < j < after.table.len() implies after.table[i].block().disjoint(
        after.table[j].block(),
    ) by {
        assert(before.table[i].block().disjoint(before.table[j].block()));
    }
}

/// An object in a block that was free keeps memory in order.
pub proof fn lemma_new_block(
    before: PoolView,
    after: PoolView,
    free: Set<int>,
    slot: int,
    entry: EntryView,
)
    requires
        before.tidy(free),
        0 <= slot < before.table.len(),
        after.start == before.start,
        after.memory.len() == before.memory.len(),
        after.table == before.table.update(slot, entry),
        entry.active,
        entry.data matches Some(address) && before.holds(address as int, entry.type_size as int),
        entry.block().subset_of(free),
    ensures
        after.tidy(free.difference(entry.block())),
{
    let left = free.difference(entry.block());
    assert forall|i: int| #![trigger after.table[i]] 0 <= i < after.table.len() implies {
        &&& after.table[i].live() || after.table[i].done ==> after.table[i].data is Some
        &&& Probe::Free.hits(after.table[i]) ==> after.table[i].data is None
        &&& after.table[i].data matches Some(address) ==> after.holds(
            address as int,
            after.table[i].type_size as int,
        )
        &&& after.table[i].block().disjoint(left)
    } by {
        if i != slot {
            assert(before.table[i].block().disjoint(free));
        }
    }
    assert forall|i: int, j: int| #![trigger after.table[i], after.table[j]]
        0 <= i < j < after.table.len() implies after.table[i].block().disjoint(
        after.table[j].block(),
    ) by {
        assert(before.table[i].block().disjoint(free));
        assert(before.table[j].block().disjoint(free));
        assert(before.table[i].block().disjoint(before.table[j].block()));
    }
}

/// A slot that was claimed for an object that it did not get keeps memory in order, where the
/// slot referred to no object.
pub proof fn lemma_claimed_slot(
    before: PoolView,
    free: Set<int>,
    left: Set<int>,
    slot: int,
    claim: EntryView,
)
    requires
        before.tidy(free),
        left.subset_of(free),
        0 <= slot < before.table.len(),
        claim.data is None,
        !claim.live(),
        !claim.done,
    ensures
        before.with(slot, claim).tidy(left),
{
    let after = before.with(slot, claim);
    assert forall|i: int| #![trigger after.table[i]] 0 <= i < after.table.len() implies {
        &&& after.table[i].live() || after.table[i].done ==> after.table[i].data is Some
        &&& Probe::Free.hits(after.table[i]) ==> after.table[i].data is None
        &&& after.table[i].data matches Some(address) ==> after.holds(
            address as int,
            after.table[i].type_size as int,
        )
        &&& after.table[i].block().disjoint(left)
    } by {
        if i != slot {
            assert(before.table[i].block().disjoint(free));
        }
    }
    assert forall|i: int, j: int| #![trigger after.table[i], after.table[j]]
        0 <= i < j < after.table.len() implies after.table[i].block().disjoint(
        after.table[j].block(),
    ) by {
        assert(before.table[i].block().disjoint(before.table[j].block()));
    }
}

/// Undoing operations keeps memory in order.
pub proof fn law_rollback_keeps_tidy(pool: PoolView, records: Seq<LogRecord>, free: Set<int>)
    requires
        pool.tidy(free),
    ensures
        pool.rolled_back(records).tidy(free),
    decreases records.len(),
{
    if records.len() > 0 {
        let last = records.last();
        let rest = records.drop_last();
        if last.op.pool_base_address == pool.base {
            let next = pool.undone(last);
            let address = last.op.absolute_address;
            crate::table::lemma_find(Probe::At(address), pool.table);
            crate::table::lemma_find(Probe::Dropped, pool.table);
            assert(next.same_blocks(pool));
            lemma_same_blocks(pool, next, free, free);
            law_rollback_keeps_tidy(next, rest, free);
        } else {
            law_rollback_keeps_tidy(pool, rest, free);
        }
    }
}

/// What goes back to the heap is blocks of slots that recovery empties.
proof fn lemma_returned(table: Seq<EntryView>, x: int)
    requires
        returned(crate::image::released_by(table)).contains(x),
    ensures
        exists|i: int| #![trigger table[i]]
            0 <= i < table.len() && table[i].discarded() && table[i].block().contains(x),
    decreases table.len(),
{
    let all = crate::image::released_by(table);
    let k = choose|k: int|
        0 <= k < all.len() && #[trigger] crate::heap::span(
            all[k].address as int,
            crate::heap::block_len(all[k].size as int),
        ).contains(x);
    if table.len() > 0 {
        let rest = crate::image::released_by(table.drop_last());
        if k < rest.len() {
            assert(rest[k] == all[k]);
            assert(crate::heap::span(
                rest[k].address as int,
                crate::heap::block_len(rest[k].size as int),
            ).contains(x));
            lemma_returned(table.drop_last(), x);
            let i = choose|i: int| #![trigger table.drop_last()[i]]
                0 <= i < table.drop_last().len() && table.drop_last()[i].discarded()
                    && table.drop_last()[i].block().contains(x);
            assert(table[i] == table.drop_last()[i]);
        } else {
            assert(all[k] == table.last().released()[k - rest.len()]);
            assert(table[table.len() - 1].block().contains(x));
        }
    }
}

/// Recovery keeps memory in order when the heap gets the blocks back that recovery frees.
pub proof fn law_recovery_keeps_tidy(pool: PoolView, free: Set<int>)
    requires
        pool.tidy(free),
    ensures
        pool.recovered().tidy(free.union(returned(pool.released()))),
{
    let after = pool.recovered();
    let more = free.union(returned(pool.released()));
    assert forall|i: int| #![trigger after.table[i]] 0 <= i < after.table.len() implies {
        &&& after.table[i].live() || after.table[i].done ==> after.table[i].data is Some
        &&& Probe::Free.hits(after.table[i]) ==> after.table[i].data is None
        &&& after.table[i].data matches Some(address) ==> after.holds(
            address as int,
            after.table[i].type_size as int,
        )
        &&& after.table[i].block().disjoint(more)
    } by {
        assert(after.table[i] == pool.table[i].recovered());
        assert forall|x: int| after.table[i].block().contains(x) implies !more.contains(x) by {
            assert(pool.table[i].block().contains(x));
            if returned(pool.released()).contains(x) {
                lemma_returned(pool.table, x);
                let j = choose|j: int| #![trigger pool.table[j]]
                    0 <= j < pool.table.len() && pool.table[j].discarded()
                        && pool.table[j].block().contains(x);
                assert(pool.table[j].block().contains(x));
                assert(i != j);
            }
        }
    }
    assert forall|i: int, j: int| #![trigger after.table[i], after.table[j]]
        0 <= i < j < after.table.len() implies after.table[i].block().disjoint(
        after.table[j].block(),
    ) by {
        assert(after.table[i] == pool.table[i].recovered());
        assert(after.table[j] == pool.table[j].recovered());
        assert(pool.table[i].block().disjoint(pool.table[j].block()));
    }
}

} // verus!
