//! What holds over all the operations of a transaction, and over transactions that follow each
//! other.

use crate::allocator::GlobalPersistentAllocator;
use crate::image::PoolView;
use crate::pool::PoolError;
use crate::table::{EntryView, FreedBlock, Probe};
use crate::transaction::{Begun, TransactionContext, TypeInfo};
use vstd::prelude::*;

verus! {

/// An operation of a transaction, and what came of it.
pub enum Operation {
    /// An object is stored under an identifier.
    Store { id: Seq<u8>, ty: TypeInfo, data: Seq<u8>, placed: Result<u64, PoolError> },
    /// The object at an address is changed.
    Change { address: u64, ty: TypeInfo, data: Seq<u8>, result: Result<(), PoolError> },
    /// The object under an identifier is given up.
    GiveUp { id: Seq<u8>, result: Result<(), PoolError> },
}

impl Operation {
    /// The operation led from one state of the transaction to the other.
    pub open spec fn led(self, before: TransactionContext, after: TransactionContext) -> bool {
        match self {
            Operation::Store { id, ty, data, placed } => {
                data.len() == ty.size && after.allocated(before, id, ty, data, placed)
            },
            Operation::Change { address, ty, data, result } => {
                data.len() == ty.size && after.modified(before, address, ty, data, result)
            },
            Operation::GiveUp { id, result } => after.deallocated(before, id, result),
        }
    }

    /// The slot whose object the operation changes or gives up.
    pub open spec fn concerns(self, before: TransactionContext) -> Option<int> {
        match self {
            Operation::Store { id, .. } => before.stored_under(id),
            Operation::Change { address, .. } => before.slot_of(address),
            Operation::GiveUp { id, .. } => before.stored_under(id),
        }
    }

    /// An object that the operation writes to is at least as large as what is written.
    pub open spec fn fits(self, before: TransactionContext) -> bool {
        match self {
            Operation::Store { id, ty, .. } => before.stored_under(id) matches Some(slot)
                ==> before.pool@.table[slot].type_hash == ty.hash() ==> ty.size
                <= before.pool@.table[slot].type_size,
            Operation::Change { address, ty, .. } => before.slot_of(address) matches Some(slot)
                ==> ty.size <= before.pool@.table[slot].type_size,
            Operation::GiveUp { .. } => true,
        }
    }
}

/// An object of the transaction has an address of its own.
pub proof fn lemma_object_at(context: TransactionContext, slot: int)
    requires
        context.wf(),
        context.tidy(),
        0 <= slot < context.pool@.table.len(),
        context.has_object(slot),
    ensures
        context.pool@.table[slot].data matches Some(address) && context.slot_of(address) == Some(
            slot,
        ),
{
    let pending = context.pending_changes@;
    let table = context.pool@.table;
    assert(table[slot].data is Some) by {
        if crate::transaction::is_pending(pending, slot) {
            let k = choose|k: int| 0 <= k < pending.len() && (#[trigger] pending[k]).entry == slot;
            assert(table[pending[k].entry as int].data is Some);
        }
    }
    let address = table[slot].data->Some_0;
    crate::table::lemma_find(Probe::LiveAt(address), table);
    crate::transaction::lemma_pending_slot(pending, address);
    if context.slot_of(address) is None {
        assert(!Probe::LiveAt(address).hits(table[slot]));
        let k = choose|k: int| 0 <= k < pending.len() && (#[trigger] pending[k]).entry == slot;
        lemma_pending_address(pending, address, k);
    }
    let found = context.slot_of(address)->Some_0;
    assert(table[found].data == Some(address)) by {
        if Probe::LiveAt(address).find(table) is None {
            let k = choose|k: int|
                0 <= k < pending.len() && (#[trigger] pending[k]).entry == found
                    && pending[k].data_ptr == address;
            assert(table[pending[k].entry as int].data == Some(address));
        }
    }
    crate::heap::lemma_block_len(table[slot].type_size as int);
    crate::heap::lemma_block_len(table[found].type_size as int);
    assert(table[slot].block().contains(address as int));
    assert(table[found].block().contains(address as int));
    if slot < found {
        assert(table[slot].block().disjoint(table[found].block()));
    } else if found < slot {
        assert(table[found].block().disjoint(table[slot].block()));
    }
}

/// An address of a pending change is found.
pub proof fn lemma_pending_address(
    pending: Seq<crate::transaction::PendingChange>,
    address: u64,
    k: int,
)
    requires
        0 <= k < pending.len(),
        pending[k].data_ptr == address,
    ensures
        crate::transaction::pending_slot(pending, address) is Some,
    decreases pending.len(),
{
    if k < pending.len() - 1 {
        assert(pending.drop_last()[k] == pending[k]);
        lemma_pending_address(pending.drop_last(), address, k);
    }
}

/// The slot of an address holds an object of the transaction.
pub proof fn lemma_slot_of(context: TransactionContext, address: u64)
    requires
        context.wf(),
        context.slot_of(address) is Some,
    ensures
        ({
            let slot = context.slot_of(address)->Some_0;
            &&& 0 <= slot < context.pool@.table.len()
            &&& context.has_object(slot)
            &&& context.pool@.table[slot].data == Some(address)
        }),
{
    let pending = context.pending_changes@;
    crate::table::lemma_find(Probe::LiveAt(address), context.pool@.table);
    crate::transaction::lemma_pending_slot(pending, address);
    let slot = context.slot_of(address)->Some_0;
    if Probe::LiveAt(address).find(context.pool@.table) is None {
        let k = choose|k: int|
            0 <= k < pending.len() && (#[trigger] pending[k]).entry == slot && pending[k].data_ptr
                == address;
        assert(context.pool@.table[pending[k].entry as int].data == Some(address));
    }
}

/// A change of another object leaves an object where it is, with its bytes.
proof fn lemma_change_keeps(
    before: TransactionContext,
    after: TransactionContext,
    address: u64,
    ty: TypeInfo,
    data: Seq<u8>,
    result: Result<(), PoolError>,
    slot: int,
)
    requires
        before.wf(),
        before.tidy(),
        after.modified(before, address, ty, data, result),
        data.len() == ty.size,
        before.slot_of(address) matches Some(changed) ==> slot != changed && ty.size
            <= before.pool@.table[changed].type_size,
        0 <= slot < before.pool@.table.len(),
        before.has_object(slot),
    ensures
        after.has_object(slot),
        after.pool@.table[slot] == before.pool@.table[slot],
        forall|x: int|
            before.pool@.table[slot].spans(x) ==> #[trigger] after.pool@.byte(x)
                == before.pool@.byte(x),
{
    crate::laws::law_modification_keeps_other_objects(
        before,
        after,
        address,
        ty,
        data,
        result,
        slot,
    );
    if result is Ok && before.slot_of(address) is Some {
        crate::laws::lemma_modified_objects(before, after, address, ty, data, slot);
    }
}

/// An operation on another object leaves an object where it is, with its bytes.
pub proof fn law_operation_keeps_other_objects(
    before: TransactionContext,
    after: TransactionContext,
    op: Operation,
    slot: int,
)
    requires
        before.wf(),
        before.tidy(),
        op.led(before, after),
        op.fits(before),
        0 <= slot < before.pool@.table.len(),
        before.has_object(slot),
        op.concerns(before) != Some(slot),
    ensures
        after.has_object(slot),
        after.pool@.table[slot] == before.pool@.table[slot],
        forall|x: int|
            before.pool@.table[slot].spans(x) ==> #[trigger] after.pool@.byte(x)
                == before.pool@.byte(x),
{
    let pending = before.pending_changes@;
    match op {
        Operation::Store { id, ty, data, placed } => {
            crate::search::lemma_first_true(before.stored(id));
            crate::table::lemma_find(Probe::Free, before.pool@.table);
            if let Some(found) = before.stored_under(id) {
                assert(before.stored(id)[found]);
                lemma_object_at(before, found);
                let address = before.pool@.table[found].data->Some_0;
                if id.len() <= 32 && before.pool@.table[found].type_hash == ty.hash() {
                    let outcome: Result<(), PoolError> = match placed {
                        Ok(_) => Ok(()),
                        Err(error) => Err(error),
                    };
                    lemma_change_keeps(before, after, address, ty, data, outcome, slot);
                }
            } else {
                crate::laws::law_allocation_keeps_other_objects(
                    before,
                    after,
                    id,
                    ty,
                    data,
                    placed,
                    slot,
                );
                if after.pending_changes@ != pending {
                    crate::transaction::lemma_pending_pushed(
                        pending,
                        after.pending_changes@.last(),
                    );
                }
            }
        },
        Operation::Change { address, ty, data, result } => {
            lemma_change_keeps(before, after, address, ty, data, result, slot);
        },
        Operation::GiveUp { id, result } => {
            crate::search::lemma_first_true(before.stored(id));
            if let Some(found) = before.stored_under(id) {
                assert(before.stored(id)[found]);
                if result is Ok && crate::transaction::is_pending(pending, slot) {
                    crate::transaction::lemma_still_pending(pending, found, slot);
                }
            }
        },
    }
}

/// A change makes no new object.
proof fn lemma_change_makes_none(
    before: TransactionContext,
    after: TransactionContext,
    address: u64,
    ty: TypeInfo,
    data: Seq<u8>,
    result: Result<(), PoolError>,
    slot: int,
)
    requires
        before.wf(),
        after.modified(before, address, ty, data, result),
        0 <= slot < before.pool@.table.len(),
        after.has_object(slot),
    ensures
        before.has_object(slot),
        after.pool@.table[slot].id == before.pool@.table[slot].id,
{
    if before.slot_of(address) is Some {
        lemma_slot_of(before, address);
        if result is Ok {
            crate::laws::lemma_modified_objects(before, after, address, ty, data, slot);
        }
    }
}

/// Every object that is there after an operation was there before, under the same identifier, but
/// for one that was stored under an identifier that no object had.
pub proof fn law_operation_makes_no_other_objects(
    before: TransactionContext,
    after: TransactionContext,
    op: Operation,
    slot: int,
)
    requires
        before.wf(),
        before.tidy(),
        op.led(before, after),
        0 <= slot < before.pool@.table.len(),
        after.has_object(slot),
    ensures
        ({
            ||| before.has_object(slot) && after.pool@.table[slot].id == before.pool@.table[slot].id
            ||| op matches Operation::Store { id, .. } && after.pool@.table[slot].id == id
                && before.stored_under(id) is None
        }),
{
    let pending = before.pending_changes@;
    match op {
        Operation::Store { id, ty, data, placed } => {
            crate::search::lemma_first_true(before.stored(id));
            crate::table::lemma_find(Probe::Free, before.pool@.table);
            if let Some(found) = before.stored_under(id) {
                assert(before.stored(id)[found]);
                lemma_object_at(before, found);
                let address = before.pool@.table[found].data->Some_0;
                if id.len() <= 32 && before.pool@.table[found].type_hash == ty.hash() {
                    let outcome: Result<(), PoolError> = match placed {
                        Ok(_) => Ok(()),
                        Err(error) => Err(error),
                    };
                    lemma_change_makes_none(before, after, address, ty, data, outcome, slot);
                }
            } else if crate::transaction::is_pending(after.pending_changes@, slot) {
                let k = choose|k: int|
                    0 <= k < after.pending_changes@.len() && (
                    #[trigger] after.pending_changes@[k]).entry == slot;
                if k < pending.len() {
                    assert(pending[k].entry == slot);
                }
            }
        },
        Operation::Change { address, ty, data, result } => {
            lemma_change_makes_none(before, after, address, ty, data, result, slot);
        },
        Operation::GiveUp { id, result } => {
            crate::search::lemma_first_true(before.stored(id));
            if let Some(found) = before.stored_under(id) {
                assert(before.stored(id)[found]);
                if result is Ok && crate::transaction::is_pending(after.pending_changes@, slot) {
                    let k = choose|k: int|
                        0 <= k < after.pending_changes@.len() && (
                        #[trigger] after.pending_changes@[k]).entry == slot;
                    crate::transaction::lemma_without_pending(pending, found, k);
                    let j = choose|j: int|
                        0 <= j < pending.len() && #[trigger] pending[j]
                            == after.pending_changes@[k];
                    assert(pending[j].entry == slot);
                }
            }
        },
    }
}

/// An operation on another object leaves the identifier of an object with it.
pub proof fn law_operation_keeps_identifiers(
    before: TransactionContext,
    after: TransactionContext,
    op: Operation,
    id: Seq<u8>,
    slot: int,
)
    requires
        before.wf(),
        before.tidy(),
        after.wf(),
        op.led(before, after),
        op.fits(before),
        before.stored_under(id) == Some(slot),
        op.concerns(before) != Some(slot),
    ensures
        after.stored_under(id) == Some(slot),
{
    crate::search::lemma_first_true(before.stored(id));
    assert(before.stored(id)[slot]);
    law_operation_keeps_other_objects(before, after, op, slot);
    assert forall|j: int| 0 <= j < slot implies !#[trigger] after.stored(id)[j] by {
        assert(!before.stored(id)[j]);
        if after.has_object(j) {
            law_operation_makes_no_other_objects(before, after, op, j);
        }
    }
    crate::search::lemma_first_true_is(after.stored(id), slot);
}

/// A slot that was given up stays as it is to the end of the transaction: no operation stores an
/// object in it.
pub proof fn law_operation_keeps_given_up_slots(
    before: TransactionContext,
    after: TransactionContext,
    op: Operation,
    slot: int,
)
    requires
        before.wf(),
        before.tidy(),
        op.led(before, after),
        0 <= slot < before.pool@.table.len(),
        before.pool@.table[slot].dropped(),
    ensures
        after.pool@.table[slot] == before.pool@.table[slot],
{
    match op {
        Operation::Store { id, ty, data, placed } => {
            crate::search::lemma_first_true(before.stored(id));
            crate::table::lemma_find(Probe::Free, before.pool@.table);
            if let Some(found) = before.stored_under(id) {
                assert(before.stored(id)[found]);
                lemma_object_at(before, found);
            }
        },
        Operation::Change { address, ty, data, result } => {
            if before.slot_of(address) is Some {
                lemma_slot_of(before, address);
            }
        },
        Operation::GiveUp { id, result } => {
            crate::search::lemma_first_true(before.stored(id));
            if let Some(found) = before.stored_under(id) {
                assert(before.stored(id)[found]);
            }
        },
    }
}

/// The work of a transaction: its operations, and the states between them.
pub struct Work {
    pub states: Seq<TransactionContext>,
    pub ops: Seq<Operation>,
}

impl Work {
    /// Each operation led from one state to the next, and wrote no more than its object takes.
    pub open spec fn wf(self) -> bool {
        &&& self.states.len() == self.ops.len() + 1
        &&& forall|i: int| #![trigger self.states[i]]
            0 <= i < self.states.len() ==> self.states[i].wf() && self.states[i].tidy()
        &&& forall|i: int| #![trigger self.ops[i]]
            0 <= i < self.ops.len() ==> self.ops[i].led(self.states[i], self.states[i + 1])
                && self.ops[i].fits(self.states[i])
    }

    /// The state before the first operation.
    pub open spec fn first(self) -> TransactionContext {
        self.states[0]
    }

    /// The state after the last operation.
    pub open spec fn last(self) -> TransactionContext {
        self.states[self.ops.len() as int]
    }

    /// No operation from `from` on concerns the object in the slot.
    pub open spec fn spares(self, slot: int, from: int) -> bool {
        forall|i: int| #![trigger self.ops[i]]
            from <= i < self.ops.len() ==> self.ops[i].concerns(self.states[i]) != Some(slot)
    }
}

/// An operation leaves the pool where it is.
proof fn lemma_same_place(before: TransactionContext, after: TransactionContext, op: Operation)
    requires
        before.wf(),
        after.wf(),
        op.led(before, after),
    ensures
        after.pool@.same_place(before.pool@),
{
}

/// An operation under another identifier does not concern an object.
pub proof fn law_other_identifiers_are_other_objects(
    context: TransactionContext,
    op: Operation,
    id: Seq<u8>,
    slot: int,
)
    requires
        context.stored_under(id) == Some(slot),
        match op {
            Operation::Store { id: other, .. } => other != id,
            Operation::GiveUp { id: other, .. } => other != id,
            Operation::Change { .. } => false,
        },
    ensures
        op.concerns(context) != Some(slot),
{
    crate::search::lemma_first_true(context.stored(id));
    match op {
        Operation::Store { id: other, .. } => {
            crate::search::lemma_first_true(context.stored(other));
        },
        Operation::GiveUp { id: other, .. } => {
            crate::search::lemma_first_true(context.stored(other));
        },
        Operation::Change { .. } => {},
    }
}

/// An object that no operation of a transaction from `from` on concerns stays where it is, under
/// its identifier and with its bytes, whatever operations follow.
pub proof fn law_work_keeps_other_objects(work: Work, from: int, to: int, id: Seq<u8>, slot: int)
    requires
        work.wf(),
        0 <= from <= to <= work.ops.len(),
        work.spares(slot, from),
        work.states[from].stored_under(id) == Some(slot),
    ensures
        work.states[to].stored_under(id) == Some(slot),
        work.states[to].pool@.same_place(work.states[from].pool@),
        work.states[to].pool@.table[slot] == work.states[from].pool@.table[slot],
        forall|x: int|
            work.states[from].pool@.table[slot].spans(x) ==> #[trigger] work.states[to].pool@.byte(
                x,
            ) == work.states[from].pool@.byte(x),
    decreases to,
{
    if to > from {
        law_work_keeps_other_objects(work, from, to - 1, id, slot);
        let before = work.states[to - 1];
        let after = work.states[to];
        let op = work.ops[to - 1];
        assert(before.wf());
        crate::search::lemma_first_true(before.stored(id));
        assert(before.stored(id)[slot]);
        assert(after.wf());
        law_operation_keeps_other_objects(before, after, op, slot);
        law_operation_keeps_identifiers(before, after, op, id, slot);
        lemma_same_place(before, after, op);
        assert forall|x: int| work.states[from].pool@.table[slot].spans(x) implies
            #[trigger] work.states[to].pool@.byte(x) == work.states[from].pool@.byte(x) by {
            assert(before.pool@.table[slot].spans(x));
            assert(work.states[to - 1].pool@.byte(x) == work.states[from].pool@.byte(x));
        }
    }
}

/// A slot that was given up by the operation at `k` is as it was left after any number of
/// operations.
proof fn lemma_work_keeps_given_up(work: Work, k: int, n: int, slot: int)
    requires
        work.wf(),
        0 <= k <= n <= work.ops.len(),
        0 <= slot < work.states[k].pool@.table.len(),
        work.states[k].pool@.table[slot].dropped(),
    ensures
        work.states[n].pool@.table[slot] == work.states[k].pool@.table[slot],
        work.states[n].pool@.table.len() == work.states[k].pool@.table.len(),
    decreases n,
{
    assert(work.states[k].wf());
    assert(work.states[n].wf());
    if n > k {
        lemma_work_keeps_given_up(work, k, n - 1, slot);
        assert(work.states[n - 1].wf());
        let op = work.ops[n - 1];
        law_operation_keeps_given_up_slots(work.states[n - 1], work.states[n], op, slot);
    }
}

/// The memory of an object that a transaction gave up comes back at the next access to the pool,
/// whatever else the transaction did: recovery blanks the slot and returns the block.
pub proof fn law_given_up_block_comes_back(work: Work, k: int, id: Seq<u8>, slot: int)
    requires
        work.wf(),
        0 <= k < work.ops.len(),
        work.ops[k] == (Operation::GiveUp { id, result: Ok(()) }),
        work.states[k].stored_under(id) == Some(slot),
    ensures
        ({
            let left = crate::transaction::committed(
                work.last().pool@,
                work.last().pending_changes@,
            );
            let entry = work.states[k].pool@.table[slot];
            &&& entry.data matches Some(address)
            &&& left.recovered().table[slot] == EntryView::blank()
            &&& left.released().contains(FreedBlock { address, size: entry.type_size })
        }),
{
    let before = work.states[k];
    let last = work.last();
    let pending = last.pending_changes@;
    let left = crate::transaction::committed(last.pool@, pending);
    assert(before.wf());
    assert(last.wf());
    crate::search::lemma_first_true(before.stored(id));
    assert(before.stored(id)[slot]);
    lemma_object_at(before, slot);
    assert(work.states[k + 1].wf());
    lemma_work_keeps_given_up(work, k + 1, work.ops.len() as int, slot);
    if crate::transaction::is_pending(pending, slot) {
        let i = choose|i: int| 0 <= i < pending.len() && (#[trigger] pending[i]).entry == slot;
        assert(last.pool@.table[pending[i].entry as int].active);
    }
    let entry = before.pool@.table[slot];
    assert(left.table[slot].released() =~= seq![
        FreedBlock { address: entry.data->Some_0, size: entry.type_size },
    ]);
    crate::laws::lemma_released(left.table, slot);
}

/// A transaction: its work, and whether it was committed. Otherwise it was taken back.
pub struct Run {
    pub work: Work,
    pub committed: bool,
}

impl Run {
    /// The transaction began with nothing pending, and where it was taken back, the log led back
    /// to its start.
    pub open spec fn wf(self) -> bool {
        &&& self.work.wf()
        &&& self.work.first().pending_changes@.len() == 0
        &&& self.committed || self.work.last().can_roll_back() && self.work.last().started@
            == self.work.first().pool@
    }

    /// The pool that the next transaction starts with.
    pub open spec fn left(self) -> PoolView {
        if self.committed {
            crate::laws::next_start(self.work.last())
        } else {
            self.work.last().pool@.rolled_back(self.work.last().records()).recovered()
        }
    }
}

/// The transactions followed each other.
pub open spec fn in_turn(runs: Seq<Run>) -> bool {
    &&& forall|k: int| 0 <= k < runs.len() ==> (#[trigger] runs[k]).wf()
    &&& forall|k: int| #![trigger runs[k]]
        0 < k < runs.len() ==> runs[k].work.first().pool@ == runs[k - 1].left()
}

/// The object under an identifier is in the slot, and is the one that `start` has there, with the
/// same bytes.
pub open spec fn shows(pool: PoolView, start: PoolView, id: Seq<u8>, slot: int) -> bool {
    &&& pool.same_place(start)
    &&& Probe::Live(id).find(pool.table) == Some(slot)
    &&& pool.table[slot].same_object(start.table[slot])
    &&& forall|x: int| start.table[slot].spans(x) ==> #[trigger] pool.byte(x) == start.byte(x)
}

/// Where nothing is pending, the objects of a transaction are those that readers see.
proof fn lemma_found_at_start(context: TransactionContext, id: Seq<u8>)
    requires
        context.wf(),
        context.pending_changes@.len() == 0,
    ensures
        context.stored_under(id) == Probe::Live(id).find(context.pool@.table),
{
    let table = context.pool@.table;
    let probe = Probe::Live(id);
    crate::table::lemma_find(probe, table);
    assert forall|j: int| 0 <= j < table.len() implies #[trigger] context.stored(id)[j]
        == probe.hits(table[j]) by {}
    match probe.find(table) {
        Some(slot) => {
            crate::search::lemma_first_true_is(context.stored(id), slot);
        },
        None => {
            crate::search::lemma_first_true_none(context.stored(id));
        },
    }
}

/// A commit shows the objects of a transaction under their identifiers.
proof fn lemma_found_after_commit(context: TransactionContext, id: Seq<u8>)
    requires
        context.wf(),
    ensures
        Probe::Live(id).find(crate::laws::next_start(context).table) == context.stored_under(id),
{
    let table = crate::laws::next_start(context).table;
    let probe = Probe::Live(id);
    crate::search::lemma_first_true(context.stored(id));
    assert forall|j: int| 0 <= j < table.len() implies probe.hits(#[trigger] table[j])
        == context.stored(id)[j] by {
        crate::laws::law_commit_shows_its_objects(context, j);
    }
    match context.stored_under(id) {
        Some(slot) => {
            assert(context.stored(id)[slot]);
            assert(probe.hits(table[slot]));
            assert forall|j: int| 0 <= j < slot implies !probe.hits(#[trigger] table[j]) by {
                assert(!context.stored(id)[j]);
            }
            crate::table::lemma_find_is(probe, table, slot);
        },
        None => {
            assert forall|j: int| 0 <= j < table.len() implies !probe.hits(#[trigger] table[j]) by {
                assert(!context.stored(id)[j]);
            }
            crate::table::lemma_find_none(probe, table);
        },
    }
}

/// What a commit shows of an object that no operation from `from` on concerns.
proof fn lemma_committed_object(run: Run, from: int, id: Seq<u8>, slot: int)
    requires
        run.wf(),
        run.committed,
        0 <= from <= run.work.ops.len(),
        run.work.spares(slot, from),
        run.work.states[from].stored_under(id) == Some(slot),
    ensures
        shows(run.left(), run.work.states[from].pool@, id, slot),
{
    let start = run.work.states[from].pool@;
    let end = run.work.ops.len() as int;
    let last = run.work.last();
    assert(last.wf());
    law_work_keeps_other_objects(run.work, from, end, id, slot);
    lemma_found_after_commit(last, id);
    crate::search::lemma_first_true(last.stored(id));
    assert(last.stored(id)[slot]);
    crate::laws::law_commit_shows_its_objects(last, slot);
    assert forall|x: int| start.table[slot].spans(x) implies #[trigger] run.left().byte(x)
        == start.byte(x) by {
        assert(run.work.states[end].pool@.byte(x) == start.byte(x));
    }
}

/// A transaction leaves an object where it is, with its bytes, where it was committed and did not
/// concern the object, and where it was taken back.
pub proof fn law_transaction_keeps_other_objects(run: Run, id: Seq<u8>, slot: int)
    requires
        run.wf(),
        run.committed ==> run.work.spares(slot, 0),
        Probe::Live(id).find(run.work.first().pool@.table) == Some(slot),
    ensures
        shows(run.left(), run.work.first().pool@, id, slot),
{
    let first = run.work.first();
    let last = run.work.last();
    let start = first.pool@;
    let left = run.left();
    let probe = Probe::Live(id);
    assert(first.wf());
    if run.committed {
        lemma_found_at_start(first, id);
        lemma_committed_object(run, 0, id, slot);
    } else {
        crate::table::lemma_find(probe, start.table);
        crate::undo::law_rollback_restores(start, last.pool@, last.records());
        assert forall|j: int| 0 <= j < slot implies !probe.hits(#[trigger] left.table[j]) by {
            assert(!probe.hits(start.table[j]));
        }
        crate::table::lemma_find_is(probe, left.table, slot);
    }
}

/// What a pool shows of an object, it shows of what showed it before.
proof fn lemma_shows(pool: PoolView, middle: PoolView, start: PoolView, id: Seq<u8>, slot: int)
    requires
        shows(middle, start, id, slot),
        shows(pool, middle, id, slot),
    ensures
        shows(pool, start, id, slot),
{
    assert forall|x: int| start.table[slot].spans(x) implies #[trigger] pool.byte(x)
        == start.byte(x) by {
        assert(middle.table[slot].spans(x));
        assert(middle.byte(x) == start.byte(x));
    }
}

/// An object is read back, under its identifier and with its bytes, after any number of
/// transactions that do not concern it or were taken back.
pub proof fn law_object_outlives_transactions(runs: Seq<Run>, id: Seq<u8>, slot: int)
    requires
        runs.len() > 0,
        in_turn(runs),
        forall|k: int| #![trigger runs[k]]
            0 <= k < runs.len() && runs[k].committed ==> runs[k].work.spares(slot, 0),
        Probe::Live(id).find(runs[0].work.first().pool@.table) == Some(slot),
    ensures
        shows(runs.last().left(), runs[0].work.first().pool@, id, slot),
    decreases runs.len(),
{
    let start = runs[0].work.first().pool@;
    let run = runs.last();
    assert(run.wf());
    if runs.len() > 1 {
        let rest = runs.drop_last();
        assert forall|k: int| 0 <= k < rest.len() implies (#[trigger] rest[k]).wf() by {
            assert(rest[k] == runs[k]);
        }
        assert forall|k: int| #![trigger rest[k]] 0 < k < rest.len() implies rest[k].work.first().pool@
            == rest[k - 1].left() by {
            assert(rest[k] == runs[k]);
        }
        assert forall|k: int| #![trigger rest[k]]
            0 <= k < rest.len() && rest[k].committed implies rest[k].work.spares(slot, 0) by {
            assert(rest[k] == runs[k]);
        }
        law_object_outlives_transactions(rest, id, slot);
        assert(run.work.first().pool@ == runs[runs.len() - 2].left());
        law_transaction_keeps_other_objects(run, id, slot);
        lemma_shows(run.left(), run.work.first().pool@, start, id, slot);
    } else {
        law_transaction_keeps_other_objects(run, id, slot);
    }
}

/// An object that a transaction stored is what is read under its identifier when the transaction
/// was committed, and after any number of later transactions, as long as none that was committed
/// concerns the object.
pub proof fn law_stored_object_is_read_later(
    runs: Seq<Run>,
    k: int,
    id: Seq<u8>,
    ty: TypeInfo,
    data: Seq<u8>,
    address: u64,
    slot: int,
)
    requires
        runs.len() > 0,
        in_turn(runs),
        runs[0].committed,
        0 <= k < runs[0].work.ops.len(),
        runs[0].work.ops[k] == (Operation::Store { id, ty, data, placed: Ok(address) }),
        runs[0].work.states[k].can_store(id, ty),
        runs[0].work.states[k + 1].stored_under(id) == Some(slot),
        runs[0].work.spares(slot, k + 1),
        forall|i: int| #![trigger runs[i]]
            0 < i < runs.len() && runs[i].committed ==> runs[i].work.spares(slot, 0),
    ensures
        ({
            let pool = runs.last().left();
            &&& Probe::Live(id).find(pool.table) == Some(slot)
            &&& pool.table[slot].type_hash == ty.hash()
            &&& pool.table[slot].data == Some(address)
            &&& pool.bytes(address as int, ty.size as int) == data
        }),
{
    let run = runs[0];
    let work = run.work;
    let before = work.states[k];
    let after = work.states[k + 1];
    let stored = after.pool@;
    let pool = runs.last().left();
    assert(run.wf());
    assert(before.wf());
    assert(after.wf());
    assert(work.ops[k].led(before, after));
    crate::laws::law_stored_object_is_read(before, after, id, ty, data, address);
    lemma_found_after_commit(after, id);
    crate::search::lemma_first_true(after.stored(id));
    assert(after.stored(id)[slot]);
    crate::laws::law_commit_shows_its_objects(after, slot);
    lemma_stored_size(before, after, id, ty, data, address, slot);
    lemma_committed_object(run, k + 1, id, slot);
    if runs.len() > 1 {
        let later = runs.skip(1);
        assert forall|i: int| 0 <= i < later.len() implies (#[trigger] later[i]).wf() by {
            assert(later[i] == runs[i + 1]);
        }
        assert forall|i: int| #![trigger later[i]] 0 < i < later.len() implies later[i].work.first().pool@
            == later[i - 1].left() by {
            assert(later[i] == runs[i + 1]);
        }
        assert forall|i: int| #![trigger later[i]]
            0 <= i < later.len() && later[i].committed implies later[i].work.spares(slot, 0) by {
            assert(later[i] == runs[i + 1]);
        }
        assert(later[0] == runs[1]);
        assert(runs[1].work.first().pool@ == run.left());
        law_object_outlives_transactions(later, id, slot);
        lemma_shows(pool, run.left(), stored, id, slot);
    }
    assert(shows(pool, stored, id, slot));
    lemma_shown_bytes(pool, stored, id, slot, address, ty.size as int);
}

/// An object that is shown has the bytes that it had.
proof fn lemma_shown_bytes(
    pool: PoolView,
    start: PoolView,
    id: Seq<u8>,
    slot: int,
    address: u64,
    len: int,
)
    requires
        shows(pool, start, id, slot),
        start.table[slot].data == Some(address),
        0 <= len <= start.table[slot].type_size,
        start.holds(address as int, len),
    ensures
        pool.bytes(address as int, len) == start.bytes(address as int, len),
{
    let now = pool.bytes(address as int, len);
    let then = start.bytes(address as int, len);
    assert forall|i: int| 0 <= i < len implies now[i] == then[i] by {
        assert(start.table[slot].spans(address + i));
        assert(pool.byte(address + i) == start.byte(address + i));
    }
    assert(now =~= then);
}

/// A stored object takes at least what was written.
proof fn lemma_stored_size(
    before: TransactionContext,
    after: TransactionContext,
    id: Seq<u8>,
    ty: TypeInfo,
    data: Seq<u8>,
    address: u64,
    slot: int,
)
    requires
        before.wf(),
        before.tidy(),
        after.wf(),
        after.allocated(before, id, ty, data, Ok(address)),
        data.len() == ty.size,
        before.stored_under(id) matches Some(found) ==> ty.size
            <= before.pool@.table[found].type_size,
        after.stored_under(id) == Some(slot),
    ensures
        after.pool@.table[slot].type_size >= ty.size,
{
    let op = Operation::Store { id, ty, data, placed: Ok(address) };
    crate::search::lemma_first_true(before.stored(id));
    crate::search::lemma_first_true(after.stored(id));
    crate::table::lemma_find(Probe::Free, before.pool@.table);
    assert(after.stored(id)[slot]);
    law_operation_makes_no_other_objects(before, after, op, slot);
    match before.stored_under(id) {
        Some(found) => {
            assert(before.stored(id)[found]);
            lemma_object_at(before, found);
            crate::laws::lemma_modified_objects(before, after, address, ty, data, found);
            crate::laws::lemma_modified_objects(before, after, address, ty, data, slot);
            assert(before.stored(id)[slot]);
            assert(after.stored(id)[found]);
        },
        None => {
            let free = Probe::Free.find(before.pool@.table)->Some_0;
            if slot != free {
                assert(after.pool@.table[slot] == before.pool@.table[slot]);
                assert(!before.stored(id)[slot]);
                if crate::transaction::is_pending(after.pending_changes@, slot) {
                    let k = choose|k: int|
                        0 <= k < after.pending_changes@.len() && (
                        #[trigger] after.pending_changes@[k]).entry == slot;
                    assert(before.pending_changes@[k].entry == slot);
                }
            }
        },
    }
}

/// The next transaction on a pool starts with what the one before left: all of its changes where
/// it was committed, and none where it was taken back.
pub proof fn law_transactions_follow_each_other<R>(
    before: GlobalPersistentAllocator,
    after: GlobalPersistentAllocator,
    slot: int,
    begun: Begun,
    context: TransactionContext,
    ended: TransactionContext,
    result: Result<R, PoolError>,
    log_emptied: bool,
    next: Begun,
)
    requires
        after.ran(before, slot, begun, context, ended, result, log_emptied),
        ended.logging(),
        after.began(slot, next),
    ensures
        next.context.pool@ == match result {
            Ok(_) => crate::laws::next_start(ended),
            Err(_) => ended.pool@.rolled_back(ended.records()).recovered(),
        },
        next.context.started@ == next.context.pool@,
        next.context.pending_changes@.len() == 0,
{
    assert(!after.log_pool->Some_0@.has_logs());
}

impl Operation {
    /// The object that the operation would write to lies in the memory of the pool.
    pub open spec fn feasible(self, before: TransactionContext) -> bool {
        match self {
            Operation::Store { id, ty, .. } => before.can_store(id, ty),
            Operation::Change { address, ty, .. } => before.can_modify(address, ty),
            Operation::GiveUp { .. } => true,
        }
    }
}

/// No operation takes away that the transaction can be taken back, whether it succeeds or fails.
pub proof fn law_operation_can_be_taken_back(
    before: TransactionContext,
    after: TransactionContext,
    op: Operation,
)
    requires
        before.wf(),
        before.can_roll_back(),
        op.led(before, after),
        op.feasible(before),
    ensures
        after.can_roll_back(),
        after.started@ == before.started@,
{
    match op {
        Operation::Store { id, ty, data, placed } => {
            crate::search::lemma_first_true(before.stored(id));
            crate::table::lemma_find(Probe::Free, before.pool@.table);
            if id.len() <= 32 {
                match before.stored_under(id) {
                    Some(slot) => {
                        assert(before.stored(id)[slot]);
                        if before.pool@.table[slot].type_hash == ty.hash() {
                            let address = before.pool@.table[slot].data->Some_0;
                            let outcome: Result<(), PoolError> = match placed {
                                Ok(_) => Ok(()),
                                Err(error) => Err(error),
                            };
                            if before.slot_of(address) is Some {
                                crate::transaction::lemma_modified(
                                    before,
                                    after,
                                    address,
                                    ty,
                                    data,
                                    outcome,
                                );
                            }
                        }
                    },
                    None => {
                        if let Some(slot) = Probe::Free.find(before.pool@.table) {
                            if !crate::transaction::marks_log(slot, id) {
                                lemma_placing_can_be_taken_back(
                                    before,
                                    after,
                                    slot,
                                    id,
                                    ty,
                                    data,
                                    placed,
                                );
                            }
                        }
                    },
                }
            }
        },
        Operation::Change { address, ty, data, result } => {
            if before.slot_of(address) is Some {
                crate::transaction::lemma_modified(before, after, address, ty, data, result);
            }
        },
        Operation::GiveUp { id, result } => {
            if before.stored_under(id) is Some {
                crate::transaction::lemma_deallocated(before, after, id, result);
            }
        },
    }
}

proof fn lemma_placing_can_be_taken_back(
    before: TransactionContext,
    after: TransactionContext,
    slot: int,
    id: Seq<u8>,
    ty: TypeInfo,
    data: Seq<u8>,
    result: Result<u64, PoolError>,
)
    requires
        before.wf(),
        before.can_roll_back(),
        data.len() == ty.size,
        Probe::Free.find(before.pool@.table) == Some(slot),
        !crate::transaction::marks_log(slot, id),
        after.placed(before, slot, id, ty, data, result),
    ensures
        after.can_roll_back(),
{
    crate::table::lemma_find(Probe::Free, before.pool@.table);
    let now = before.pool@;
    assert(crate::undo::slot_undoable(
        before.started@.table[slot],
        now.table[slot],
        now.fresh(before.records(), slot),
    ));
    match result {
        Ok(address) => {
            crate::transaction::lemma_placed(before, after, slot, id, ty, data, address);
        },
        Err(error) => {
            if !(error is AllocationFailed) {
                let address = choose|address: u64|
                    {
                        &&& #[trigger] after.pool.took_block(
                            before.pool,
                            address,
                            ty.size as int,
                            ty.align as int,
                        )
                        &&& crate::transaction::log_step(
                            before.log_pool,
                            after.log_pool,
                            before.logging(),
                            before.operation(
                                crate::oplog::OperationType::Allocation,
                                address,
                                ty.size,
                                ty.hash(),
                            ),
                            Seq::empty(),
                            Err(error),
                        )
                    };
                assert(crate::heap::heap_free(after.pool.heap).subset_of(
                    crate::heap::heap_free(before.pool.heap),
                ));
            }
            crate::transaction::lemma_claimed(before, after, slot, id, ty);
        },
    }
}

/// A transaction that can be taken back at its start can be taken back after any number of
/// operations.
pub proof fn law_work_can_be_taken_back(work: Work, n: int)
    requires
        work.wf(),
        forall|i: int| #![trigger work.ops[i]]
            0 <= i < work.ops.len() ==> work.ops[i].feasible(work.states[i]),
        work.first().can_roll_back(),
        0 <= n <= work.ops.len(),
    ensures
        work.states[n].can_roll_back(),
        work.states[n].started@ == work.first().started@,
    decreases n,
{
    if n > 0 {
        law_work_can_be_taken_back(work, n - 1);
        assert(work.states[n - 1].wf());
        let op = work.ops[n - 1];
        law_operation_can_be_taken_back(work.states[n - 1], work.states[n], op);
    }
}

/// Readers see the same in both pools: in each slot the same object or none, with the same bytes.
pub open spec fn looks_like(pool: PoolView, other: PoolView) -> bool {
    &&& pool.table.len() == other.table.len()
    &&& pool.start == other.start
    &&& pool.memory.len() == other.memory.len()
    &&& forall|i: int| #![trigger pool.table[i]]
        0 <= i < other.table.len() ==> {
            let seen = other.table[i].active && other.table[i].valid;
            &&& (pool.table[i].active && pool.table[i].valid) == seen
            &&& seen ==> {
                &&& pool.table[i].id == other.table[i].id
                &&& pool.table[i].type_hash == other.table[i].type_hash
                &&& pool.table[i].type_size == other.table[i].type_size
                &&& pool.table[i].data == other.table[i].data
            }
        }
    &&& forall|i: int, x: int|
        0 <= i < other.table.len() && other.table[i].active && other.table[i].valid
            && other.table[i].data is Some && other.table[i].data->Some_0 <= x
            < other.table[i].data->Some_0 + #[trigger] other.table[i].type_size
            ==> #[trigger] pool.memory[x - pool.start] == other.memory[x - other.start]
}

/// A transaction that fails leaves no trace, whatever operations it made: once the log is undone
/// and the pool recovered, readers see what they saw before it. The same holds where a crash cuts
/// it short after any number of operations.
pub proof fn law_failed_transaction_leaves_no_trace(work: Work, n: int)
    requires
        work.wf(),
        forall|i: int| #![trigger work.ops[i]]
            0 <= i < work.ops.len() ==> work.ops[i].feasible(work.states[i]),
        work.first().can_roll_back(),
        work.first().started@ == work.first().pool@,
        0 <= n <= work.ops.len(),
    ensures
        looks_like(
            work.states[n].pool@.rolled_back(work.states[n].records()).recovered(),
            work.first().pool@,
        ),
        looks_like(
            crate::transaction::cleared(
                work.states[n].pool,
                work.states[n].log_pool,
            ).recovered(),
            work.first().pool@,
        ),
{
    law_work_can_be_taken_back(work, n);
    let now = work.states[n];
    assert(now.wf());
    crate::undo::law_rollback_restores(now.started@, now.pool@, now.records());
    crate::laws::law_crash_is_taken_back(now);
    let start = work.first().pool@;
    lemma_looks_like(now.pool@.rolled_back(now.records()).recovered(), start);
    lemma_looks_like(
        crate::transaction::cleared(now.pool, now.log_pool).recovered(),
        start,
    );
}

proof fn lemma_looks_like(pool: PoolView, other: PoolView)
    requires
        pool.same_objects(other),
    ensures
        looks_like(pool, other),
{
    assert forall|i: int, x: int|
        0 <= i < other.table.len() && other.table[i].active && other.table[i].valid
            && other.table[i].data is Some && other.table[i].data->Some_0 <= x
            < other.table[i].data->Some_0 + #[trigger] other.table[i].type_size implies
        #[trigger] pool.memory[x - pool.start] == other.memory[x - other.start] by {
        assert(other.table[i].spans(x));
        assert(pool.byte(x) == other.byte(x));
    }
}

} // verus!
