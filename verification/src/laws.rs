//! What holds of whole transactions.

use crate::image::{LogRecord, PoolView};
use crate::layout::MAX_OBJECT_ENTRIES;
use crate::pool::{Pool, PoolError};
use crate::table::{EntryView, FreedBlock, Probe};
use crate::transaction::{PendingChange, TransactionContext, TypeInfo};
use vstd::prelude::*;

verus! {

/// A crash between any two operations of a transaction is taken back: the next transaction on
/// the pool starts with the objects that the one before started with.
pub proof fn law_crash_is_taken_back(context: TransactionContext)
    requires
        context.wf(),
        context.can_roll_back(),
    ensures
        crate::transaction::cleared(context.pool, context.log_pool).recovered().same_objects(
            context.started@,
        ),
{
    let log = context.log_pool->Some_0@;
    if !log.has_logs() {
        lemma_no_records(log, log.table.len() as int);
    }
    crate::undo::law_rollback_restores(context.started@, context.pool@, context.records());
}

pub proof fn lemma_no_records(log: PoolView, slots: int)
    requires
        !log.has_logs(),
        slots <= log.table.len(),
    ensures
        log.records_below(slots) == Seq::<LogRecord>::empty(),
    decreases slots,
{
    if slots > 0 {
        assert(!log.table[slots - 1].live());
        lemma_no_records(log, slots - 1);
    }
}

/// A crash in the middle of a commit, after any number of the changes became valid, is taken
/// back as long as the log is there.
pub proof fn law_crash_while_committing(context: TransactionContext, made_valid: int)
    requires
        context.wf(),
        context.can_roll_back(),
        0 <= made_valid <= context.pending_changes@.len(),
    ensures
        crate::undo::undoable(
            context.started@,
            crate::transaction::committed(
                context.pool@,
                context.pending_changes@.take(made_valid),
            ),
            context.records(),
        ),
        crate::transaction::committed(
            context.pool@,
            context.pending_changes@.take(made_valid),
        ).rolled_back(context.records()).recovered().same_objects(context.started@),
    decreases made_valid,
{
    let pending = context.pending_changes@;
    let records = context.records();
    let now = crate::transaction::committed(context.pool@, pending.take(made_valid));
    if made_valid == 0 {
        assert(now.table =~= context.pool@.table);
    } else {
        let n = made_valid - 1;
        law_crash_while_committing(context, n);
        let before = crate::transaction::committed(context.pool@, pending.take(n));
        let slot = pending[n].entry as int;
        let entry = before.table[slot];
        assert(pending[n].entry == slot);
        assert(entry.data == context.pool@.table[slot].data);
        assert(entry.active);
        crate::transaction::lemma_committed_step(context.pool@, pending, n);
        crate::undo::law_crash_after_flags(
            context.started@,
            before,
            records,
            slot,
            entry.active,
            true,
            entry.done,
        );
    }
    crate::undo::law_rollback_restores(context.started@, now, records);
}

/// The pool that the next transaction starts with: what the commit left, recovered.
pub open spec fn next_start(context: TransactionContext) -> PoolView {
    crate::transaction::committed(context.pool@, context.pending_changes@).recovered()
}

/// The next transaction sees the objects of this one, and no others.
pub proof fn law_commit_shows_its_objects(context: TransactionContext, slot: int)
    requires
        context.wf(),
        0 <= slot < context.pool@.table.len(),
    ensures
        next_start(context).memory == context.pool@.memory,
        next_start(context).table[slot].live() == context.has_object(slot),
        context.has_object(slot) ==> next_start(context).table[slot].same_object(
            context.pool@.table[slot],
        ),
{
    assert(context.pool@.table[slot].active ==> context.pool@.table[slot].valid
        || !context.pool@.table[slot].done || crate::transaction::is_pending(
        context.pending_changes@,
        slot,
    ));
    if crate::transaction::is_pending(context.pending_changes@, slot) {
        let k = choose|k: int|
            0 <= k < context.pending_changes@.len() && (
            #[trigger] context.pending_changes@[k]).entry == slot;
        assert(context.pool@.table[context.pending_changes@[k].entry as int].active);
    }
}

/// An object that is stored, anew or in place of one under its identifier, is what the next
/// transaction reads under the identifier.
pub proof fn law_stored_object_is_read(
    before: TransactionContext,
    after: TransactionContext,
    id: Seq<u8>,
    ty: TypeInfo,
    data: Seq<u8>,
    address: u64,
)
    requires
        before.wf(),
        before.can_store(id, ty),
        after.wf(),
        after.allocated(before, id, ty, data, Ok(address)),
        data.len() == ty.size,
    ensures
        ({
            let next = next_start(after);
            &&& Probe::Live(id).find(next.table) matches Some(slot)
            &&& next.table[slot].type_hash == ty.hash()
            &&& next.table[slot].data == Some(address)
            &&& next.holds(address as int, ty.size as int)
            &&& next.bytes(address as int, ty.size as int) == data
        }),
{
    let next = next_start(after);
    let probe = Probe::Live(id);
    crate::table::lemma_find(Probe::Free, before.pool@.table);
    crate::search::lemma_first_true(before.stored(id));
    let slot = match before.stored_under(id) {
        Some(slot) => slot,
        None => Probe::Free.find(before.pool@.table)->Some_0,
    };
    assert(after.has_object(slot) && after.pool@.table[slot].id == id) by {
        match before.stored_under(id) {
            Some(_) => {
                assert(before.stored(id)[slot]);
                lemma_modified_objects(before, after, address, ty, data, slot);
            },
            None => {
                let last = after.pending_changes@.len() - 1;
                assert(after.pending_changes@[last].entry == slot);
            },
        }
    }
    assert forall|j: int| 0 <= j < slot implies !probe.hits(#[trigger] next.table[j]) by {
        law_commit_shows_its_objects(after, j);
        assert(!before.stored(id)[j]);
        match before.stored_under(id) {
            Some(_) => {
                lemma_modified_objects(before, after, address, ty, data, j);
            },
            None => {
                assert(after.pool@.table[j] == before.pool@.table[j]);
                if crate::transaction::is_pending(after.pending_changes@, j) {
                    let k = choose|k: int|
                        0 <= k < after.pending_changes@.len() && (
                        #[trigger] after.pending_changes@[k]).entry == j;
                    assert(before.pending_changes@[k].entry == j);
                }
            },
        }
    }
    law_commit_shows_its_objects(after, slot);
    if before.stored_under(id) is Some {
        assert(before.stored(id)[slot]);
        lemma_modified_objects(before, after, address, ty, data, slot);
    }
    crate::table::lemma_find_is(probe, next.table, slot);
    assert(next.bytes(address as int, ty.size as int) =~= data);
}

/// A modification leaves the objects of the transaction the same.
pub proof fn lemma_modified_objects(
    before: TransactionContext,
    after: TransactionContext,
    address: u64,
    ty: TypeInfo,
    data: Seq<u8>,
    slot: int,
)
    requires
        before.wf(),
        after.modified(before, address, ty, data, Ok(())),
        0 <= slot < before.pool@.table.len(),
    ensures
        after.has_object(slot) == before.has_object(slot),
        after.pool@.table[slot].same_object(before.pool@.table[slot]),
{
    let pending = before.pending_changes@;
    crate::table::lemma_find(Probe::LiveAt(address), before.pool@.table);
    crate::transaction::lemma_pending_slot(pending, address);
    let changed = before.slot_of(address)->Some_0;
    assert(before.has_object(changed)) by {
        if Probe::LiveAt(address).find(before.pool@.table) is None {
            let k = choose|k: int|
                0 <= k < pending.len() && (#[trigger] pending[k]).entry == changed
                    && pending[k].data_ptr == address;
            assert(before.pool@.table[pending[k].entry as int].active);
        }
    }
    if after.pending_changes@ != pending {
        let last = PendingChange { entry: changed as usize, data_ptr: address };
        crate::transaction::lemma_pending_pushed(pending, last);
        if crate::transaction::is_pending(after.pending_changes@, slot) && slot != changed {
            let k = choose|k: int|
                0 <= k < after.pending_changes@.len() && (
                #[trigger] after.pending_changes@[k]).entry == slot;
            assert(pending[k].entry == slot);
        }
    }
}

/// A new object leaves the other objects as they are, with their bytes.
pub proof fn law_allocation_keeps_other_objects(
    before: TransactionContext,
    after: TransactionContext,
    id: Seq<u8>,
    ty: TypeInfo,
    data: Seq<u8>,
    result: Result<u64, PoolError>,
    slot: int,
)
    requires
        before.wf(),
        before.tidy(),
        before.stored_under(id) is None,
        after.allocated(before, id, ty, data, result),
        data.len() == ty.size,
        0 <= slot < before.pool@.table.len(),
        before.pool@.table[slot].active,
    ensures
        after.pool@.table[slot] == before.pool@.table[slot],
        forall|x: int|
            before.pool@.table[slot].spans(x) ==> #[trigger] after.pool@.byte(x)
                == before.pool@.byte(x),
{
    crate::table::lemma_find(Probe::Free, before.pool@.table);
    let entry = before.pool@.table[slot];
    let free = crate::heap::heap_free(before.pool.heap);
    assert forall|x: int| entry.spans(x) implies #[trigger] after.pool@.byte(x)
        == before.pool@.byte(x) by {
        crate::heap::lemma_block_len(entry.type_size as int);
        assert(entry.block().contains(x));
        assert(!free.contains(x));
        if let Ok(address) = result {
            crate::heap::lemma_block_len(ty.size as int);
            let block = crate::heap::span(
                address as int,
                crate::heap::block_len(ty.size as int),
            );
            assert(id.len() <= 32);
            if address <= x < address + data.len() {
                assert(block.contains(x));
            }
        }
    }
}

/// A modification that stays in its object leaves the other objects as they are, with their
/// bytes.
pub proof fn law_modification_keeps_other_objects(
    before: TransactionContext,
    after: TransactionContext,
    address: u64,
    ty: TypeInfo,
    data: Seq<u8>,
    result: Result<(), PoolError>,
    slot: int,
)
    requires
        before.wf(),
        before.tidy(),
        after.modified(before, address, ty, data, result),
        data.len() == ty.size,
        before.slot_of(address) matches Some(changed) ==> slot != changed && ty.size
            <= before.pool@.table[changed].type_size,
        0 <= slot < before.pool@.table.len(),
    ensures
        after.pool@.table[slot] == before.pool@.table[slot],
        forall|x: int|
            before.pool@.table[slot].spans(x) ==> #[trigger] after.pool@.byte(x)
                == before.pool@.byte(x),
{
    let entry = before.pool@.table[slot];
    crate::table::lemma_find(Probe::LiveAt(address), before.pool@.table);
    crate::transaction::lemma_pending_slot(before.pending_changes@, address);
    if let Some(changed) = before.slot_of(address) {
        let other = before.pool@.table[changed];
        assert(other.data == Some(address)) by {
            if Probe::LiveAt(address).find(before.pool@.table) is None {
                let pending = before.pending_changes@;
                let k = choose|k: int|
                    0 <= k < pending.len() && (#[trigger] pending[k]).entry == changed
                        && pending[k].data_ptr == address;
                assert(before.pool@.table[pending[k].entry as int].data == Some(address));
            }
        }
        assert forall|x: int| entry.spans(x) implies #[trigger] after.pool@.byte(x)
            == before.pool@.byte(x) by {
            crate::heap::lemma_block_len(entry.type_size as int);
            crate::heap::lemma_block_len(other.type_size as int);
            assert(entry.block().contains(x));
            if address <= x < address + data.len() {
                assert(other.block().contains(x));
                if slot < changed {
                    assert(entry.block().disjoint(other.block()));
                } else {
                    assert(other.block().disjoint(entry.block()));
                }
            }
        }
    }
}

/// An object that was given up is not found under its identifier by the next transaction.
pub proof fn law_given_up_object_is_gone(
    before: TransactionContext,
    after: TransactionContext,
    id: Seq<u8>,
    slot: int,
)
    requires
        before.wf(),
        before.ids_unique(),
        before.stored_under(id) == Some(slot),
        after.wf(),
        after.deallocated(before, id, Ok(())),
    ensures
        Probe::Live(id).find(next_start(after).table) is None,
{
    let next = next_start(after);
    let pending = before.pending_changes@;
    crate::search::lemma_first_true(before.stored(id));
    assert(before.stored(id)[slot]);
    assert forall|i: int| 0 <= i < next.table.len() implies !Probe::Live(id).hits(
        #[trigger] next.table[i],
    ) by {
        law_commit_shows_its_objects(after, i);
        if after.has_object(i) && after.pool@.table[i].id == id {
            assert(i != slot);
            assert(after.pool@.table[i] == before.pool@.table[i]);
            if crate::transaction::is_pending(after.pending_changes@, i) {
                let k = choose|k: int|
                    0 <= k < after.pending_changes@.len() && (
                    #[trigger] after.pending_changes@[k]).entry == i;
                crate::transaction::lemma_without_pending(pending, slot, k);
                let j = choose|j: int|
                    0 <= j < pending.len() && #[trigger] pending[j] == after.pending_changes@[k];
                assert(pending[j].entry == i);
            }
            assert(before.has_object(i));
            assert(before.pool@.table[i].id == before.pool@.table[slot].id);
        }
    }
    crate::table::lemma_find_none(Probe::Live(id), next.table);
}

/// A pool that was taken back has no two objects with the same identifier, where the start of
/// the transaction had none.
pub proof fn law_taken_back_ids_are_unique(pool: PoolView, start: PoolView)
    requires
        pool.recovered().same_objects(start),
        start.ids_unique(),
    ensures
        pool.recovered().ids_unique(),
{
    let now = pool.recovered();
    assert forall|i: int| #![trigger now.table[i]]
        0 <= i < now.table.len() && now.table[i].kept() implies start.table[i].kept()
        && now.table[i].id == start.table[i].id by {
        assert(now.table[i] == pool.table[i].recovered());
        assert(now.table[i].live());
    }
    assert forall|i: int, j: int| #![trigger now.table[i], now.table[j]]
        0 <= i < j < now.table.len() && now.table[i].kept() && now.table[j].kept() implies
        now.table[i].id != now.table[j].id by {
        assert(start.table[i].id != start.table[j].id);
    }
}

/// A transaction on a pool whose memory is in order can be taken back from its start: the pool is
/// the recovered one, its heap has got back what recovery freed, and the log is empty. So can the
/// one after it, since operations, commit and rollback leave memory in order.
pub proof fn law_transaction_can_be_taken_back(
    pool: Pool,
    log_pool: Option<Pool>,
    context: TransactionContext,
)
    requires
        pool@.tidy(crate::heap::heap_free(pool.heap)),
        context.wf(),
        context.logging(),
        context.pool@ == crate::transaction::cleared(pool, log_pool).recovered(),
        crate::heap::heap_free(context.pool.heap) == crate::heap::heap_free(pool.heap).union(
            crate::blocks::returned(crate::transaction::cleared(pool, log_pool).released()),
        ),
        context.started@ == context.pool@,
        context.pending_changes@.len() == 0,
        forall|i: int| 0 <= i < MAX_OBJECT_ENTRIES ==> !(
        #[trigger] context.log_pool->Some_0@.table[i]).active,
    ensures
        context.tidy(),
        context.can_roll_back(),
{
    let free = crate::heap::heap_free(pool.heap);
    let cleared = crate::transaction::cleared(pool, log_pool);
    let log = context.log_pool->Some_0@;
    if crate::transaction::left_over(pool, log_pool) {
        crate::blocks::law_rollback_keeps_tidy(pool@, log_pool->Some_0@.records(), free);
    }
    crate::blocks::law_recovery_keeps_tidy(cleared, free);
    crate::blocks::law_tidy_pool_is_startable(
        context.pool@,
        crate::heap::heap_free(context.pool.heap),
    );
    crate::undo::law_recovery_is_idempotent(cleared);
    crate::undo::lemma_start(context.pool@);
    assert(!log.has_logs());
    lemma_no_records(log, log.table.len() as int);
}

/// A modified object is read back with its new bytes, at once and after the commit.
pub proof fn law_modified_object_is_read(
    before: TransactionContext,
    after: TransactionContext,
    address: u64,
    ty: TypeInfo,
    data: Seq<u8>,
)
    requires
        after.modified(before, address, ty, data, Ok(())),
        before.slot_of(address) is Some,
        before.pool@.holds(address as int, ty.size as int),
        data.len() == ty.size,
    ensures
        after.pool@.bytes(address as int, ty.size as int) == data,
        crate::transaction::committed(after.pool@, after.pending_changes@).bytes(
            address as int,
            ty.size as int,
        ) == data,
{
    assert(after.pool@.bytes(address as int, ty.size as int) =~= data);
    assert(crate::transaction::committed(after.pool@, after.pending_changes@).bytes(
        address as int,
        ty.size as int,
    ) =~= data);
}

/// An object that was given up is gone when the transaction commits, and the next recovery
/// blanks its slot and returns its block.
pub proof fn law_given_up_object_is_freed(
    before: TransactionContext,
    after: TransactionContext,
    id: Seq<u8>,
    slot: int,
)
    requires
        before.wf(),
        before.stored_under(id) == Some(slot),
        before.pool@.table[slot].data is Some,
        after.deallocated(before, id, Ok(())),
    ensures
        ({
            let pool = crate::transaction::committed(after.pool@, after.pending_changes@);
            let entry = before.pool@.table[slot];
            &&& !pool.table[slot].live()
            &&& pool.recovered().table[slot] == EntryView::blank()
            &&& pool.released().contains(
                FreedBlock { address: entry.data->Some_0, size: entry.type_size },
            )
        }),
{
    let pending = after.pending_changes@;
    let pool = crate::transaction::committed(after.pool@, pending);
    let entry = before.pool@.table[slot];
    crate::search::lemma_first_true(before.stored(id));
    assert(before.stored(id)[slot]);
    if crate::transaction::is_pending(pending, slot) {
        let k = choose|k: int| 0 <= k < pending.len() && (#[trigger] pending[k]).entry == slot;
        crate::transaction::lemma_without_pending(before.pending_changes@, slot, k);
    }
    assert(pool.table[slot].released() =~= seq![
        FreedBlock { address: entry.data->Some_0, size: entry.type_size },
    ]);
    lemma_released(pool.table, slot);
}

pub proof fn lemma_released(table: Seq<EntryView>, slot: int)
    requires
        0 <= slot < table.len(),
        table[slot].released().len() == 1,
    ensures
        crate::image::released_by(table).contains(table[slot].released()[0]),
    decreases table.len(),
{
    let rest = crate::image::released_by(table.drop_last());
    let all = crate::image::released_by(table);
    if slot == table.len() - 1 {
        assert(all[rest.len() as int] == table[slot].released()[0]);
    } else {
        lemma_released(table.drop_last(), slot);
        let k = choose|k: int| 0 <= k < rest.len() && rest[k] == table[slot].released()[0];
        assert(all[k] == rest[k]);
    }
}

/// A commit changes nothing but what is pending.
pub proof fn law_commit_keeps_the_rest(
    pool: PoolView,
    pending: Seq<PendingChange>,
    slot: int,
)
    requires
        0 <= slot < pool.table.len(),
        !crate::transaction::is_pending(pending, slot),
    ensures
        crate::transaction::committed(pool, pending).table[slot] == pool.table[slot],
        crate::transaction::committed(pool, pending).memory == pool.memory,
{
}

} // verus!
