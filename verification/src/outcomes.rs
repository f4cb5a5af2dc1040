//! What operations on objects come to, told from what was there before.

use crate::image::{LogRecord, PoolView};
use crate::oplog::{LoggedOperation, OperationType};
use crate::pool::{Pool, PoolError, PoolHeader, PoolImage};
use crate::table::{EntryView, Probe};
use crate::transaction::{PendingChange, TransactionContext, TypeInfo};
use vstd::prelude::*;

verus! {

/// All `len` addresses from `x` on are free.
pub open spec fn free_from(free: Set<int>, x: int, len: int) -> bool {
    forall|a: int| x <= a < x + len ==> #[trigger] free.contains(a)
}

/// There are free addresses in which `size` bytes fit wherever the heap aligns them: enough for
/// the bytes in whole words, an alignment gap and a hole on either side.
pub open spec fn has_room(free: Set<int>, size: int, align: int) -> bool {
    exists|x: int| #[trigger] free_from(free, x, size + align + 64)
}

/// A heap with room hands out a block.
proof fn lemma_room(free: Set<int>, size: int, align: int)
    requires
        has_room(free, size, align),
        crate::layout::is_alignment(align),
        0 <= size,
        size + align + 64 <= isize::MAX,
    ensures
        !crate::heap::no_fit(free, size, align),
{
    let x = choose|x: int| #[trigger] free_from(free, x, size + align + 64);
    let len = size + align + 64;
    crate::heap::lemma_is_layout(0, align);
    crate::heap::lemma_block_len(size);
    assert(crate::heap::span(x, len).subset_of(free)) by {
        assert forall|a: int| crate::heap::span(x, len).contains(a) implies #[trigger] free.contains(
            a,
        ) by {}
    }
}

/// The log pool has a slot that is not in use, and room for a record with `size` original bytes.
pub open spec fn has_log_room(log: Pool, size: int) -> bool {
    &&& exists|i: int| 0 <= i < log@.table.len() && !(#[trigger] log@.table[i]).active
    &&& has_room(crate::heap::heap_free(log.heap), 40 + size, 8)
    &&& 0 <= size <= isize::MAX - 200
}

/// A log pool with a slot and room takes every record, whatever operation it is of.
pub proof fn law_log_with_room_takes_the_record(
    before: Pool,
    after: Pool,
    op: LoggedOperation,
    original: Seq<u8>,
    placed: Result<(usize, u64), PoolError>,
)
    requires
        has_log_room(before, op.data_size as int),
        after.answered(before, op, original, placed),
    ensures
        placed is Ok,
{
    crate::layout::lemma_layout_alignments();
    lemma_room(crate::heap::heap_free(before.heap), 40 + op.data_size, 8);
    crate::table::lemma_find(Probe::Inactive, before@.table);
}

/// A log pool takes no record for three reasons only: every slot is in use, there is no room, or
/// the record is too large for any heap. What it held it holds.
pub proof fn law_log_refuses_records_when_full(
    before: Pool,
    after: Pool,
    op: LoggedOperation,
    original: Seq<u8>,
    placed: Result<(usize, u64), PoolError>,
)
    requires
        after.answered(before, op, original, placed),
        placed is Err,
    ensures
        match placed {
            Err(PoolError::ObjectTableFull) => forall|i: int|
                0 <= i < before@.table.len() ==> (#[trigger] before@.table[i]).active,
            Err(PoolError::LogPoolFull) => op.data_size <= isize::MAX - 200 ==> !has_room(
                crate::heap::heap_free(before.heap),
                40 + op.data_size,
                8,
            ),
            Err(PoolError::LayoutError) => op.data_size > isize::MAX - 200,
            _ => false,
        },
        after@.table == before@.table,
        after@.memory == before@.memory,
        crate::heap::heap_free(after.heap) == crate::heap::heap_free(before.heap),
{
    crate::layout::lemma_layout_alignments();
    crate::table::lemma_find(Probe::Inactive, before@.table);
    if op.data_size <= isize::MAX - 200 && has_room(
        crate::heap::heap_free(before.heap),
        40 + op.data_size,
        8,
    ) {
        lemma_room(crate::heap::heap_free(before.heap), 40 + op.data_size, 8);
    }
}

/// A record that was taken lies in memory that was free, in a slot that was not in use. It says
/// what the operation was and what bytes stood there; all else in the log stays.
pub proof fn law_record_is_in_the_log(
    before: Pool,
    after: Pool,
    op: LoggedOperation,
    original: Seq<u8>,
    slot: usize,
    address: u64,
)
    requires
        before.wf(),
        after.wf(),
        after.same_frame(before),
        after.answered(before, op, original, Ok((slot, address))),
        original.len() == 0 || original.len() == op.data_size,
    ensures
        slot < before@.table.len(),
        !before@.table[slot as int].active,
        forall|j: int| 0 <= j < slot ==> (#[trigger] before@.table[j]).active,
        after@.record_in(slot as int) matches Some(record) && record.op == op
            && record.original.len() == op.data_size && (original.len() == op.data_size
            ==> record.original == original),
        forall|i: int| #![trigger after@.table[i]]
            0 <= i < before@.table.len() && i != slot ==> after@.table[i] == before@.table[i],
        forall|i: int| #![trigger after@.memory[i]]
            0 <= i < before@.memory.len() && !(address <= before@.start + i < address + 40
                + op.data_size) ==> after@.memory[i] == before@.memory[i],
        forall|x: int|
            address <= x < address + 40 + op.data_size ==> #[trigger] crate::heap::heap_free(
                before.heap,
            ).contains(x) && !crate::heap::heap_free(after.heap).contains(x),
{
    crate::table::lemma_find(Probe::Inactive, before@.table);
    crate::oplog::law_decode_encode(op);
    crate::heap::lemma_block_len(40 + op.data_size);
    let block = crate::heap::span(address as int, crate::heap::block_len(40 + op.data_size));
    assert forall|x: int|
        address <= x < address + 40 + op.data_size implies #[trigger] crate::heap::heap_free(
        before.heap,
    ).contains(x) && !crate::heap::heap_free(after.heap).contains(x) by {
        assert(block.contains(x));
    }
    assert(after@.bytes(address as int, 40) =~= crate::oplog::encoding(op));
    if original.len() == op.data_size {
        assert(after@.bytes(address + 40, op.data_size as int) =~= original);
    }
}

/// The transaction has a log with a slot and room for `size` original bytes, and its pool is not
/// marked as the log pool.
pub open spec fn has_log(context: TransactionContext, size: int) -> bool {
    &&& context.log_pool matches Some(log)
    &&& has_log_room(log, size)
    &&& !is_marked(context)
}

/// The first slot of the pool marks it as the log pool.
pub open spec fn is_marked(context: TransactionContext) -> bool {
    context.pool@.table[0].active && context.pool@.table[0].id == log_mark()
}

/// `__LOG__`
pub open spec fn log_mark() -> Seq<u8> {
    seq![95u8, 95u8, 76u8, 79u8, 71u8, 95u8, 95u8]
}

/// An operation can be logged where there is a log with room.
proof fn lemma_logged(
    context: TransactionContext,
    log: Option<Pool>,
    op: LoggedOperation,
    original: Seq<u8>,
    result: Result<(), PoolError>,
)
    requires
        has_log(context, op.data_size as int),
        crate::transaction::log_step(
            context.log_pool,
            log,
            context.logging(),
            op,
            original,
            result,
        ),
    ensures
        result is Ok,
{
    assert(log_mark() =~= crate::image::log_pool_id());
    if let Err(error) = result {
        let before = context.log_pool->Some_0;
        crate::layout::lemma_layout_alignments();
        lemma_room(crate::heap::heap_free(before.heap), 40 + op.data_size, 8);
        crate::table::lemma_find(Probe::Inactive, before@.table);
    }
}

/// The log took nothing for want of a slot or of room, or because there is no log.
pub open spec fn log_failed(context: TransactionContext, size: int, error: PoolError) -> bool {
    match error {
        PoolError::LogPoolNotAvailable => context.log_pool is None || is_marked(context),
        PoolError::ObjectTableFull => context.log_pool matches Some(log) && forall|i: int|
            0 <= i < log@.table.len() ==> (#[trigger] log@.table[i]).active,
        PoolError::LogPoolFull => context.log_pool matches Some(log) && (size <= isize::MAX - 200
            ==> !has_room(crate::heap::heap_free(log.heap), 40 + size, 8)),
        PoolError::LayoutError => size > isize::MAX - 200,
        _ => false,
    }
}

proof fn lemma_log_failed(
    context: TransactionContext,
    log: Option<Pool>,
    op: LoggedOperation,
    original: Seq<u8>,
    error: PoolError,
)
    requires
        crate::transaction::log_step(
            context.log_pool,
            log,
            context.logging(),
            op,
            original,
            Err(error),
        ),
    ensures
        log_failed(context, op.data_size as int, error),
        log_same(context.log_pool, log),
{
    assert(log_mark() =~= crate::image::log_pool_id());
    if context.logging() {
        let before = context.log_pool->Some_0;
        crate::layout::lemma_layout_alignments();
        crate::table::lemma_find(Probe::Inactive, before@.table);
        if op.data_size <= isize::MAX - 200 && has_room(
            crate::heap::heap_free(before.heap),
            40 + op.data_size,
            8,
        ) {
            lemma_room(crate::heap::heap_free(before.heap), 40 + op.data_size, 8);
        }
    }
}

/// The log pool holds what it held.
pub open spec fn log_same(before: Option<Pool>, after: Option<Pool>) -> bool {
    match (before, after) {
        (Some(before), Some(after)) => after@.table == before@.table && after@.memory
            == before@.memory,
        (None, None) => true,
        _ => false,
    }
}

/// The slot holds an object under the identifier: one that readers see, or one that the
/// transaction stored.
pub open spec fn holds_object(context: TransactionContext, slot: int, id: Seq<u8>) -> bool {
    let entry = context.pool@.table[slot];
    &&& 0 <= slot < context.pool@.table.len()
    &&& entry.active
    &&& entry.id == id
    &&& entry.valid || exists|k: int|
        0 <= k < context.pending_changes@.len() && (
        #[trigger] context.pending_changes@[k]).entry == slot
}

/// The first slot that holds an object under the identifier.
pub open spec fn first_holds(context: TransactionContext, slot: int, id: Seq<u8>) -> bool {
    &&& holds_object(context, slot, id)
    &&& forall|j: int| 0 <= j < slot ==> !#[trigger] holds_object(context, j, id)
}

/// There is an object at the address: one that readers see, or one that the transaction stored or
/// changed.
pub open spec fn is_at(context: TransactionContext, address: u64) -> bool {
    ||| exists|i: int|
        0 <= i < context.pool@.table.len() && (#[trigger] context.pool@.table[i]).active
            && context.pool@.table[i].valid && context.pool@.table[i].data == Some(address)
    ||| exists|k: int|
        0 <= k < context.pending_changes@.len() && (
        #[trigger] context.pending_changes@[k]).data_ptr == address
}

proof fn lemma_is_at(context: TransactionContext, address: u64)
    ensures
        context.slot_of(address) is Some <==> is_at(context, address),
{
    let table = context.pool@.table;
    let pending = context.pending_changes@;
    crate::table::lemma_find(Probe::LiveAt(address), table);
    crate::transaction::lemma_pending_slot(pending, address);
    if is_at(context, address) && Probe::LiveAt(address).find(table) is None {
        if exists|i: int|
            0 <= i < table.len() && (#[trigger] table[i]).active && table[i].valid && table[i].data
                == Some(address) {
            let i = choose|i: int|
                0 <= i < table.len() && (#[trigger] table[i]).active && table[i].valid
                    && table[i].data == Some(address);
            assert(!Probe::LiveAt(address).hits(table[i]));
        } else {
            let k = choose|k: int|
                0 <= k < pending.len() && (#[trigger] pending[k]).data_ptr == address;
            crate::history::lemma_pending_address(pending, address, k);
        }
    }
    if context.slot_of(address) is Some {
        match Probe::LiveAt(address).find(table) {
            Some(i) => {
                assert(table[i].active);
            },
            None => {
                let slot = context.slot_of(address)->Some_0;
                let k = choose|k: int|
                    0 <= k < pending.len() && (#[trigger] pending[k]).entry == slot
                        && pending[k].data_ptr == address;
                assert(pending[k].data_ptr == address);
            },
        }
    }
}

proof fn lemma_stored_under(context: TransactionContext, id: Seq<u8>)
    ensures
        match context.stored_under(id) {
            Some(slot) => first_holds(context, slot, id),
            None => forall|j: int| !#[trigger] holds_object(context, j, id),
        },
        forall|slot: int| #[trigger] first_holds(context, slot, id) ==> context.stored_under(id)
            == Some(slot),
{
    let hits = context.stored(id);
    crate::search::lemma_first_true(hits);
    assert forall|j: int| 0 <= j < context.pool@.table.len() implies #[trigger] hits[j]
        == holds_object(context, j, id) by {}
    if let Some(slot) = context.stored_under(id) {
        assert(hits[slot]);
        assert forall|j: int| 0 <= j < slot implies !#[trigger] holds_object(context, j, id) by {
            assert(!hits[j]);
        }
    } else {
        assert forall|j: int| !#[trigger] holds_object(context, j, id) by {
            if 0 <= j < context.pool@.table.len() {
                assert(!hits[j]);
            }
        }
    }
    assert forall|slot: int| #[trigger] first_holds(context, slot, id) implies context.stored_under(
        id,
    ) == Some(slot) by {
        assert(hits[slot]);
        assert forall|j: int| 0 <= j < slot implies !#[trigger] hits[j] by {
            assert(!holds_object(context, j, id));
        }
        crate::search::lemma_first_true_is(hits, slot);
    }
}

/// Each slot has the object that it had, whatever its state: identifier, type and place.
pub open spec fn same_objects_in_slots(
    before: TransactionContext,
    after: TransactionContext,
) -> bool {
    &&& after.pool@.table.len() == before.pool@.table.len()
    &&& forall|i: int| #![trigger after.pool@.table[i]]
        0 <= i < before.pool@.table.len() ==> {
            let now = after.pool@.table[i];
            let then = before.pool@.table[i];
            &&& now.id == then.id
            &&& now.type_hash == then.type_hash
            &&& now.type_size == then.type_size
            &&& now.data == then.data
        }
}

/// Each slot is as visible as it was.
pub open spec fn same_visibility(before: TransactionContext, after: TransactionContext) -> bool {
    forall|i: int| #![trigger after.pool@.table[i]]
        0 <= i < before.pool@.table.len() ==> after.pool@.table[i].active
            == before.pool@.table[i].active && after.pool@.table[i].valid
            == before.pool@.table[i].valid
}

/// The slot has a change that waits for the commit.
pub open spec fn waits(context: TransactionContext, slot: int) -> bool {
    exists|k: int|
        0 <= k < context.pending_changes@.len() && (
        #[trigger] context.pending_changes@[k]).entry == slot
}

/// Changes of other slots wait as they did.
pub open spec fn same_waiting_beside(
    before: TransactionContext,
    after: TransactionContext,
    slot: int,
) -> bool {
    forall|i: int| i != slot ==> #[trigger] waits(after, i) == waits(before, i)
}

/// Memory outside the addresses is what it was.
pub open spec fn same_memory_outside(
    before: TransactionContext,
    after: TransactionContext,
    address: int,
    len: int,
) -> bool {
    &&& after.pool@.memory.len() == before.pool@.memory.len()
    &&& after.pool@.start == before.pool@.start
    &&& forall|i: int| #![trigger after.pool@.memory[i]]
        0 <= i < before.pool@.memory.len() && !(address <= before.pool@.start + i < address + len)
            ==> after.pool@.memory[i] == before.pool@.memory[i]
}

/// An object is changed whenever there is one at the address and a log with room: it has the new
/// bytes then, and nothing else of the pool is changed.
pub proof fn law_object_is_changed(
    before: TransactionContext,
    after: TransactionContext,
    address: u64,
    ty: TypeInfo,
    data: Seq<u8>,
    result: Result<(), PoolError>,
)
    requires
        before.wf(),
        after.modified(before, address, ty, data, result),
        data.len() == ty.size,
        before.pool@.holds(address as int, ty.size as int),
        is_at(before, address),
        has_log(before, ty.size as int),
    ensures
        result is Ok,
        after.pool@.bytes(address as int, ty.size as int) == data,
        same_memory_outside(before, after, address as int, ty.size as int),
        same_objects_in_slots(before, after),
        same_visibility(before, after),
        is_at(after, address),
        exists|slot: int| #[trigger]
            waits(after, slot) && before.pool@.table[slot].data == Some(address)
                && same_waiting_beside(before, after, slot) && after.pool@.table[slot].done,
        crate::heap::heap_free(after.pool.heap) == crate::heap::heap_free(before.pool.heap),
{
    lemma_is_at(before, address);
    crate::history::lemma_slot_of(before, address);
    let op = before.operation(
        OperationType::Modification,
        address,
        ty.size,
        ty.hash(),
    );
    let original = before.pool@.bytes(address as int, ty.size as int);
    lemma_logged(before, after.log_pool, op, original, result);
    assert(after.pool@.bytes(address as int, ty.size as int) =~= data);
    let slot = before.slot_of(address)->Some_0;
    let pending = before.pending_changes@;
    lemma_waiting(before, after, slot, address);
    assert(waits(after, slot));
    if crate::transaction::is_pending(pending, slot) {
        let table = before.pool@.table;
        crate::table::lemma_find(Probe::LiveAt(address), table);
        match Probe::LiveAt(address).find(table) {
            Some(i) => {
                assert(after.pool@.table[i].active && after.pool@.table[i].valid);
            },
            None => {
                crate::transaction::lemma_pending_slot(pending, address);
                let k = choose|k: int|
                    0 <= k < pending.len() && (#[trigger] pending[k]).entry == slot
                        && pending[k].data_ptr == address;
                assert(after.pending_changes@[k].data_ptr == address);
            },
        }
    } else {
        assert(after.pending_changes@[pending.len() as int].data_ptr == address);
    }
}

/// A change of a slot waits for the commit, as those of other slots did.
proof fn lemma_waiting(
    before: TransactionContext,
    after: TransactionContext,
    slot: int,
    address: u64,
)
    requires
        0 <= slot <= usize::MAX,
        after.pending_changes@ == crate::transaction::with_pending(
            before.pending_changes@,
            slot,
            address,
        ),
    ensures
        waits(after, slot),
        same_waiting_beside(before, after, slot),
{
    let pending = before.pending_changes@;
    let now = after.pending_changes@;
    if !crate::transaction::is_pending(pending, slot) {
        assert(now[pending.len() as int].entry == slot);
    }
    assert forall|i: int| i != slot implies #[trigger] waits(after, i) == waits(before, i) by {
        if waits(before, i) {
            let k = choose|k: int| 0 <= k < pending.len() && (#[trigger] pending[k]).entry == i;
            assert(now[k].entry == i);
        }
        if waits(after, i) {
            let k = choose|k: int| 0 <= k < now.len() && (#[trigger] now[k]).entry == i;
            assert(pending[k].entry == i);
        }
    }
}

/// A change is refused with `InvalidId` exactly where there is no object at the address, and
/// otherwise only where the log takes no record. Nothing was changed then.
pub proof fn law_change_is_refused(
    before: TransactionContext,
    after: TransactionContext,
    address: u64,
    ty: TypeInfo,
    data: Seq<u8>,
    result: Result<(), PoolError>,
)
    requires
        before.wf(),
        after.modified(before, address, ty, data, result),
    ensures
        result matches Err(PoolError::InvalidId) <==> !is_at(before, address),
        result matches Err(error) ==> {
            &&& error is InvalidId || log_failed(before, ty.size as int, error)
            &&& after.pool@.memory == before.pool@.memory
            &&& same_objects_in_slots(before, after)
            &&& same_visibility(before, after)
            &&& after.pending_changes@ == before.pending_changes@
            &&& log_same(before.log_pool, after.log_pool)
        },
{
    lemma_is_at(before, address);
    if let Err(error) = result {
        if before.slot_of(address) is Some {
            crate::history::lemma_slot_of(before, address);
            let op = before.operation(
                OperationType::Modification,
                address,
                ty.size,
                ty.hash(),
            );
            let original = before.pool@.bytes(address as int, ty.size as int);
            lemma_log_failed(before, after.log_pool, op, original, error);
        }
    }
}

/// A new object is stored whenever its identifier has at most 32 bytes and no object yet, some slot
/// is free, the heap has room for it and the log for its record, unless it would mark the pool as
/// the log pool. It lies in memory that was free, and all else stays.
pub proof fn law_new_object_is_stored(
    before: TransactionContext,
    after: TransactionContext,
    id: Seq<u8>,
    ty: TypeInfo,
    data: Seq<u8>,
    result: Result<u64, PoolError>,
    free: int,
)
    requires
        before.wf(),
        after.allocated(before, id, ty, data, result),
        data.len() == ty.size,
        ty.wf(),
        ty.size + ty.align + 200 <= isize::MAX,
        id.len() <= 32,
        forall|i: int| !#[trigger] holds_object(before, i, id),
        0 <= free < before.pool@.table.len(),
        !before.pool@.table[free].active && !before.pool@.table[free].done,
        forall|j: int|
            0 <= j < free ==> (#[trigger] before.pool@.table[j]).active || before.pool@.table[j].done,
        free != 0 || id != log_mark(),
        has_room(crate::heap::heap_free(before.pool.heap), ty.size as int, ty.align as int),
        has_log(before, ty.size as int),
    ensures
        result matches Ok(address) && {
            let entry = after.pool@.table[free];
            &&& entry.active
            &&& entry.id == id
            &&& entry.type_hash == ty.hash()
            &&& entry.type_size == ty.size
            &&& entry.data == Some(address)
            &&& address > 0
            &&& address as int % (ty.align as int) == 0
            &&& after.pool@.holds(address as int, ty.size as int)
            &&& after.pool@.bytes(address as int, ty.size as int) == data
            &&& same_memory_outside(before, after, address as int, ty.size as int)
            &&& forall|x: int|
                address <= x < address + ty.size ==> #[trigger] crate::heap::heap_free(
                    before.pool.heap,
                ).contains(x) && !crate::heap::heap_free(after.pool.heap).contains(x)
        },
        holds_object(after, free, id),
        !after.pool@.table[free].valid,
        after.pool@.table[free].done,
        same_waiting_beside(before, after, free),
        forall|i: int| #![trigger after.pool@.table[i]]
            0 <= i < before.pool@.table.len() && i != free ==> after.pool@.table[i]
                == before.pool@.table[i],
{
    lemma_stored_under(before, id);
    if before.stored_under(id) is Some {
        assert(holds_object(before, before.stored_under(id)->Some_0, id));
    }
    assert(log_mark() =~= crate::image::log_pool_id());
    assert forall|j: int| 0 <= j < free implies !Probe::Free.hits(
        #[trigger] before.pool@.table[j],
    ) by {}
    crate::table::lemma_find_is(Probe::Free, before.pool@.table, free);
    lemma_room(crate::heap::heap_free(before.pool.heap), ty.size as int, ty.align as int);
    if let Err(error) = result {
        if error is AllocationFailed {
            assert(before.pool.no_room(ty.size as int, ty.align as int));
        } else {
            let address = choose|address: u64|
                {
                    &&& #[trigger] after.pool.took_block(
                        before.pool,
                        address,
                        ty.size as int,
                        ty.align as int,
                    )
                    &&& crate::transaction::log_step(
                        before.log_pool,
                        after.log_pool,
                        before.logging(),
                        before.operation(
                            OperationType::Allocation,
                            address,
                            ty.size,
                            ty.hash(),
                        ),
                        Seq::empty(),
                        Err(error),
                    )
                };
            let op = before.operation(
                OperationType::Allocation,
                address,
                ty.size,
                ty.hash(),
            );
            lemma_logged(before, after.log_pool, op, Seq::empty(), Err(error));
        }
    }
    let address = result->Ok_0;
    assert(after.pool@.bytes(address as int, ty.size as int) =~= data);
    crate::heap::lemma_block_len(ty.size as int);
    let block = crate::heap::span(address as int, crate::heap::block_len(ty.size as int));
    assert forall|x: int| address <= x < address + ty.size implies
        #[trigger] crate::heap::heap_free(before.pool.heap).contains(x) && !crate::heap::heap_free(
        after.pool.heap,
    ).contains(x) by {
        assert(block.contains(x));
    }
    let pending = after.pending_changes@;
    assert(pending[pending.len() - 1].entry == free);
    assert forall|i: int| i != free implies #[trigger] waits(after, i) == waits(before, i) by {
        let then = before.pending_changes@;
        if waits(before, i) {
            let k = choose|k: int| 0 <= k < then.len() && (#[trigger] then[k]).entry == i;
            assert(pending[k].entry == i);
        }
        if waits(after, i) {
            let k = choose|k: int| 0 <= k < pending.len() && (#[trigger] pending[k]).entry == i;
            assert(then[k].entry == i);
        }
    }
}

/// An object under the identifier is updated in place whenever it is of the same type and the log
/// has room for its bytes.
pub proof fn law_object_is_updated(
    before: TransactionContext,
    after: TransactionContext,
    id: Seq<u8>,
    ty: TypeInfo,
    data: Seq<u8>,
    result: Result<u64, PoolError>,
    slot: int,
    address: u64,
)
    requires
        before.wf(),
        after.allocated(before, id, ty, data, result),
        data.len() == ty.size,
        id.len() <= 32,
        first_holds(before, slot, id),
        before.pool@.table[slot].type_hash == ty.hash(),
        before.pool@.table[slot].data == Some(address),
        before.pool@.holds(address as int, ty.size as int),
        has_log(before, ty.size as int),
    ensures
        result == Ok::<u64, PoolError>(address),
        after.pool@.bytes(address as int, ty.size as int) == data,
        same_memory_outside(before, after, address as int, ty.size as int),
        same_objects_in_slots(before, after),
        same_visibility(before, after),
{
    lemma_stored_under(before, id);
    assert(is_at(before, address)) by {
        let entry = before.pool@.table[slot];
        if !entry.valid {
            let k = choose|k: int|
                0 <= k < before.pending_changes@.len() && (
                #[trigger] before.pending_changes@[k]).entry == slot;
            assert(before.pending_changes@[k].data_ptr == address);
        } else {
            assert(before.pool@.table[slot].active);
        }
    }
    let outcome: Result<(), PoolError> = match result {
        Ok(_) => Ok(()),
        Err(error) => Err(error),
    };
    law_object_is_changed(before, after, address, ty, data, outcome);
}

/// An object under the identifier that is of another type is left alone, and the type that was
/// asked for is told.
pub proof fn law_object_of_another_type_is_kept(
    before: TransactionContext,
    after: TransactionContext,
    id: Seq<u8>,
    ty: TypeInfo,
    data: Seq<u8>,
    result: Result<u64, PoolError>,
    slot: int,
)
    requires
        after.allocated(before, id, ty, data, result),
        id.len() <= 32,
        first_holds(before, slot, id),
        before.pool@.table[slot].type_hash != ty.hash(),
    ensures
        result matches Err(PoolError::TypeMismatch { expected, actual }) && expected == ty.name
            && actual == "unknown",
        after == before,
{
    lemma_stored_under(before, id);
}

/// Storing fails for these reasons only. `InvalidId` stands for an identifier of more than 32 bytes
/// and for nothing else, and where storing fails, no object and no byte was changed.
pub proof fn law_storing_is_refused(
    before: TransactionContext,
    after: TransactionContext,
    id: Seq<u8>,
    ty: TypeInfo,
    data: Seq<u8>,
    result: Result<u64, PoolError>,
)
    requires
        before.wf(),
        after.allocated(before, id, ty, data, result),
        data.len() == ty.size,
        ty.wf(),
        before.can_store(id, ty),
    ensures
        result matches Err(PoolError::InvalidId) <==> id.len() > 32,
        result matches Err(PoolError::TypeMismatch { .. }) <==> id.len() <= 32 && exists|slot: int|
            #[trigger] first_holds(before, slot, id) && before.pool@.table[slot].type_hash
                != ty.hash(),
        result matches Err(error) ==> {
            &&& after.pool@.memory == before.pool@.memory
            &&& after.pending_changes@ == before.pending_changes@
            &&& log_same(before.log_pool, after.log_pool)
            &&& forall|i: int| #![trigger after.pool@.table[i]]
                0 <= i < before.pool@.table.len() && before.pool@.table[i].active ==> {
                    &&& after.pool@.table[i].active
                    &&& after.pool@.table[i].valid == before.pool@.table[i].valid
                    &&& after.pool@.table[i].same_object(before.pool@.table[i])
                }
            &&& match error {
                PoolError::InvalidId => true,
                PoolError::TypeMismatch { .. } => true,
                PoolError::AllocationFailed => ty.size + ty.align + 200 <= isize::MAX ==> !has_room(
                    crate::heap::heap_free(before.pool.heap),
                    ty.size as int,
                    ty.align as int,
                ),
                PoolError::ObjectTableFull => {
                    ||| log_failed(before, ty.size as int, error)
                    ||| forall|i: int|
                        0 <= i < before.pool@.table.len() ==> (
                        #[trigger] before.pool@.table[i]).active || before.pool@.table[i].done
                },
                PoolError::LogPoolNotAvailable => {
                    ||| log_failed(before, ty.size as int, error)
                    ||| id == log_mark() && !before.pool@.table[0].active
                        && !before.pool@.table[0].done
                },
                _ => log_failed(before, ty.size as int, error),
            }
        },
{
    lemma_stored_under(before, id);
    assert(log_mark() =~= crate::image::log_pool_id());
    crate::table::lemma_find(Probe::Free, before.pool@.table);
    if id.len() <= 32 {
        match before.stored_under(id) {
            Some(slot) => {
                assert(first_holds(before, slot, id));
                if before.pool@.table[slot].type_hash == ty.hash() {
                    let address = before.pool@.table[slot].data->Some_0;
                    let outcome: Result<(), PoolError> = match result {
                        Ok(_) => Ok(()),
                        Err(error) => Err(error),
                    };
                    law_change_is_refused(before, after, address, ty, data, outcome);
                    assert(is_at(before, address)) by {
                        let entry = before.pool@.table[slot];
                        if !entry.valid {
                            let k = choose|k: int|
                                0 <= k < before.pending_changes@.len() && (
                                #[trigger] before.pending_changes@[k]).entry == slot;
                            assert(before.pending_changes@[k].data_ptr == address);
                        } else {
                            assert(before.pool@.table[slot].active);
                        }
                    }
                }
            },
            None => {
                if exists|slot: int| #[trigger]
                    first_holds(before, slot, id) && before.pool@.table[slot].type_hash
                        != ty.hash() {
                    let slot = choose|slot: int| #[trigger]
                        first_holds(before, slot, id) && before.pool@.table[slot].type_hash
                            != ty.hash();
                    assert(before.stored_under(id) == Some(slot));
                }
                if let Some(slot) = Probe::Free.find(before.pool@.table) {
                    if let Err(error) = result {
                        if !crate::transaction::marks_log(slot, id) {
                            lemma_placing_failed(before, after, slot, id, ty, data, error);
                        }
                    }
                }
            },
        }
    }
}

proof fn lemma_placing_failed(
    before: TransactionContext,
    after: TransactionContext,
    slot: int,
    id: Seq<u8>,
    ty: TypeInfo,
    data: Seq<u8>,
    error: PoolError,
)
    requires
        before.wf(),
        ty.wf(),
        after.placed(before, slot, id, ty, data, Err(error)),
    ensures
        log_same(before.log_pool, after.log_pool),
        !(error is InvalidId) && !(error is TypeMismatch),
        error is AllocationFailed ==> ty.size + ty.align + 200 <= isize::MAX ==> !has_room(
            crate::heap::heap_free(before.pool.heap),
            ty.size as int,
            ty.align as int,
        ),
        !(error is AllocationFailed) ==> log_failed(before, ty.size as int, error),
{
    if error is AllocationFailed {
        if ty.size + ty.align + 200 <= isize::MAX && has_room(
            crate::heap::heap_free(before.pool.heap),
            ty.size as int,
            ty.align as int,
        ) {
            lemma_room(crate::heap::heap_free(before.pool.heap), ty.size as int, ty.align as int);
        }
    } else {
        let address = choose|address: u64|
            {
                &&& #[trigger] after.pool.took_block(
                    before.pool,
                    address,
                    ty.size as int,
                    ty.align as int,
                )
                &&& crate::transaction::log_step(
                    before.log_pool,
                    after.log_pool,
                    before.logging(),
                    before.operation(
                        OperationType::Allocation,
                        address,
                        ty.size,
                        ty.hash(),
                    ),
                    Seq::empty(),
                    Err(error),
                )
            };
        let op = before.operation(
            OperationType::Allocation,
            address,
            ty.size,
            ty.hash(),
        );
        lemma_log_failed(before, after.log_pool, op, Seq::empty(), error);
    }
}

/// An object is given up whenever there is one under the identifier and a log with room: it is
/// gone from its slot, which keeps its block, and all else stays.
pub proof fn law_object_is_given_up(
    before: TransactionContext,
    after: TransactionContext,
    id: Seq<u8>,
    result: Result<(), PoolError>,
    slot: int,
)
    requires
        before.wf(),
        after.deallocated(before, id, result),
        first_holds(before, slot, id),
        has_log(before, before.pool@.table[slot].type_size as int),
    ensures
        result is Ok,
        !holds_object(after, slot, id),
        !after.pool@.table[slot].active && after.pool@.table[slot].done,
        !after.pool@.table[slot].valid,
        same_objects_in_slots(before, after),
        after.pool@.memory == before.pool@.memory,
        !waits(after, slot),
        same_waiting_beside(before, after, slot),
        crate::heap::heap_free(after.pool.heap) == crate::heap::heap_free(before.pool.heap),
        forall|i: int| #![trigger after.pool@.table[i]]
            0 <= i < before.pool@.table.len() && i != slot ==> after.pool@.table[i]
                == before.pool@.table[i],
{
    lemma_stored_under(before, id);
    let entry = before.pool@.table[slot];
    if let Some(address) = entry.data {
        let op = before.operation(
            OperationType::Deallocation,
            address,
            entry.type_size,
            entry.type_hash,
        );
        lemma_logged(before, after.log_pool, op, Seq::empty(), result);
    }
    let pending = before.pending_changes@;
    let left = after.pending_changes@;
    if waits(after, slot) {
        let k = choose|k: int| 0 <= k < left.len() && (#[trigger] left[k]).entry == slot;
        crate::transaction::lemma_without_pending(pending, slot, k);
    }
    assert forall|i: int| i != slot implies #[trigger] waits(after, i) == waits(before, i) by {
        if waits(before, i) {
            crate::transaction::lemma_still_pending(pending, slot, i);
        }
        if waits(after, i) {
            let k = choose|k: int| 0 <= k < left.len() && (#[trigger] left[k]).entry == i;
            crate::transaction::lemma_without_pending(pending, slot, k);
        }
    }
}

/// Giving up is refused with `InvalidId` exactly where no object has the identifier, and otherwise
/// only where the log takes no record. Every object is there then, and nothing is logged.
pub proof fn law_giving_up_is_refused(
    before: TransactionContext,
    after: TransactionContext,
    id: Seq<u8>,
    result: Result<(), PoolError>,
)
    requires
        after.deallocated(before, id, result),
    ensures
        result matches Err(PoolError::InvalidId) <==> forall|i: int|
            !#[trigger] holds_object(before, i, id),
        result matches Err(error) ==> {
            &&& after.pool@.memory == before.pool@.memory
            &&& same_objects_in_slots(before, after)
            &&& same_visibility(before, after)
            &&& after.pending_changes@ == before.pending_changes@
            &&& log_same(before.log_pool, after.log_pool)
            &&& error is InvalidId || exists|slot: int| #[trigger]
                first_holds(before, slot, id) && log_failed(
                    before,
                    before.pool@.table[slot].type_size as int,
                    error,
                )
        },
{
    lemma_stored_under(before, id);
    if let Some(slot) = before.stored_under(id) {
        assert(first_holds(before, slot, id));
        assert(holds_object(before, slot, id));
        let entry = before.pool@.table[slot];
        if let Err(error) = result {
            let address = entry.data->Some_0;
            let op = before.operation(
                OperationType::Deallocation,
                address,
                entry.type_size,
                entry.type_hash,
            );
            lemma_log_failed(before, after.log_pool, op, Seq::empty(), error);
        }
    }
}

/// The first slot with an object under the identifier that readers see.
pub open spec fn first_seen(context: TransactionContext, slot: int, id: Seq<u8>) -> bool {
    let table = context.pool@.table;
    &&& 0 <= slot < table.len()
    &&& table[slot].active && table[slot].valid && table[slot].id == id
    &&& forall|j: int| 0 <= j < slot ==> !(#[trigger] table[j]).active || !table[j].valid || table[j].id
        != id
}

/// An object that readers see is found under its identifier, and handed out where the type that is
/// asked for has the hash of its type: its address, and the bytes there.
pub proof fn law_object_is_found(
    context: TransactionContext,
    id: Seq<u8>,
    ty: TypeInfo,
    found: Result<u64, PoolError>,
    read: Result<Vec<u8>, PoolError>,
    slot: int,
)
    requires
        first_seen(context, slot, id),
        context.pool@.table[slot].type_hash == ty.hash(),
        context.looked_up(id, ty, found),
        context.read_out(id, ty, read),
    ensures
        found matches Ok(address) && context.pool@.table[slot].data == Some(address),
        read matches Ok(data) && data@ == context.pool@.bytes(
            context.pool@.table[slot].data->Some_0 as int,
            ty.size as int,
        ),
{
    assert forall|j: int| 0 <= j < slot implies !Probe::Live(id).hits(
        #[trigger] context.pool@.table[j],
    ) by {}
    crate::table::lemma_find_is(Probe::Live(id), context.pool@.table, slot);
}

/// An object is not handed out as one of another type: where the hashes differ, the type that was
/// asked for is told.
pub proof fn law_other_types_are_refused(
    context: TransactionContext,
    id: Seq<u8>,
    ty: TypeInfo,
    found: Result<u64, PoolError>,
    read: Result<Vec<u8>, PoolError>,
    slot: int,
)
    requires
        first_seen(context, slot, id),
        context.pool@.table[slot].type_hash != ty.hash(),
        context.looked_up(id, ty, found),
        context.read_out(id, ty, read),
    ensures
        found matches Err(PoolError::TypeMismatch { expected, actual }) && expected == ty.name
            && actual == "unknown",
        read matches Err(PoolError::TypeMismatch { expected, actual }) && expected == ty.name
            && actual == "unknown",
{
    assert forall|j: int| 0 <= j < slot implies !Probe::Live(id).hits(
        #[trigger] context.pool@.table[j],
    ) by {}
    crate::table::lemma_find_is(Probe::Live(id), context.pool@.table, slot);
}

/// Where readers see no object under the identifier, none is found.
pub proof fn law_missing_object_is_not_found(
    context: TransactionContext,
    id: Seq<u8>,
    ty: TypeInfo,
    found: Result<u64, PoolError>,
    read: Result<Vec<u8>, PoolError>,
)
    requires
        forall|j: int| #![trigger context.pool@.table[j]]
            0 <= j < context.pool@.table.len() ==> !context.pool@.table[j].active
                || !context.pool@.table[j].valid || context.pool@.table[j].id != id,
        context.looked_up(id, ty, found),
        context.read_out(id, ty, read),
    ensures
        found matches Err(PoolError::InvalidId),
        read matches Err(PoolError::InvalidId),
{
    crate::table::lemma_find_none(Probe::Live(id), context.pool@.table);
}

/// A slot of the log holds the record of an operation on an object, with the bytes that stood there
/// where they were kept.
pub open spec fn is_recorded(
    log: Option<Pool>,
    op_type: OperationType,
    pool: u64,
    address: u64,
    size: usize,
    original: Option<Seq<u8>>,
) -> bool {
    log matches Some(log) && exists|i: int| 0 <= i < log@.table.len() && match #[trigger] log@.record_in(
        i,
    ) {
        Some(record) => {
            &&& record.op.op_type == op_type
            &&& record.op.pool_base_address == pool
            &&& record.op.absolute_address == address
            &&& record.op.data_size == size
            &&& original matches Some(original) ==> record.original == original
        },
        None => false,
    }
}

proof fn lemma_recorded(
    context: TransactionContext,
    log: Option<Pool>,
    op: LoggedOperation,
    original: Seq<u8>,
)
    requires
        crate::transaction::log_wf(context.log_pool),
        crate::transaction::log_wf(log),
        crate::transaction::log_step(
            context.log_pool,
            log,
            context.logging(),
            op,
            original,
            Ok(()),
        ),
        original.len() == 0 || original.len() == op.data_size,
    ensures
        is_recorded(
            log,
            op.op_type,
            op.pool_base_address,
            op.absolute_address,
            op.data_size,
            if original.len() == op.data_size {
                Some(original)
            } else {
                None
            },
        ),
{
    let before = context.log_pool->Some_0;
    let after = log->Some_0;
    let (slot, address) = choose|slot: int, address: u64|
        #[trigger] after.extends_at(before, op, original, slot, address);
    crate::table::lemma_find(Probe::Inactive, before@.table);
    law_record_is_in_the_log(before, after, op, original, slot as usize, address);
    assert(after@.record_in(slot) is Some);
}

/// What is changed is logged first, with the bytes that stood there.
pub proof fn law_change_is_logged(
    before: TransactionContext,
    after: TransactionContext,
    address: u64,
    ty: TypeInfo,
    data: Seq<u8>,
)
    requires
        before.wf(),
        after.wf(),
        after.modified(before, address, ty, data, Ok(())),
        before.pool@.holds(address as int, ty.size as int),
    ensures
        is_recorded(
            after.log_pool,
            OperationType::Modification,
            before.pool.base_address,
            address,
            ty.size,
            Some(before.pool@.bytes(address as int, ty.size as int)),
        ),
{
    let op = before.operation(OperationType::Modification, address, ty.size, ty.hash());
    let original = before.pool@.bytes(address as int, ty.size as int);
    lemma_recorded(before, after.log_pool, op, original);
}

/// What is stored anew is logged.
pub proof fn law_new_object_is_logged(
    before: TransactionContext,
    after: TransactionContext,
    id: Seq<u8>,
    ty: TypeInfo,
    data: Seq<u8>,
    address: u64,
)
    requires
        before.wf(),
        after.wf(),
        forall|i: int| !#[trigger] holds_object(before, i, id),
        after.allocated(before, id, ty, data, Ok(address)),
    ensures
        is_recorded(
            after.log_pool,
            OperationType::Allocation,
            before.pool.base_address,
            address,
            ty.size,
            None,
        ),
{
    lemma_stored_under(before, id);
    if before.stored_under(id) is Some {
        assert(holds_object(before, before.stored_under(id)->Some_0, id));
    }
    let op = before.operation(OperationType::Allocation, address, ty.size, ty.hash());
    lemma_recorded(before, after.log_pool, op, Seq::empty());
}

/// What is given up is logged.
pub proof fn law_giving_up_is_logged(
    before: TransactionContext,
    after: TransactionContext,
    id: Seq<u8>,
    slot: int,
    address: u64,
)
    requires
        before.wf(),
        after.wf(),
        first_holds(before, slot, id),
        before.pool@.table[slot].data == Some(address),
        after.deallocated(before, id, Ok(())),
    ensures
        is_recorded(
            after.log_pool,
            OperationType::Deallocation,
            before.pool.base_address,
            address,
            before.pool@.table[slot].type_size,
            None,
        ),
{
    lemma_stored_under(before, id);
    let entry = before.pool@.table[slot];
    let op = before.operation(
        OperationType::Deallocation,
        address,
        entry.type_size,
        entry.type_hash,
    );
    lemma_recorded(before, after.log_pool, op, Seq::empty());
}

/// A commit makes visible what is pending, every slot of it, and changes nothing else.
pub proof fn law_commit_makes_the_pending_visible(
    pool: PoolView,
    pending: Seq<PendingChange>,
    slot: int,
)
    requires
        0 <= slot < pool.table.len(),
    ensures
        ({
            let now = crate::transaction::committed(pool, pending);
            &&& now.memory == pool.memory
            &&& now.table.len() == pool.table.len()
            &&& now.table[slot].active == pool.table[slot].active
            &&& now.table[slot].done == pool.table[slot].done
            &&& now.table[slot].id == pool.table[slot].id
            &&& now.table[slot].type_hash == pool.table[slot].type_hash
            &&& now.table[slot].type_size == pool.table[slot].type_size
            &&& now.table[slot].data == pool.table[slot].data
            &&& now.table[slot].valid == (pool.table[slot].valid || exists|k: int|
                0 <= k < pending.len() && (#[trigger] pending[k]).entry == slot)
        }),
{
}

/// The next transaction sees the objects of one that was committed, each under its identifier, and
/// no others.
pub proof fn law_committed_objects_are_seen(context: TransactionContext, slot: int, id: Seq<u8>)
    requires
        context.wf(),
        0 <= slot < context.pool@.table.len(),
    ensures
        ({
            let next = crate::transaction::committed(
                context.pool@,
                context.pending_changes@,
            ).recovered();
            &&& next.memory == context.pool@.memory
            &&& (next.table[slot].active && next.table[slot].valid && next.table[slot].id == id)
                == holds_object(context, slot, id)
            &&& holds_object(context, slot, id) ==> {
                &&& next.table[slot].type_hash == context.pool@.table[slot].type_hash
                &&& next.table[slot].type_size == context.pool@.table[slot].type_size
                &&& next.table[slot].data == context.pool@.table[slot].data
            }
        }),
{
    crate::laws::law_commit_shows_its_objects(context, slot);
}

/// Recovery settles each slot by its flags. An object that readers see stays; one that was stored
/// but not committed becomes visible; one whose storing did not finish, or that was given up, is
/// gone without a trace; any other slot stays. Memory stays.
pub proof fn law_recovery_settles_each_slot(pool: PoolView, slot: int)
    requires
        0 <= slot < pool.table.len(),
    ensures
        ({
            let now = pool.recovered().table[slot];
            let then = pool.table[slot];
            &&& pool.recovered().memory == pool.memory
            &&& then.active && then.valid ==> now == then
            &&& then.active && !then.valid && then.done ==> {
                &&& now.active && now.valid && now.done
                &&& now.id == then.id && now.type_hash == then.type_hash
                &&& now.type_size == then.type_size && now.data == then.data
            }
            &&& (then.active && !then.valid && !then.done) || (!then.active && then.done) ==> {
                &&& !now.active && !now.valid && !now.done
                &&& now.id.len() == 0 && now.type_hash == 0 && now.type_size == 0
                &&& now.data is None
            }
            &&& !then.active && !then.done ==> now == then
        }),
{
}

/// Recovery empties the slot, and the slot has a block.
pub open spec fn gives_back(entry: EntryView) -> bool {
    &&& entry.data is Some
    &&& (entry.active && !entry.valid && !entry.done) || (!entry.active && entry.done)
}

/// The blocks that recovery gives back are those of the slots that it empties, each once and in
/// slot order.
pub proof fn law_recovery_gives_blocks_back(table: Seq<EntryView>, slot: int)
    requires
        0 <= slot < table.len(),
    ensures
        ({
            let freed = crate::image::released_by(table);
            let before = crate::search::count_true(
                Seq::new(slot as nat, |i: int| gives_back(table[i])),
            );
            &&& freed.len() == crate::search::count_true(
                Seq::new(table.len(), |i: int| gives_back(table[i])),
            )
            &&& gives_back(table[slot]) ==> {
                &&& before < freed.len()
                &&& table[slot].data == Some(freed[before as int].address)
                &&& freed[before as int].size == table[slot].type_size
            }
        }),
    decreases table.len(),
{
    let rest = table.drop_last();
    let freed = crate::image::released_by(table);
    let most = crate::image::released_by(rest);
    let all = Seq::new(table.len(), |i: int| gives_back(table[i]));
    let fewer = Seq::new(rest.len(), |i: int| gives_back(rest[i]));
    assert(all.drop_last() =~= fewer);
    if rest.len() > 0 {
        if slot < rest.len() {
            law_recovery_gives_blocks_back(rest, slot);
            assert(Seq::new(slot as nat, |i: int| gives_back(table[i])) =~= Seq::new(
                slot as nat,
                |i: int| gives_back(rest[i]),
            ));
        } else {
            law_recovery_gives_blocks_back(rest, 0);
        }
    } else {
        assert(most =~= Seq::empty());
        assert(crate::search::count_true(fewer) == 0);
    }
    if slot == table.len() - 1 {
        assert(Seq::new(slot as nat, |i: int| gives_back(table[i])) =~= fewer);
    }
}

/// What recovery of a pool gives back is that of its table.
pub proof fn law_pool_gives_blocks_back(pool: PoolView)
    ensures
        pool.released() == crate::image::released_by(pool.table),
{
}

/// Undoing a change writes the bytes back that stood there, and nothing else.
pub proof fn law_undone_change_restores_bytes(pool: PoolView, record: LogRecord)
    requires
        record.op.op_type is Modification,
        pool.holds(record.op.absolute_address as int, record.original.len() as int),
    ensures
        ({
            let now = pool.undone(record);
            let address = record.op.absolute_address as int;
            let len = record.original.len() as int;
            &&& now.bytes(address, len) == record.original
            &&& now.memory.len() == pool.memory.len()
            &&& forall|i: int| #![trigger now.memory[i]]
                0 <= i < pool.memory.len() && !(address <= pool.start + i < address + len)
                    ==> now.memory[i] == pool.memory[i]
            &&& now.table.len() == pool.table.len()
            &&& forall|i: int| #![trigger now.table[i]]
                0 <= i < pool.table.len() ==> now.table[i].id == pool.table[i].id
                    && now.table[i].data == pool.table[i].data
        }),
{
    let now = pool.undone(record);
    let address = record.op.absolute_address as int;
    let len = record.original.len() as int;
    crate::table::lemma_find(Probe::At(record.op.absolute_address), pool.table);
    assert(now.bytes(address, len) =~= record.original);
}

/// Undoing leaves the memory alone where nothing was changed: an object that was stored is marked
/// as unfinished, so that recovery empties its slot, and the first one that was given up is there
/// again.
pub proof fn law_undone_objects_come_and_go(pool: PoolView, record: LogRecord, slot: int)
    requires
        !(record.op.op_type is Modification),
        0 <= slot < pool.table.len(),
    ensures
        ({
            let now = pool.undone(record);
            let address = record.op.absolute_address;
            &&& now.memory == pool.memory
            &&& now.table.len() == pool.table.len()
            &&& record.op.op_type is Allocation && pool.table[slot].data == Some(address) && (
            forall|j: int| 0 <= j < slot ==> (#[trigger] pool.table[j]).data != Some(address))
                ==> now.recovered().table[slot].data is None
            &&& record.op.op_type is Deallocation && given_up(pool.table[slot]) && (forall|j: int|
                0 <= j < slot ==> !given_up(#[trigger] pool.table[j])) ==> {
                &&& now.table[slot].active && now.table[slot].valid
                &&& now.table[slot].id == pool.table[slot].id
                &&& now.table[slot].data == pool.table[slot].data
            }
        }),
{
    let address = record.op.absolute_address;
    if record.op.op_type is Allocation {
        let probe = Probe::At(address);
        crate::table::lemma_find(probe, pool.table);
        if pool.table[slot].data == Some(address) && (forall|j: int|
            0 <= j < slot ==> (#[trigger] pool.table[j]).data != Some(address)) {
            crate::table::lemma_find_is(probe, pool.table, slot);
        }
    } else {
        let probe = Probe::Dropped;
        crate::table::lemma_find(probe, pool.table);
        if given_up(pool.table[slot]) && (forall|j: int|
            0 <= j < slot ==> !given_up(#[trigger] pool.table[j])) {
            assert forall|j: int| 0 <= j < slot implies !probe.hits(#[trigger] pool.table[j]) by {
                assert(!given_up(pool.table[j]));
            }
            crate::table::lemma_find_is(probe, pool.table, slot);
        }
    }
}

/// The slot was given up, and its memory has not come back yet.
pub open spec fn given_up(entry: EntryView) -> bool {
    !entry.active && !entry.valid && entry.done
}

/// A rollback undoes the records of the pool, the last one first, and passes over those of other
/// pools.
pub proof fn law_rollback_goes_backwards(pool: PoolView, records: Seq<LogRecord>, last: LogRecord)
    ensures
        pool.rolled_back(Seq::empty()) == pool,
        last.op.pool_base_address == pool.base ==> pool.rolled_back(records.push(last))
            == pool.undone(last).rolled_back(records),
        last.op.pool_base_address != pool.base ==> pool.rolled_back(records.push(last))
            == pool.rolled_back(records),
{
    assert(records.push(last).drop_last() =~= records);
}

/// The records of a log are those of its slots, in slot order.
pub proof fn law_records_are_those_of_the_slots(log: PoolView, slots: int)
    requires
        0 <= slots < log.table.len(),
    ensures
        log.records_below(0) == Seq::<LogRecord>::empty(),
        log.records() == log.records_below(log.table.len() as int),
        log.records_below(slots + 1) == match log.record_in(slots) {
            Some(record) => log.records_below(slots).push(record),
            None => log.records_below(slots),
        },
{
}

/// The header of a pool describes it: the table lies behind the header, the memory of the objects
/// behind the table and up to the end of the pool, all of them aligned.
pub proof fn law_header_describes_the_pool(size: usize)
    requires
        size >= 16448,
    ensures
        ({
            let header = PoolHeader::fresh(size);
            &&& header.magic == 0x4433_4F53_504F_4F4C
            &&& header.size == size
            &&& header.max_objects == 256
            &&& header.object_table_offset >= 48 && header.object_table_offset % 64 == 0
            &&& header.heap_start >= header.object_table_offset + 256 * 64
            &&& header.heap_start < header.object_table_offset + 256 * 64 + 64
            &&& header.heap_start % 64 == 0
            &&& header.heap_start + header.heap_size == size
        }),
{
}

/// The slots in use are listed once each, in slot order, with the addresses of their objects.
pub proof fn law_slots_in_use_are_listed(table: Seq<EntryView>, slot: int)
    requires
        0 <= slot < table.len() <= usize::MAX,
    ensures
        ({
            let listed = crate::pool::active_in(table);
            let before = crate::search::count_true(Seq::new(slot as nat, |i: int| table[i].active));
            &&& listed.len() == crate::search::count_true(
                Seq::new(table.len(), |i: int| table[i].active),
            )
            &&& table[slot].active ==> before < listed.len() && listed[before as int] == (
                slot as usize,
                table[slot].data,
            )
        }),
    decreases table.len(),
{
    let rest = table.drop_last();
    let all = Seq::new(table.len(), |i: int| table[i].active);
    let fewer = Seq::new(rest.len(), |i: int| rest[i].active);
    assert(all.drop_last() =~= fewer);
    if rest.len() > 0 {
        if slot < rest.len() {
            law_slots_in_use_are_listed(rest, slot);
            assert(Seq::new(slot as nat, |i: int| table[i].active) =~= Seq::new(
                slot as nat,
                |i: int| rest[i].active,
            ));
        } else {
            law_slots_in_use_are_listed(rest, 0);
        }
    } else {
        assert(crate::pool::active_in(rest) =~= Seq::empty());
        assert(crate::search::count_true(fewer) == 0);
    }
    if slot == table.len() - 1 {
        assert(Seq::new(slot as nat, |i: int| table[i].active) =~= fewer);
    }
}

/// A log that was emptied has no slot in use, nothing that was given up, and no byte but zeros.
pub proof fn law_emptied_log_holds_nothing(before: Option<Pool>, after: Option<Pool>)
    requires
        crate::transaction::log_after(before, after, true),
    ensures
        before matches Some(then) && after matches Some(now) && {
            &&& now.base_address == then.base_address
            &&& now@.table.len() == then@.table.len()
            &&& now@.memory.len() == then@.memory.len()
            &&& crate::directory::is_void(now)
        },
{
}

/// Where memory is in order, every object can be read, updated, changed and given up as one of a
/// type that is not larger.
pub proof fn law_objects_in_order_can_be_used(
    context: TransactionContext,
    id: Seq<u8>,
    ty: TypeInfo,
    slot: int,
)
    requires
        context.wf(),
        context.tidy(),
        first_holds(context, slot, id),
        ty.size <= context.pool@.table[slot].type_size,
    ensures
        context.can_store(id, ty),
        context.pool@.table[slot].data matches Some(address) && context.can_modify(address, ty),
        first_seen(context, slot, id) ==> context.can_read(id, ty),
        context.pool@.table[slot].type_size <= isize::MAX ==> context.can_drop(id),
{
    lemma_stored_under(context, id);
    crate::history::lemma_object_at(context, slot);
    if first_seen(context, slot, id) {
        assert forall|j: int| 0 <= j < slot implies !Probe::Live(id).hits(
            #[trigger] context.pool@.table[j],
        ) by {}
        crate::table::lemma_find_is(Probe::Live(id), context.pool@.table, slot);
    }
}

/// Where there is no object under the identifier, one can be stored, looked for and given up in
/// vain.
pub proof fn law_missing_objects_can_be_asked_for(
    context: TransactionContext,
    id: Seq<u8>,
    ty: TypeInfo,
)
    requires
        forall|i: int| !#[trigger] holds_object(context, i, id),
    ensures
        context.can_store(id, ty),
        context.can_read(id, ty),
        context.can_drop(id),
{
    lemma_stored_under(context, id);
    if let Some(slot) = context.stored_under(id) {
        assert(holds_object(context, slot, id));
    }
    crate::table::lemma_find(Probe::Live(id), context.pool@.table);
    if let Some(slot) = Probe::Live(id).find(context.pool@.table) {
        assert(holds_object(context, slot, id));
    }
}

/// What a pool holds is the image of a pool, so that it can be opened again.
pub proof fn law_pool_can_be_opened_again(pool: Pool, image: PoolImage)
    requires
        pool.wf(),
        image.header == pool.header,
        image.object_table@ == pool.object_table@,
        image.memory@ == pool.memory@,
    ensures
        image.wf(pool.header.size),
{
}

/// A change is given the bytes of the object, all of them, and what it makes of them is what the
/// object has then.
pub proof fn law_change_is_made_of_the_bytes<F: FnOnce(Vec<u8>) -> Vec<u8>>(
    before: TransactionContext,
    after: TransactionContext,
    address: u64,
    ty: TypeInfo,
    change: F,
    result: Result<(), PoolError>,
)
    requires
        before.wf(),
        after.modified_by(before, address, ty, change, result),
        before.pool@.holds(address as int, ty.size as int),
        is_at(before, address),
        has_log(before, ty.size as int),
        forall|original: Vec<u8>, changed: Vec<u8>| #[trigger]
            call_ensures(change, (original,), changed) && original@.len() == ty.size
                ==> changed@.len() == ty.size,
    ensures
        result is Ok,
        exists|original: Vec<u8>, changed: Vec<u8>| #[trigger]
            call_ensures(change, (original,), changed) && original@ == before.pool@.bytes(
                address as int,
                ty.size as int,
            ) && changed@ == after.pool@.bytes(address as int, ty.size as int),
        same_memory_outside(before, after, address as int, ty.size as int),
        same_objects_in_slots(before, after),
        same_visibility(before, after),
{
    if result is Err {
        lemma_is_at(before, address);
        let op = before.operation(
            OperationType::Modification,
            address,
            ty.size,
            ty.hash(),
        );
        let original = before.pool@.bytes(address as int, ty.size as int);
        lemma_logged(before, after.log_pool, op, original, result);
    } else {
        let (original, changed) = choose|original: Vec<u8>, changed: Vec<u8>|
            {
                &&& #[trigger] call_ensures(change, (original,), changed)
                &&& original@ == before.pool@.bytes(address as int, ty.size as int)
                &&& after.modified(before, address, ty, changed@, result)
            };
        law_object_is_changed(before, after, address, ty, changed@, result);
    }
}

} // verus!
