//! What the log takes back: from every state that a transaction passes through, rollback and
//! recovery lead to the objects that the transaction started with.

use crate::image::{LogRecord, PoolView};
use crate::oplog::OperationType;
use crate::table::{EntryView, Probe};
use vstd::prelude::*;

verus! {

/// Some record says that the object at the address was allocated.
pub open spec fn allocates(records: Seq<LogRecord>, address: u64) -> bool {
    exists|k: int| #![trigger records[k]]
        0 <= k < records.len() && records[k].op.op_type is Allocation
            && records[k].op.absolute_address == address
}

/// Number of records that say that an object was deallocated.
pub open spec fn deallocations(records: Seq<LogRecord>) -> nat
    decreases records.len(),
{
    if records.len() == 0 {
        0
    } else {
        deallocations(records.drop_last()) + if records.last().op.op_type is Deallocation {
            1nat
        } else {
            0nat
        }
    }
}

/// Number of slots given up by a deallocation.
pub open spec fn dropped_slots(table: Seq<EntryView>) -> nat
    decreases table.len(),
{
    if table.len() == 0 {
        0
    } else {
        dropped_slots(table.drop_last()) + if table.last().dropped() {
            1nat
        } else {
            0nat
        }
    }
}

/// The byte at the address `x` after the records were undone, where `b` stands there now.
pub open spec fn restored(b: u8, records: Seq<LogRecord>, x: int) -> u8
    decreases records.len(),
{
    if records.len() == 0 {
        b
    } else {
        let record = records.last();
        let older = if record.covers(x) {
            record.original[x - record.op.absolute_address]
        } else {
            b
        };
        restored(older, records.drop_last(), x)
    }
}

impl EntryView {
    /// Neither an object nor the remains of one: recovery leaves no object here.
    pub open spec fn quiet(self) -> bool {
        if self.active {
            !self.valid && !self.done
        } else {
            !self.done
        }
    }

    /// The same object.
    pub open spec fn same_object(self, other: EntryView) -> bool {
        &&& self.id == other.id
        &&& self.type_hash == other.type_hash
        &&& self.type_size == other.type_size
        &&& self.data == other.data
    }

    /// The byte at the address `x` belongs to the object.
    pub open spec fn spans(self, x: int) -> bool {
        self.data is Some && self.data->Some_0 <= x < self.data->Some_0 + self.type_size
    }
}

impl PoolView {
    /// Two pools at the same place, of the same size.
    pub open spec fn same_place(self, other: PoolView) -> bool {
        &&& self.base == other.base
        &&& self.start == other.start
        &&& self.table.len() == other.table.len()
        &&& self.memory.len() == other.memory.len()
    }

    /// No slot is in the middle of an operation, as recovery leaves them.
    pub open spec fn settled(self) -> bool {
        forall|i: int| #![trigger self.table[i]]
            0 <= i < self.table.len() ==> self.table[i].live() || self.table[i].quiet()
                && !self.table[i].active
    }

    /// Every object that readers see lies in the memory of the pool.
    pub open spec fn objects_held(self) -> bool {
        forall|i: int| #![trigger self.table[i]]
            0 <= i < self.table.len() && self.table[i].live() ==> {
                &&& self.table[i].data is Some
                &&& self.holds(
                    self.table[i].data->Some_0 as int,
                    self.table[i].type_size as int,
                )
            }
    }

    /// No two slots refer to the same address.
    pub open spec fn distinct(self) -> bool {
        forall|i: int, j: int| #![trigger self.table[i], self.table[j]]
            0 <= i < self.table.len() && 0 <= j < self.table.len() && self.table[i].data is Some
                && self.table[i].data == self.table[j].data ==> i == j
    }

    /// The slot refers to an object that the records say was allocated.
    pub open spec fn fresh(self, records: Seq<LogRecord>, slot: int) -> bool {
        self.table[slot].data is Some && allocates(records, self.table[slot].data->Some_0)
    }

    /// Both pools show the same objects in the same slots, with the same bytes.
    pub open spec fn same_objects(self, other: PoolView) -> bool {
        &&& self.same_place(other)
        &&& forall|i: int| #![trigger self.table[i]] #![trigger other.table[i]]
            0 <= i < self.table.len() ==> {
                &&& self.table[i].live() == other.table[i].live()
                &&& self.table[i].live() ==> self.table[i].same_object(other.table[i])
            }
        &&& forall|i: int, x: int| #![trigger other.table[i].spans(x)]
            0 <= i < self.table.len() && other.table[i].live() && other.table[i].spans(x)
                ==> self.byte(x) == other.byte(x)
    }
}

/// The state of one slot that started as `start` and is `now`, where `fresh` says whether the
/// log has its allocation:
/// - a slot whose allocation is in the log held no object at the start;
/// - an object of the start is still there, or dropped;
/// - any other slot holds no object, and nothing that undoing would turn into one.
pub open spec fn slot_undoable(start: EntryView, now: EntryView, fresh: bool) -> bool {
    if fresh {
        !start.live()
    } else if start.live() {
        now.same_object(start) && (now.live() || now.dropped())
    } else {
        now.quiet()
    }
}

/// Undoing `records` leads from the pool `now` back to the objects of `start`.
pub open spec fn undoable(start: PoolView, now: PoolView, records: Seq<LogRecord>) -> bool {
    &&& now.same_place(start)
    &&& start.objects_held()
    &&& now.distinct()
    &&& forall|k: int| #![trigger records[k]]
        0 <= k < records.len() ==> records[k].op.pool_base_address == now.base && now.takes(
            records[k],
        )
    &&& forall|i: int| #![trigger now.table[i]] #![trigger start.table[i]]
        0 <= i < now.table.len() ==> slot_undoable(
            start.table[i],
            now.table[i],
            now.fresh(records, i),
        )
    &&& dropped_slots(now.table) <= deallocations(records)
    &&& modifications_known(start, now, records)
    &&& allocations_first(records)
    &&& forall|i: int, x: int| #![trigger start.table[i].spans(x)]
        0 <= i < start.table.len() && start.table[i].live() && start.table[i].spans(x)
            ==> restored(now.byte(x), records, x) == start.byte(x)
}

/// A slot at the address of a modification is an object of the start, or its allocation is in
/// the log.
pub open spec fn modifications_known(
    start: PoolView,
    now: PoolView,
    records: Seq<LogRecord>,
) -> bool {
    forall|k: int, i: int| #![trigger records[k], now.table[i]]
        0 <= k < records.len() && 0 <= i < now.table.len() && records[k].op.op_type is Modification
            && now.table[i].data == Some(records[k].op.absolute_address) ==> start.table[i].live()
            || now.fresh(records, i)
}

/// No modification of an address comes before an allocation at it.
pub open spec fn allocations_first(records: Seq<LogRecord>) -> bool {
    forall|k: int, m: int| #![trigger records[k], records[m]]
        0 <= m < k < records.len() && records[k].op.op_type is Allocation
            && records[m].op.op_type is Modification ==> records[k].op.absolute_address
            != records[m].op.absolute_address
}

proof fn lemma_dropped_update(table: Seq<EntryView>, i: int, entry: EntryView)
    requires
        0 <= i < table.len(),
    ensures
        dropped_slots(table.update(i, entry)) + (if table[i].dropped() { 1nat } else { 0nat })
            == dropped_slots(table) + (if entry.dropped() { 1nat } else { 0nat }),
    decreases table.len(),
{
    let new = table.update(i, entry);
    if i == table.len() - 1 {
        assert(new.drop_last() =~= table.drop_last());
    } else {
        assert(new.drop_last() =~= table.drop_last().update(i, entry));
        lemma_dropped_update(table.drop_last(), i, entry);
    }
}

/// A table with a dropped slot counts it.
proof fn lemma_dropped_counted(table: Seq<EntryView>, i: int)
    requires
        0 <= i < table.len(),
        table[i].dropped(),
    ensures
        dropped_slots(table) > 0,
    decreases table.len(),
{
    if i < table.len() - 1 {
        lemma_dropped_counted(table.drop_last(), i);
    }
}

/// Flagging what a probe finds never adds a dropped slot where the new flags are not those of
/// one.
proof fn lemma_flag_found(pool: PoolView, probe: Probe, valid: bool)
    ensures
        ({
            let new = pool.flag_found(probe, true, valid, valid);
            &&& new.same_place(pool)
            &&& new.memory == pool.memory
            &&& dropped_slots(new.table) <= dropped_slots(pool.table)
            &&& probe is Dropped && dropped_slots(pool.table) > 0 ==> dropped_slots(new.table) + 1
                == dropped_slots(pool.table)
            &&& forall|i: int| #![trigger new.table[i]]
                0 <= i < new.table.len() ==> new.table[i].same_object(pool.table[i])
            &&& forall|i: int| #![trigger new.table[i]]
                0 <= i < new.table.len() && new.table[i] != pool.table[i] ==> probe.hits(
                    pool.table[i],
                ) && new.table[i] == pool.table[i].flagged(true, valid, valid)
            &&& probe.find(pool.table) matches Some(i) ==> 0 <= i < new.table.len()
                && new.table[i] == pool.table[i].flagged(true, valid, valid)
        }),
{
    crate::table::lemma_find(probe, pool.table);
    match probe.find(pool.table) {
        Some(i) => {
            lemma_dropped_update(pool.table, i, pool.table[i].flagged(true, valid, valid));
        },
        None => {
            if probe is Dropped && dropped_slots(pool.table) > 0 {
                lemma_dropped_exists(pool.table);
            }
        },
    }
}

proof fn lemma_dropped_exists(table: Seq<EntryView>)
    requires
        dropped_slots(table) > 0,
    ensures
        exists|i: int| 0 <= i < table.len() && Probe::Dropped.hits(#[trigger] table[i]),
    decreases table.len(),
{
    if table.last().dropped() {
        assert(Probe::Dropped.hits(table[table.len() - 1]));
    } else {
        lemma_dropped_exists(table.drop_last());
        let i = choose|i: int| 0 <= i < table.drop_last().len() && Probe::Dropped.hits(
            #[trigger] table.drop_last()[i],
        );
        assert(Probe::Dropped.hits(table[i]));
    }
}

/// What `records` allocate is what all but the last allocate, and what the last does.
proof fn lemma_allocates_last(records: Seq<LogRecord>, address: u64)
    requires
        records.len() > 0,
    ensures
        allocates(records, address) == (allocates(records.drop_last(), address) || (
        records.last().op.op_type is Allocation && records.last().op.absolute_address == address)),
{
    let rest = records.drop_last();
    if allocates(records, address) {
        let k = choose|k: int| #![trigger records[k]]
            0 <= k < records.len() && records[k].op.op_type is Allocation
                && records[k].op.absolute_address == address;
        if k < rest.len() {
            assert(rest[k] == records[k]);
        }
    }
    if allocates(rest, address) {
        let k = choose|k: int| #![trigger rest[k]]
            0 <= k < rest.len() && rest[k].op.op_type is Allocation
                && rest[k].op.absolute_address == address;
        assert(records[k] == rest[k]);
    }
    if records.last().op.op_type is Allocation && records.last().op.absolute_address == address {
        assert(records[records.len() - 1].op.op_type is Allocation);
    }
}

/// One record undone: entries keep their objects, and only the slot that the record speaks of
/// gets other flags.
proof fn lemma_undone(pool: PoolView, record: LogRecord)
    ensures
        pool.undone(record).same_place(pool),
        dropped_slots(pool.undone(record).table) <= dropped_slots(pool.table),
        record.op.op_type is Deallocation && dropped_slots(pool.table) > 0 ==> dropped_slots(
            pool.undone(record).table,
        ) + 1 == dropped_slots(pool.table),
        forall|i: int| #![trigger pool.undone(record).table[i]] #![trigger pool.table[i]]
            0 <= i < pool.table.len() ==> {
                let new = pool.undone(record).table[i];
                let old = pool.table[i];
                &&& new.same_object(old)
                &&& new != old ==> match record.op.op_type {
                    OperationType::Allocation => {
                        &&& old.data == Some(record.op.absolute_address)
                        &&& new == old.flagged(true, false, false)
                    },
                    OperationType::Modification => {
                        &&& old.data == Some(record.op.absolute_address)
                        &&& new == old.flagged(true, true, true)
                    },
                    OperationType::Deallocation => {
                        &&& old.dropped()
                        &&& new == old.flagged(true, true, true)
                    },
                }
                &&& pool.distinct() && record.op.op_type is Allocation && old.data == Some(
                    record.op.absolute_address,
                ) ==> new == old.flagged(true, false, false)
            },
        forall|x: int| #![trigger pool.undone(record).byte(x)]
            pool.holds(x, 1) ==> pool.undone(record).byte(x) == if record.covers(x) {
                record.original[x - record.op.absolute_address]
            } else {
                pool.byte(x)
            },
{
    let address = record.op.absolute_address;
    match record.op.op_type {
        OperationType::Allocation => {
            let probe = Probe::At(address);
            lemma_flag_found(pool, probe, false);
            crate::table::lemma_find(probe, pool.table);
        },
        OperationType::Modification => {
            lemma_flag_found(pool.written(address as int, record.original), Probe::At(address), true);
        },
        OperationType::Deallocation => {
            lemma_flag_found(pool, Probe::Dropped, true);
        },
    }
}

/// Undoing the last record leaves a pool from which the other records lead back.
proof fn lemma_undo_last(start: PoolView, now: PoolView, records: Seq<LogRecord>)
    requires
        undoable(start, now, records),
        records.len() > 0,
    ensures
        undoable(start, now.undone(records.last()), records.drop_last()),
{
    let last = records.last();
    let rest = records.drop_last();
    let new = now.undone(last);
    lemma_undone(now, last);
    assert(records[records.len() - 1] == last);
    assert forall|k: int| #![trigger rest[k]] 0 <= k < rest.len() implies
        rest[k].op.pool_base_address == new.base && new.takes(rest[k]) by {
        assert(rest[k] == records[k]);
    }
    assert forall|i: int| #![trigger new.table[i]] 0 <= i < new.table.len() implies slot_undoable(
        start.table[i],
        new.table[i],
        new.fresh(rest, i),
    ) by {
        let old = now.table[i];
        assert(slot_undoable(start.table[i], old, now.fresh(records, i)));
        if old.data is Some {
            lemma_allocates_last(records, old.data->Some_0);
        }
    }
    assert(modifications_known(start, new, rest)) by {
        assert forall|k: int, i: int| #![trigger rest[k], new.table[i]]
            0 <= k < rest.len() && 0 <= i < new.table.len() && rest[k].op.op_type is Modification
                && new.table[i].data == Some(rest[k].op.absolute_address) implies
            start.table[i].live() || new.fresh(rest, i) by {
            assert(rest[k] == records[k]);
            assert(now.table[i].data == new.table[i].data);
            lemma_allocates_last(records, rest[k].op.absolute_address);
        }
    }
    assert(allocations_first(rest)) by {
        assert forall|k: int, m: int| #![trigger rest[k], rest[m]]
            0 <= m < k < rest.len() && rest[k].op.op_type is Allocation
                && rest[m].op.op_type is Modification implies rest[k].op.absolute_address
            != rest[m].op.absolute_address by {
            assert(rest[k] == records[k] && rest[m] == records[m]);
        }
    }
    assert forall|i: int, x: int| #![trigger start.table[i].spans(x)]
        0 <= i < start.table.len() && start.table[i].live() && start.table[i].spans(x) implies
        restored(new.byte(x), rest, x) == start.byte(x) by {
        assert(now.holds(x, 1));
    }
}

/// From a pool that a transaction left, rollback leads to one in which nothing is left to undo.
proof fn lemma_rolled_back(start: PoolView, now: PoolView, records: Seq<LogRecord>)
    requires
        undoable(start, now, records),
    ensures
        undoable(start, now.rolled_back(records), Seq::empty()),
    decreases records.len(),
{
    if records.len() == 0 {
        assert(records =~= Seq::empty());
    } else {
        assert(records[records.len() - 1] == records.last());
        lemma_undo_last(start, now, records);
        lemma_rolled_back(start, now.undone(records.last()), records.drop_last());
    }
}

/// A pool in which nothing is left to undo shows, once recovered, the objects of the start.
proof fn lemma_nothing_left(start: PoolView, now: PoolView)
    requires
        undoable(start, now, Seq::empty()),
    ensures
        now.recovered().same_objects(start),
        now.recovered().settled(),
{
    let new = now.recovered();
    assert forall|i: int| #![trigger new.table[i]] #![trigger start.table[i]]
        0 <= i < new.table.len() implies {
        &&& new.table[i].live() == start.table[i].live()
        &&& new.table[i].live() ==> new.table[i].same_object(start.table[i])
    } by {
        assert(new.table[i] == now.table[i].recovered());
        assert(slot_undoable(start.table[i], now.table[i], now.fresh(Seq::empty(), i)));
        if now.table[i].dropped() {
            lemma_dropped_counted(now.table, i);
        }
    }
}

/// All or nothing, nothing: from every state that a transaction passes through, rolling the log
/// back and recovering the pool gives the objects that the transaction started with, each with
/// its identifier, type and bytes, and no others.
pub proof fn law_rollback_restores(start: PoolView, now: PoolView, records: Seq<LogRecord>)
    requires
        undoable(start, now, records),
    ensures
        now.rolled_back(records).recovered().same_objects(start),
{
    lemma_rolled_back(start, now, records);
    lemma_nothing_left(start, now.rolled_back(records));
}

/// The bytes that a record covers do not count when the records are undone.
pub proof fn lemma_restored_covered(b: u8, c: u8, records: Seq<LogRecord>, k: int, x: int)
    requires
        0 <= k < records.len(),
        records[k].covers(x),
    ensures
        restored(b, records, x) == restored(c, records, x),
    decreases records.len(),
{
    if k < records.len() - 1 {
        let last = records.last();
        let rest = records.drop_last();
        assert(rest[k] == records[k]);
        if !last.covers(x) {
            lemma_restored_covered(b, c, rest, k, x);
        }
    }
}

/// A rollback that a crash cut short can be run again from the start: undoing any record ahead
/// of time changes nothing in what the records lead back to.
pub proof fn law_rollback_resumes(
    start: PoolView,
    now: PoolView,
    records: Seq<LogRecord>,
    k: int,
)
    requires
        undoable(start, now, records),
        0 <= k < records.len(),
    ensures
        undoable(start, now.undone(records[k]), records),
{
    let record = records[k];
    let new = now.undone(record);
    lemma_undone(now, record);
    assert forall|j: int| #![trigger records[j]] 0 <= j < records.len() implies
        records[j].op.pool_base_address == new.base && new.takes(records[j]) by {}
    assert forall|i: int| #![trigger new.table[i]] 0 <= i < new.table.len() implies slot_undoable(
        start.table[i],
        new.table[i],
        new.fresh(records, i),
    ) by {
        assert(slot_undoable(start.table[i], now.table[i], now.fresh(records, i)));
    }
    assert(modifications_known(start, new, records)) by {
        assert forall|m: int, i: int| #![trigger records[m], new.table[i]]
            0 <= m < records.len() && 0 <= i < new.table.len()
                && records[m].op.op_type is Modification && new.table[i].data == Some(
                records[m].op.absolute_address,
            ) implies start.table[i].live() || new.fresh(records, i) by {
            assert(now.table[i].data == new.table[i].data);
        }
    }
    assert forall|i: int, x: int| #![trigger start.table[i].spans(x)]
        0 <= i < start.table.len() && start.table[i].live() && start.table[i].spans(x) implies
        restored(new.byte(x), records, x) == start.byte(x) by {
        assert(now.holds(x, 1));
        if record.covers(x) {
            lemma_restored_covered(now.byte(x), new.byte(x), records, k, x);
        }
    }
}

/// What may be logged next, so that the log still leads back to the start:
/// - an allocation at an address that no slot refers to and that was not modified before;
/// - a modification with the bytes that stand there now, of an object of the start or of one
///   whose allocation is in the log;
/// - a deallocation.
pub open spec fn loggable(
    start: PoolView,
    now: PoolView,
    records: Seq<LogRecord>,
    record: LogRecord,
) -> bool {
    let address = record.op.absolute_address;
    &&& record.op.pool_base_address == now.base
    &&& match record.op.op_type {
        OperationType::Allocation => {
            &&& forall|i: int| 0 <= i < now.table.len() ==> (#[trigger] now.table[i]).data != Some(
                address,
            )
            &&& unmodified(records, address)
        },
        OperationType::Modification => {
            &&& now.holds(address as int, record.original.len() as int)
            &&& record.original == now.bytes(address as int, record.original.len() as int)
            &&& forall|i: int| #![trigger now.table[i]]
                0 <= i < now.table.len() && now.table[i].data == Some(address)
                    ==> start.table[i].live() || now.fresh(records, i)
        },
        OperationType::Deallocation => true,
    }
}

/// No record modifies the object at the address.
pub open spec fn unmodified(records: Seq<LogRecord>, address: u64) -> bool {
    forall|k: int| #![trigger records[k]]
        0 <= k < records.len() && records[k].op.op_type is Modification
            ==> records[k].op.absolute_address != address
}

/// A crash right after an operation was logged is taken back.
pub proof fn law_crash_after_logging(
    start: PoolView,
    now: PoolView,
    records: Seq<LogRecord>,
    record: LogRecord,
)
    requires
        undoable(start, now, records),
        loggable(start, now, records, record),
    ensures
        undoable(start, now, records.push(record)),
{
    let all = records.push(record);
    assert(all.drop_last() =~= records);
    assert forall|a: u64| #[trigger] allocates(all, a) == (allocates(records, a) || (
    record.op.op_type is Allocation && record.op.absolute_address == a)) by {
        lemma_allocates_last(all, a);
    }
    assert forall|i: int| #![trigger now.table[i]] 0 <= i < now.table.len() implies slot_undoable(
        start.table[i],
        now.table[i],
        now.fresh(all, i),
    ) by {
        assert(slot_undoable(start.table[i], now.table[i], now.fresh(records, i)));
    }
    assert(modifications_known(start, now, all)) by {
        assert forall|k: int, i: int| #![trigger all[k], now.table[i]]
            0 <= k < all.len() && 0 <= i < now.table.len() && all[k].op.op_type is Modification
                && now.table[i].data == Some(all[k].op.absolute_address) implies
            start.table[i].live() || now.fresh(all, i) by {
            if k < records.len() {
                assert(all[k] == records[k]);
            }
        }
    }
    assert(allocations_first(all)) by {
        assert forall|k: int, m: int| #![trigger all[k], all[m]]
            0 <= m < k < all.len() && all[k].op.op_type is Allocation
                && all[m].op.op_type is Modification implies all[k].op.absolute_address
            != all[m].op.absolute_address by {
            assert(all[m] == records[m]);
            if k < records.len() {
                assert(all[k] == records[k]);
            }
        }
    }
    assert forall|i: int, x: int| #![trigger start.table[i].spans(x)]
        0 <= i < start.table.len() && start.table[i].live() && start.table[i].spans(x) implies
        restored(now.byte(x), all, x) == start.byte(x) by {
        if record.covers(x) {
            let at = record.op.absolute_address as int;
            assert(record.original[x - at] == now.bytes(at, record.original.len() as int)[x - at]);
        }
    }
}

/// Replacing a slot by another that the log leads back from keeps the rest.
proof fn lemma_slot_replaced(
    start: PoolView,
    now: PoolView,
    records: Seq<LogRecord>,
    slot: int,
    entry: EntryView,
)
    requires
        undoable(start, now, records),
        0 <= slot < now.table.len(),
        entry.data is None || entry.data == now.table[slot].data || {
            &&& forall|i: int| 0 <= i < now.table.len() ==> (#[trigger] now.table[i]).data
                != entry.data
            &&& unmodified(records, entry.data->Some_0)
        },
        slot_undoable(
            start.table[slot],
            entry,
            entry.data is Some && allocates(records, entry.data->Some_0),
        ),
        entry.dropped() && !now.table[slot].dropped() ==> dropped_slots(now.table) < deallocations(
            records,
        ),
    ensures
        undoable(start, now.with(slot, entry), records),
{
    let new = now.with(slot, entry);
    lemma_dropped_update(now.table, slot, entry);
    assert forall|i: int| #![trigger new.table[i]] 0 <= i < new.table.len() implies slot_undoable(
        start.table[i],
        new.table[i],
        new.fresh(records, i),
    ) by {
        assert(slot_undoable(start.table[i], now.table[i], now.fresh(records, i)));
    }
    assert forall|k: int| #![trigger records[k]] 0 <= k < records.len() implies
        records[k].op.pool_base_address == new.base && new.takes(records[k]) by {}
    assert(new.distinct());
    assert(modifications_known(start, new, records)) by {
        assert forall|k: int, i: int| #![trigger records[k], new.table[i]]
            0 <= k < records.len() && 0 <= i < new.table.len()
                && records[k].op.op_type is Modification && new.table[i].data == Some(
                records[k].op.absolute_address,
            ) implies start.table[i].live() || new.fresh(records, i) by {
            assert(now.table[i].data == new.table[i].data);
        }
    }
    assert forall|i: int, x: int| #![trigger start.table[i].spans(x)]
        0 <= i < start.table.len() && start.table[i].live() && start.table[i].spans(x) implies
        restored(new.byte(x), records, x) == start.byte(x) by {
        assert(new.byte(x) == now.byte(x));
    }
}

/// A crash right after a free slot was claimed for an object is taken back, provided the slot
/// held no object at the start.
pub proof fn law_crash_after_claim(
    start: PoolView,
    now: PoolView,
    records: Seq<LogRecord>,
    slot: int,
    entry: EntryView,
)
    requires
        undoable(start, now, records),
        0 <= slot < now.table.len(),
        !now.table[slot].active,
        !start.table[slot].live(),
        entry.data == now.table[slot].data,
        entry.active && !entry.valid && !entry.done,
    ensures
        undoable(start, now.with(slot, entry), records),
{
    assert(slot_undoable(start.table[slot], now.table[slot], now.fresh(records, slot)));
    lemma_slot_replaced(start, now, records, slot, entry);
}

/// A crash right after a slot was made to refer to an object whose allocation is in the log is
/// taken back.
pub proof fn law_crash_after_placing(
    start: PoolView,
    now: PoolView,
    records: Seq<LogRecord>,
    slot: int,
    address: u64,
)
    requires
        undoable(start, now, records),
        0 <= slot < now.table.len(),
        !start.table[slot].live(),
        !now.table[slot].dropped(),
        allocates(records, address),
        unmodified(records, address),
        forall|i: int| 0 <= i < now.table.len() ==> (#[trigger] now.table[i]).data != Some(address),
    ensures
        undoable(
            start,
            now.with(slot, (EntryView { data: Some(address), ..now.table[slot] })),
            records,
        ),
{
    assert(slot_undoable(start.table[slot], now.table[slot], now.fresh(records, slot)));
    lemma_slot_replaced(
        start,
        now,
        records,
        slot,
        EntryView { data: Some(address), ..now.table[slot] },
    );
}

/// A crash in the middle of a write, whatever part of it reached the memory, is taken back,
/// where each byte is covered by a modification in the log or belongs to no object of the start.
pub proof fn law_crash_while_writing(
    start: PoolView,
    now: PoolView,
    records: Seq<LogRecord>,
    memory: Seq<u8>,
)
    requires
        undoable(start, now, records),
        memory.len() == now.memory.len(),
        forall|i: int, x: int| #![trigger start.table[i].spans(x)]
            0 <= i < start.table.len() && start.table[i].live() && start.table[i].spans(x)
                && memory[x - now.start] != now.byte(x) ==> exists|k: int|
                0 <= k < records.len() && (#[trigger] records[k]).covers(x),
    ensures
        undoable(start, (PoolView { memory, ..now }), records),
{
    let new = PoolView { memory, ..now };
    assert forall|k: int| #![trigger records[k]] 0 <= k < records.len() implies
        records[k].op.pool_base_address == new.base && new.takes(records[k]) by {}
    assert forall|i: int| #![trigger new.table[i]] 0 <= i < new.table.len() implies slot_undoable(
        start.table[i],
        new.table[i],
        new.fresh(records, i),
    ) by {
        assert(slot_undoable(start.table[i], now.table[i], now.fresh(records, i)));
    }
    assert(modifications_known(start, new, records)) by {
        assert forall|k: int, i: int| #![trigger records[k], new.table[i]]
            0 <= k < records.len() && 0 <= i < new.table.len()
                && records[k].op.op_type is Modification && new.table[i].data == Some(
                records[k].op.absolute_address,
            ) implies start.table[i].live() || new.fresh(records, i) by {
            assert(now.table[i].data == new.table[i].data);
        }
    }
    assert forall|i: int, x: int| #![trigger start.table[i].spans(x)]
        0 <= i < start.table.len() && start.table[i].live() && start.table[i].spans(x) implies
        restored(new.byte(x), records, x) == start.byte(x) by {
        assert(new.byte(x) == memory[x - now.start]);
        if memory[x - now.start] != now.byte(x) {
            let k = choose|k: int| 0 <= k < records.len() && (#[trigger] records[k]).covers(x);
            lemma_restored_covered(now.byte(x), new.byte(x), records, k, x);
        }
    }
}

/// A crash right after the flags of a slot were set is taken back: of an object whose
/// allocation is in the log any flags will do; an object of the start stays live, or is dropped
/// after its deallocation was logged.
pub proof fn law_crash_after_flags(
    start: PoolView,
    now: PoolView,
    records: Seq<LogRecord>,
    slot: int,
    active: bool,
    valid: bool,
    done: bool,
)
    requires
        undoable(start, now, records),
        0 <= slot < now.table.len(),
        start.table[slot].live() || now.fresh(records, slot),
        now.fresh(records, slot) || (active && valid) || (!active && !valid && done),
        !active && !valid && done && !now.table[slot].dropped() ==> dropped_slots(now.table)
            < deallocations(records),
    ensures
        undoable(start, now.flagged(slot, active, valid, done), records),
{
    assert(slot_undoable(start.table[slot], now.table[slot], now.fresh(records, slot)));
    lemma_slot_replaced(
        start,
        now,
        records,
        slot,
        now.table[slot].flagged(active, valid, done),
    );
}

/// A pool from which a transaction can be taken back: its objects lie in its memory, no two
/// slots refer to the same address, and no object lies in free memory.
pub open spec fn startable(pool: PoolView, free: Set<int>) -> bool {
    &&& pool.objects_held()
    &&& pool.distinct()
    &&& apart(pool, pool, Seq::empty(), free)
}

/// A pool that recovery left, with an empty log, is where a transaction starts.
pub proof fn lemma_start(start: PoolView)
    requires
        start.settled(),
        start.objects_held(),
        start.distinct(),
    ensures
        undoable(start, start, Seq::empty()),
{
    let records = Seq::<LogRecord>::empty();
    lemma_none_dropped(start.table);
    assert forall|i: int| #![trigger start.table[i]] 0 <= i < start.table.len() implies
        slot_undoable(start.table[i], start.table[i], start.fresh(records, i)) by {}
}

proof fn lemma_none_dropped(table: Seq<EntryView>)
    requires
        forall|i: int| 0 <= i < table.len() ==> !(#[trigger] table[i]).dropped(),
    ensures
        dropped_slots(table) == 0,
    decreases table.len(),
{
    if table.len() > 0 {
        assert forall|i: int| 0 <= i < table.drop_last().len() implies !(
        #[trigger] table.drop_last()[i]).dropped() by {
            assert(table.drop_last()[i] == table[i]);
        }
        lemma_none_dropped(table.drop_last());
        assert(!table[table.len() - 1].dropped());
    }
}

/// Recovery is done once: a second one changes nothing and gives nothing back.
pub proof fn law_recovery_is_idempotent(pool: PoolView)
    ensures
        pool.recovered().recovered() == pool.recovered(),
        pool.recovered().released() == Seq::<crate::table::FreedBlock>::empty(),
        pool.recovered().settled(),
{
    let new = pool.recovered();
    assert(new.recovered().table =~= new.table);
    lemma_nothing_released(new.table);
}

proof fn lemma_nothing_released(table: Seq<EntryView>)
    requires
        forall|i: int| 0 <= i < table.len() ==> !(#[trigger] table[i]).discarded(),
    ensures
        crate::image::released_by(table) == Seq::<crate::table::FreedBlock>::empty(),
    decreases table.len(),
{
    if table.len() > 0 {
        assert forall|i: int| 0 <= i < table.drop_last().len() implies !(
        #[trigger] table.drop_last()[i]).discarded() by {
            assert(table.drop_last()[i] == table[i]);
        }
        lemma_nothing_released(table.drop_last());
        assert(!table[table.len() - 1].discarded());
    }
}

/// Recovery keeps every object that readers see, with its bytes, and shows further objects only
/// where an allocation was complete.
pub proof fn law_recovery_keeps_objects(pool: PoolView, slot: int)
    requires
        0 <= slot < pool.table.len(),
    ensures
        pool.recovered().memory == pool.memory,
        pool.table[slot].live() ==> pool.recovered().table[slot] == pool.table[slot],
        !pool.table[slot].live() && pool.recovered().table[slot].live() ==> {
            &&& pool.table[slot].active && pool.table[slot].done
            &&& pool.recovered().table[slot].same_object(pool.table[slot])
        },
{
}

/// Rollback leaves a sound pool sound, so that recovery knows the blocks that it gives back.
pub proof fn law_rollback_keeps_sound(pool: PoolView, records: Seq<LogRecord>)
    requires
        pool.sound(),
    ensures
        pool.rolled_back(records).sound(),
        pool.rolled_back(records).recoverable(),
    decreases records.len(),
{
    if records.len() > 0 {
        let last = records.last();
        if last.op.pool_base_address == pool.base {
            lemma_undone(pool, last);
            let next = pool.undone(last);
            assert forall|i: int| #![trigger next.table[i]] 0 <= i < next.table.len() implies {
                &&& !next.table[i].active && next.table[i].done ==> next.table[i].data is Some
                &&& next.table[i].data is Some ==> next.table[i].type_size <= isize::MAX - 63
            } by {
                assert(next.table[i].same_object(pool.table[i]));
            }
            law_rollback_keeps_sound(next, records.drop_last());
        } else {
            law_rollback_keeps_sound(pool, records.drop_last());
        }
    }
}

/// Rollback leaves a pool alone that the records do not speak of.
pub proof fn law_rollback_of_other_pools(pool: PoolView, records: Seq<LogRecord>)
    requires
        forall|k: int| 0 <= k < records.len() ==> (#[trigger] records[k]).op.pool_base_address
            != pool.base,
    ensures
        pool.rolled_back(records) == pool,
    decreases records.len(),
{
    if records.len() > 0 {
        assert(records[records.len() - 1] == records.last());
        assert forall|k: int| 0 <= k < records.drop_last().len() implies (
        #[trigger] records.drop_last()[k]).op.pool_base_address != pool.base by {
            assert(records.drop_last()[k] == records[k]);
        }
        law_rollback_of_other_pools(pool, records.drop_last());
    }
}

/// No free memory where the start has objects, where a slot refers to, or where the log has a
/// modification.
pub open spec fn apart(
    start: PoolView,
    now: PoolView,
    records: Seq<LogRecord>,
    free: Set<int>,
) -> bool {
    &&& forall|i: int| #![trigger now.table[i]]
        0 <= i < now.table.len() && now.table[i].data is Some ==> !free.contains(
            now.table[i].data->Some_0 as int,
        )
    &&& forall|k: int| #![trigger records[k]]
        0 <= k < records.len() && records[k].op.op_type is Modification ==> !free.contains(
            records[k].op.absolute_address as int,
        )
    &&& forall|i: int, x: int| #![trigger start.table[i].spans(x)]
        0 <= i < start.table.len() && start.table[i].live() && start.table[i].spans(x)
            ==> !free.contains(x)
}

/// The log leads back to the start, and the free memory is out of its way.
pub open spec fn reversible(
    start: PoolView,
    now: PoolView,
    records: Seq<LogRecord>,
    free: Set<int>,
) -> bool {
    undoable(start, now, records) && apart(start, now, records, free)
}

/// A slot that readers see, or that a commit will show, is an object of the start or one whose
/// allocation is in the log.
pub proof fn lemma_live_known(start: PoolView, now: PoolView, records: Seq<LogRecord>, slot: int)
    requires
        undoable(start, now, records),
        0 <= slot < now.table.len(),
        now.table[slot].live(),
    ensures
        start.table[slot].live() || now.fresh(records, slot),
{
    assert(slot_undoable(start.table[slot], now.table[slot], now.fresh(records, slot)));
}

/// An allocation of free memory, logged and written, keeps the transaction reversible; so does
/// one that was only claimed, or claimed and logged.
pub proof fn lemma_allocation(
    start: PoolView,
    now: PoolView,
    records: Seq<LogRecord>,
    free: Set<int>,
    slot: int,
    claim: EntryView,
    record: LogRecord,
    data: Seq<u8>,
    left: Set<int>,
)
    requires
        reversible(start, now, records, free),
        0 <= slot < now.table.len(),
        !now.table[slot].active,
        !start.table[slot].live(),
        claim.data == now.table[slot].data,
        claim.active && !claim.valid && !claim.done,
        record.op.op_type is Allocation,
        record.op.pool_base_address == now.base,
        free.contains(record.op.absolute_address as int),
        !left.contains(record.op.absolute_address as int),
        crate::heap::span(record.op.absolute_address as int, data.len() as int).subset_of(free),
        left.subset_of(free),
    ensures
        ({
            let address = record.op.absolute_address;
            let placed = EntryView { data: Some(address), done: true, ..claim };
            let new = now.with(slot, placed).written(address as int, data);
            &&& reversible(start, now.with(slot, claim), records, left)
            &&& reversible(start, new, records.push(record), left)
            &&& new.fresh(records.push(record), slot)
        }),
{
    let address = record.op.absolute_address;
    let all = records.push(record);
    let claimed = now.with(slot, claim);
    law_crash_after_claim(start, now, records, slot, claim);
    assert forall|i: int| 0 <= i < claimed.table.len() implies (
    #[trigger] claimed.table[i]).data != Some(address) by {
        assert(claimed.table[i].data == now.table[i].data);
    }
    law_crash_after_logging(start, claimed, records, record);
    assert(allocates(all, address)) by {
        assert(all[records.len() as int] == record);
    }
    assert(unmodified(all, address)) by {
        assert forall|k: int| #![trigger all[k]]
            0 <= k < all.len() && all[k].op.op_type is Modification implies
            all[k].op.absolute_address != address by {
            assert(all[k] == records[k]);
        }
    }
    law_crash_after_placing(start, claimed, all, slot, address);
    let placed = claimed.with(slot, EntryView { data: Some(address), ..claimed.table[slot] });
    let memory = placed.written(address as int, data).memory;
    assert forall|i: int, x: int| #![trigger start.table[i].spans(x)]
        0 <= i < start.table.len() && start.table[i].live() && start.table[i].spans(x)
            && memory[x - placed.start] != placed.byte(x) implies exists|k: int|
        0 <= k < all.len() && (#[trigger] all[k]).covers(x) by {
        assert(!free.contains(x));
        assert(!crate::heap::span(address as int, data.len() as int).contains(x));
        assert(placed.holds(x, 1));
    }
    law_crash_while_writing(start, placed, all, memory);
    let written = PoolView { memory, ..placed };
    law_crash_after_flags(start, written, all, slot, true, false, true);
    let end = now.with(
        slot,
        EntryView { data: Some(address), done: true, ..claim },
    ).written(address as int, data);
    assert(written.flagged(slot, true, false, true).table =~= end.table);
    assert(written.flagged(slot, true, false, true).memory =~= end.memory);
    assert(apart(start, claimed, records, left)) by {
        assert forall|i: int| #![trigger claimed.table[i]]
            0 <= i < claimed.table.len() && claimed.table[i].data is Some implies !left.contains(
            claimed.table[i].data->Some_0 as int,
        ) by {
            assert(claimed.table[i].data == now.table[i].data);
        }
    }
    assert(apart(start, end, all, left)) by {
        assert forall|i: int| #![trigger end.table[i]]
            0 <= i < end.table.len() && end.table[i].data is Some implies !left.contains(
            end.table[i].data->Some_0 as int,
        ) by {
            if i != slot {
                assert(end.table[i] == now.table[i]);
            }
        }
        assert forall|k: int| #![trigger all[k]]
            0 <= k < all.len() && all[k].op.op_type is Modification implies !left.contains(
            all[k].op.absolute_address as int,
        ) by {
            assert(all[k] == records[k]);
        }
    }
}

/// A modification, logged and written, keeps the transaction reversible; so does one that was
/// only marked.
pub proof fn lemma_modification(
    start: PoolView,
    now: PoolView,
    records: Seq<LogRecord>,
    free: Set<int>,
    slot: int,
    record: LogRecord,
    data: Seq<u8>,
)
    requires
        reversible(start, now, records, free),
        0 <= slot < now.table.len(),
        now.table[slot].active,
        start.table[slot].live() || now.fresh(records, slot),
        record.op.op_type is Modification,
        record.op.pool_base_address == now.base,
        now.table[slot].data == Some(record.op.absolute_address),
        now.holds(record.op.absolute_address as int, data.len() as int),
        record.original == now.bytes(record.op.absolute_address as int, data.len() as int),
    ensures
        ({
            let address = record.op.absolute_address as int;
            let entry = now.table[slot];
            let new = now.written(address, data).flagged(slot, entry.active, entry.valid, true);
            &&& reversible(
                start,
                now.flagged(slot, entry.active, entry.valid, false),
                records,
                free,
            )
            &&& reversible(start, new, records.push(record), free)
        }),
{
    let address = record.op.absolute_address as int;
    let entry = now.table[slot];
    let all = records.push(record);
    assert(slot_undoable(start.table[slot], entry, now.fresh(records, slot)));
    law_crash_after_flags(start, now, records, slot, entry.active, entry.valid, false);
    let marked = now.flagged(slot, entry.active, entry.valid, false);
    assert(marked.bytes(address, data.len() as int) =~= now.bytes(address, data.len() as int));
    assert forall|i: int| #![trigger marked.table[i]]
        0 <= i < marked.table.len() && marked.table[i].data == Some(record.op.absolute_address)
        implies start.table[i].live() || marked.fresh(records, i) by {
        assert(now.table[i].data == marked.table[i].data);
        assert(i == slot);
    }
    law_crash_after_logging(start, marked, records, record);
    let memory = marked.written(address, data).memory;
    assert forall|i: int, x: int| #![trigger start.table[i].spans(x)]
        0 <= i < start.table.len() && start.table[i].live() && start.table[i].spans(x)
            && memory[x - marked.start] != marked.byte(x) implies exists|k: int|
        0 <= k < all.len() && (#[trigger] all[k]).covers(x) by {
        assert(marked.holds(x, 1));
        assert(all[records.len() as int].covers(x));
    }
    law_crash_while_writing(start, marked, all, memory);
    let written = PoolView { memory, ..marked };
    assert(allocates(records, record.op.absolute_address) ==> allocates(
        all,
        record.op.absolute_address,
    )) by {
        assert(all.drop_last() =~= records);
        lemma_allocates_last(all, record.op.absolute_address);
    }
    law_crash_after_flags(start, written, all, slot, entry.active, entry.valid, true);
    let end = now.written(address, data).flagged(slot, entry.active, entry.valid, true);
    assert(written.flagged(slot, entry.active, entry.valid, true).table =~= end.table);
    assert(apart(start, marked, records, free)) by {
        assert forall|i: int| #![trigger marked.table[i]]
            0 <= i < marked.table.len() && marked.table[i].data is Some implies !free.contains(
            marked.table[i].data->Some_0 as int,
        ) by {
            assert(marked.table[i].data == now.table[i].data);
        }
    }
    assert(apart(start, end, all, free)) by {
        assert forall|i: int| #![trigger end.table[i]]
            0 <= i < end.table.len() && end.table[i].data is Some implies !free.contains(
            end.table[i].data->Some_0 as int,
        ) by {
            assert(end.table[i].data == now.table[i].data);
        }
        assert forall|k: int| #![trigger all[k]]
            0 <= k < all.len() && all[k].op.op_type is Modification implies !free.contains(
            all[k].op.absolute_address as int,
        ) by {
            if k < records.len() {
                assert(all[k] == records[k]);
            }
        }
    }
}

/// A logged deallocation keeps the transaction reversible; so does one that was only marked,
/// unless the object was dropped before.
pub proof fn lemma_deallocation(
    start: PoolView,
    now: PoolView,
    records: Seq<LogRecord>,
    free: Set<int>,
    slot: int,
    record: LogRecord,
)
    requires
        reversible(start, now, records, free),
        0 <= slot < now.table.len(),
        start.table[slot].live() || now.fresh(records, slot),
        record.op.op_type is Deallocation,
        record.op.pool_base_address == now.base,
    ensures
        ({
            let entry = now.table[slot];
            &&& !start.table[slot].live() || !entry.dropped() ==> reversible(
                start,
                now.flagged(slot, entry.active, entry.valid, false),
                records,
                free,
            )
            &&& reversible(
                start,
                now.flagged(slot, false, false, true),
                records.push(record),
                free,
            )
        }),
{
    let entry = now.table[slot];
    let all = records.push(record);
    assert(all.drop_last() =~= records);
    assert(slot_undoable(start.table[slot], entry, now.fresh(records, slot)));
    if !start.table[slot].live() || !entry.dropped() {
        law_crash_after_flags(start, now, records, slot, entry.active, entry.valid, false);
        lemma_apart_flagged(
            start,
            now,
            records,
            records,
            free,
            slot,
            entry.active,
            entry.valid,
            false,
        );
    }
    law_crash_after_logging(start, now, records, record);
    if entry.data is Some {
        lemma_allocates_last(all, entry.data->Some_0);
    }
    law_crash_after_flags(start, now, all, slot, false, false, true);
    lemma_apart_flagged(start, now, records, all, free, slot, false, false, true);
}

proof fn lemma_apart_flagged(
    start: PoolView,
    now: PoolView,
    records: Seq<LogRecord>,
    all: Seq<LogRecord>,
    free: Set<int>,
    slot: int,
    active: bool,
    valid: bool,
    done: bool,
)
    requires
        apart(start, now, records, free),
        0 <= slot < now.table.len(),
        all == records || all.len() == records.len() + 1 && all.drop_last() == records
            && all.last().op.op_type is Deallocation,
    ensures
        apart(start, now.flagged(slot, active, valid, done), all, free),
{
    let new = now.flagged(slot, active, valid, done);
    assert forall|i: int| #![trigger new.table[i]]
        0 <= i < new.table.len() && new.table[i].data is Some implies !free.contains(
        new.table[i].data->Some_0 as int,
    ) by {
        assert(new.table[i].data == now.table[i].data);
    }
    assert forall|k: int| #![trigger all[k]]
        0 <= k < all.len() && all[k].op.op_type is Modification implies !free.contains(
        all[k].op.absolute_address as int,
    ) by {
        if k < records.len() {
            assert(all[k] == records[k]);
        } else {
            assert(all[k] == all.last());
        }
    }
}

} // verus!