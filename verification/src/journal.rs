//! The log pool as a sequence of records.

use crate::image::{LogRecord, PoolView};
use crate::oplog::LoggedOperation;
use crate::table::Probe;
use vstd::prelude::*;

verus! {

impl PoolView {
    /// The slot holds a record, and no byte of the record is free.
    pub open spec fn recorded(self, slot: int, free: Set<int>) -> bool {
        let entry = self.table[slot];
        &&& entry.valid
        &&& entry.data is Some
        &&& self.readable_in(slot)
        &&& forall|x: int|
            entry.data->Some_0 <= x < entry.data->Some_0 + 40
                + self.record_in(slot)->Some_0.op.data_size ==> !#[trigger] free.contains(x)
    }

    /// The pool is a log in good order: the slots in use come first, and each holds a record
    /// that the free memory of the heap does not touch.
    pub open spec fn is_journal(self, free: Set<int>) -> bool {
        &&& forall|i: int| #![trigger self.table[i]]
            0 <= i < self.table.len() && self.table[i].active ==> self.recorded(i, free)
        &&& forall|i: int, j: int| #![trigger self.table[i], self.table[j]]
            0 <= i < j < self.table.len() && self.table[j].active ==> self.table[i].active
    }

    /// The record that [`PoolView::appended`] adds.
    pub open spec fn new_record(self, address: u64, op: LoggedOperation, original: Seq<u8>)
        -> LogRecord {
        LogRecord {
            op,
            original: self.written(address + 40, original).bytes(
                address + 40,
                op.data_size as int,
            ),
        }
    }
}

proof fn lemma_records_below_same(a: PoolView, b: PoolView, slots: int)
    requires
        forall|i: int| 0 <= i < slots ==> #[trigger] a.record_in(i) == b.record_in(i),
    ensures
        a.records_below(slots) == b.records_below(slots),
    decreases slots,
{
    if slots > 0 {
        assert(a.record_in(slots - 1) == b.record_in(slots - 1));
        lemma_records_below_same(a, b, slots - 1);
    }
}

proof fn lemma_records_below_none(log: PoolView, slots: int, more: int)
    requires
        0 <= slots <= more,
        forall|i: int| slots <= i < more ==> #[trigger] log.record_in(i) is None,
    ensures
        log.records_below(more) == log.records_below(slots),
    decreases more - slots,
{
    if slots < more {
        assert(log.record_in(more - 1) is None);
        lemma_records_below_none(log, slots, more - 1);
    }
}

/// The record in each slot is one of the records.
pub proof fn lemma_slot_has_record(log: PoolView, slots: int, i: int)
    requires
        0 <= i < slots,
        log.record_in(i) is Some,
    ensures
        log.records_below(slots).contains(log.record_in(i)->Some_0),
    decreases slots,
{
    let all = log.records_below(slots);
    if i == slots - 1 {
        assert(all[all.len() - 1] == log.record_in(i)->Some_0);
    } else {
        lemma_slot_has_record(log, slots - 1, i);
        let rest = log.records_below(slots - 1);
        let k = choose|k: int| 0 <= k < rest.len() && rest[k] == log.record_in(i)->Some_0;
        assert(all[k] == rest[k]);
    }
}

/// A record that is appended to a log in good order becomes its last record, and the log stays
/// in good order.
pub proof fn law_append_is_push(
    log: PoolView,
    free: Set<int>,
    slot: int,
    address: u64,
    op: LoggedOperation,
    original: Seq<u8>,
)
    requires
        log.is_journal(free),
        Probe::Inactive.find(log.table) == Some(slot),
        original.len() == 0 || original.len() == op.data_size,
        log.holds(address as int, 40 + op.data_size),
        crate::heap::span(address as int, 40 + op.data_size).subset_of(free),
    ensures
        log.appended(slot, address, op, original).records() == log.records().push(
            log.new_record(address, op, original),
        ),
        log.appended(slot, address, op, original).is_journal(
            free.difference(crate::heap::span(address as int, 40 + op.data_size)),
        ),
        original.len() == op.data_size ==> log.new_record(address, op, original).original
            == original,
{
    let new = log.appended(slot, address, op, original);
    let record = log.new_record(address, op, original);
    let block = crate::heap::span(address as int, 40 + op.data_size);
    let left = free.difference(block);
    crate::table::lemma_find(Probe::Inactive, log.table);
    crate::oplog::law_decode_encode(op);
    assert(new.bytes(address as int, 40) =~= crate::oplog::encoding(op));
    assert(new.bytes(address + 40, op.data_size as int) =~= record.original);
    assert(new.record_in(slot) == Some(record));
    assert forall|i: int| 0 <= i < slot implies #[trigger] new.record_in(i) == log.record_in(i)
        && new.recorded(i, left) by {
        assert(!Probe::Inactive.hits(log.table[i]));
        assert(log.recorded(i, free));
        let at = log.table[i].data->Some_0 as int;
        let size = log.record_in(i)->Some_0.op.data_size as int;
        assert forall|x: int| at <= x < at + 40 + size implies new.byte(x) == log.byte(x) by {
            assert(!free.contains(x));
            assert(!block.contains(x));
        }
        assert(new.bytes(at, 40) =~= log.bytes(at, 40)) by {
            assert forall|n: int| 0 <= n < 40 implies #[trigger] new.bytes(at, 40)[n] == log.bytes(
                at,
                40,
            )[n] by {
                assert(new.byte(at + n) == log.byte(at + n));
            }
        }
        assert(new.bytes(at + 40, size) =~= log.bytes(at + 40, size)) by {
            assert forall|n: int| 0 <= n < size implies #[trigger] new.bytes(at + 40, size)[n]
                == log.bytes(at + 40, size)[n] by {
                assert(new.byte(at + 40 + n) == log.byte(at + 40 + n));
            }
        }
    }
    assert forall|i: int| slot < i < log.table.len() implies #[trigger] new.record_in(i) is None
        && log.record_in(i) is None by {
        assert(!log.table[i].active);
    }
    lemma_records_below_same(new, log, slot);
    lemma_records_below_none(new, slot + 1, new.table.len() as int);
    assert(log.record_in(slot) is None);
    lemma_records_below_none(log, slot, log.table.len() as int);
    assert(new.recorded(slot, left));
}

/// An emptied log in good order holds no record and stays in good order.
pub proof fn law_emptied_log_is_empty(log: PoolView, free: Set<int>)
    ensures
        log.emptied().records() == Seq::<LogRecord>::empty(),
        log.emptied().is_journal(free),
        !log.emptied().has_logs(),
        log.emptied().readable(),
{
    let new = log.emptied();
    assert forall|i: int| 0 <= i < new.table.len() implies #[trigger] new.record_in(i) is None by {
        assert(!new.table[i].active);
    }
    lemma_records_below_none(new, 0, new.table.len() as int);
}

/// A log without live slots holds no record.
pub proof fn lemma_no_record(log: PoolView)
    requires
        !log.has_logs(),
    ensures
        log.readable(),
        forall|i: int| 0 <= i < log.table.len() ==> #[trigger] log.record_in(i) is None,
{
    assert forall|i: int| 0 <= i < log.table.len() implies #[trigger] log.record_in(i) is None by {
        assert(!log.table[i].live());
    }
    assert forall|i: int| 0 <= i < log.table.len() implies #[trigger] log.readable_in(i) by {
        assert(!log.table[i].live());
    }
}

} // verus!
