//! What a pool means: its object table and its memory, and what the log does to them.

use crate::oplog::{LoggedOperation, OperationType};
use crate::table::{EntryView, FreedBlock, Probe};
use vstd::prelude::*;

verus! {

/// The contents of a pool. The byte `memory[i]` is at the address `start + i`.
#[verifier::ext_equal]
pub struct PoolView {
    pub base: u64,
    pub start: int,
    pub table: Seq<EntryView>,
    pub memory: Seq<u8>,
}

/// One operation in the log, with the bytes that stood at its address before it.
pub struct LogRecord {
    pub op: LoggedOperation,
    pub original: Seq<u8>,
}

impl LogRecord {
    /// The record restores the byte at the address `x`.
    pub open spec fn covers(self, x: int) -> bool {
        &&& self.op.op_type is Modification
        &&& self.op.absolute_address <= x < self.op.absolute_address + self.original.len()
    }
}

impl PoolView {
    /// The bytes from `address` on, `len` of them, are memory of the pool.
    pub open spec fn holds(self, address: int, len: int) -> bool {
        self.start <= address && 0 <= len && address + len <= self.start + self.memory.len()
    }

    /// The byte at an address.
    pub open spec fn byte(self, x: int) -> u8 {
        self.memory[x - self.start]
    }

    /// The bytes from `address` on.
    pub open spec fn bytes(self, address: int, len: int) -> Seq<u8> {
        self.memory.subrange(address - self.start, address - self.start + len)
    }

    /// The pool after `data` was written at `address`.
    pub open spec fn written(self, address: int, data: Seq<u8>) -> PoolView {
        PoolView {
            memory: Seq::new(
                self.memory.len(),
                |i: int|
                    if address <= self.start + i < address + data.len() {
                        data[self.start + i - address]
                    } else {
                        self.memory[i]
                    },
            ),
            ..self
        }
    }

    /// The pool with another entry in a slot.
    pub open spec fn with(self, slot: int, entry: EntryView) -> PoolView {
        PoolView { table: self.table.update(slot, entry), ..self }
    }

    /// The pool with other flags in a slot.
    pub open spec fn flagged(self, slot: int, active: bool, valid: bool, done: bool) -> PoolView {
        self.with(slot, self.table[slot].flagged(active, valid, done))
    }

    /// The pool with other flags in the slot that a probe finds.
    pub open spec fn flag_found(
        self,
        probe: Probe,
        active: bool,
        valid: bool,
        done: bool,
    ) -> PoolView {
        match probe.find(self.table) {
            Some(slot) => self.flagged(slot, active, valid, done),
            None => self,
        }
    }

    /// The pool after recovery of every slot.
    pub open spec fn recovered(self) -> PoolView {
        PoolView { table: self.table.map_values(|e: EntryView| e.recovered()), ..self }
    }

    /// The blocks that recovery gives back to the heap, in slot order.
    pub open spec fn released(self) -> Seq<FreedBlock> {
        released_by(self.table)
    }

    /// Recovery of a slot that gives its block back knows the block, and the block has a layout
    /// with the alignment that the heap is asked for.
    pub open spec fn recoverable(self) -> bool {
        recoverable_in(self.table)
    }

    /// Every slot that a deallocation or a commit left knows its block, and every block has a
    /// layout with the alignment that the heap is asked for.
    pub open spec fn sound(self) -> bool {
        forall|i: int| #![trigger self.table[i]]
            0 <= i < self.table.len() ==> {
                &&& !self.table[i].active && self.table[i].done ==> self.table[i].data is Some
                &&& self.table[i].data is Some ==> self.table[i].type_size <= isize::MAX - 63
            }
    }

    /// No two objects that recovery keeps have the same identifier.
    pub open spec fn ids_unique(self) -> bool {
        forall|i: int, j: int| #![trigger self.table[i], self.table[j]]
            0 <= i < j < self.table.len() && self.table[i].kept() && self.table[j].kept()
                ==> self.table[i].id != self.table[j].id
    }

    /// The first slot marks the pool as the log pool.
    pub open spec fn marked_as_log(self) -> bool {
        self.table[0].active && self.table[0].id == log_pool_id()
    }

    /// The operation and the original bytes that a slot of a log pool holds.
    pub open spec fn record_in(self, slot: int) -> Option<LogRecord> {
        let entry = self.table[slot];
        if entry.live() && entry.data is Some {
            let address = entry.data->Some_0 as int;
            match crate::oplog::decoding(self.bytes(address, 40)) {
                Some(op) => Some(
                    LogRecord { op, original: self.bytes(address + 40, op.data_size as int) },
                ),
                None => None,
            }
        } else {
            None
        }
    }

    /// The slot holds no record, or one that lies in the memory of the pool.
    pub open spec fn readable_in(self, slot: int) -> bool {
        let entry = self.table[slot];
        entry.live() && entry.data is Some ==> {
            let address = entry.data->Some_0 as int;
            &&& self.holds(address, 40)
            &&& match crate::oplog::decoding(self.bytes(address, 40)) {
                Some(op) => self.holds(address + 40, op.data_size as int),
                None => false,
            }
        }
    }

    /// Every record of a log pool can be read.
    pub open spec fn readable(self) -> bool {
        forall|i: int| 0 <= i < self.table.len() ==> #[trigger] self.readable_in(i)
    }

    /// The records in the first `slots` slots of a log pool, in slot order.
    pub open spec fn records_below(self, slots: int) -> Seq<LogRecord>
        decreases slots,
    {
        if slots <= 0 {
            Seq::empty()
        } else {
            match self.record_in(slots - 1) {
                Some(record) => self.records_below(slots - 1).push(record),
                None => self.records_below(slots - 1),
            }
        }
    }

    /// The records of a log pool, in slot order.
    pub open spec fn records(self) -> Seq<LogRecord> {
        self.records_below(self.table.len() as int)
    }

    /// Some slot of the log pool is live.
    pub open spec fn has_logs(self) -> bool {
        exists|i: int| 0 <= i < self.table.len() && (#[trigger] self.table[i]).live()
    }

    /// The pool after one operation was undone.
    /// - An allocation is undone by marking the object unfinished; recovery then discards it.
    /// - A modification is undone by writing the original bytes back.
    /// - A deallocation is undone by making the first dropped slot live again.
    pub open spec fn undone(self, record: LogRecord) -> PoolView {
        let address = record.op.absolute_address;
        match record.op.op_type {
            OperationType::Allocation => self.flag_found(Probe::At(address), true, false, false),
            OperationType::Modification => self.written(address as int, record.original).flag_found(
                Probe::At(address),
                true,
                true,
                true,
            ),
            OperationType::Deallocation => self.flag_found(Probe::Dropped, true, true, true),
        }
    }

    /// The pool after the records of the log that concern it were undone, the last one first.
    pub open spec fn rolled_back(self, records: Seq<LogRecord>) -> PoolView
        decreases records.len(),
    {
        if records.len() == 0 {
            self
        } else {
            let record = records.last();
            let rest = records.drop_last();
            if record.op.pool_base_address == self.base {
                self.undone(record).rolled_back(rest)
            } else {
                self.rolled_back(rest)
            }
        }
    }

    /// Undoing the record writes only to memory of the pool.
    pub open spec fn takes(self, record: LogRecord) -> bool {
        record.op.pool_base_address == self.base && record.op.op_type is Modification
            ==> self.holds(record.op.absolute_address as int, record.original.len() as int)
    }

    /// Undoing any record of the log writes only to memory of the pool.
    pub open spec fn takes_from(self, log: PoolView) -> bool {
        forall|i: int| 0 <= i < log.table.len() ==> match #[trigger] log.record_in(i) {
            Some(record) => self.takes(record),
            None => true,
        }
    }

    /// The pool after its slots were blanked and its memory zeroed.
    pub open spec fn emptied(self) -> PoolView {
        PoolView {
            table: Seq::new(self.table.len(), |i: int| EntryView::blank()),
            memory: Seq::new(self.memory.len(), |i: int| 0u8),
            ..self
        }
    }

    /// The log pool after a record was placed at `address` and entered in a slot.
    pub open spec fn appended(
        self,
        slot: int,
        address: u64,
        op: LoggedOperation,
        original: Seq<u8>,
    ) -> PoolView {
        self.with(
            slot,
            EntryView {
                active: true,
                valid: true,
                data: Some(address),
                type_size: (40 + op.data_size) as usize,
                ..self.table[slot]
            },
        ).written(address as int, crate::oplog::encoding(op)).written(address + 40, original)
    }
}

/// Recovery of a slot that gives its block back knows the block, and the block has a layout with
/// the alignment that the heap is asked for.
pub open spec fn recoverable_in(table: Seq<EntryView>) -> bool {
    forall|i: int| #![trigger table[i]]
        0 <= i < table.len() && table[i].discarded() ==> {
            &&& !table[i].active ==> table[i].data is Some
            &&& table[i].data is Some ==> table[i].type_size <= isize::MAX - 63
        }
}

/// The identifier that marks the log pool: `__LOG__`.
pub open spec fn log_pool_id() -> Seq<u8> {
    seq![95u8, 95u8, 76u8, 79u8, 71u8, 95u8, 95u8]
}

/// The blocks that recovery of the entries gives back, in slot order.
pub open spec fn released_by(table: Seq<EntryView>) -> Seq<FreedBlock>
    decreases table.len(),
{
    if table.len() == 0 {
        Seq::empty()
    } else {
        released_by(table.drop_last()) + table.last().released()
    }
}

} // verus!
