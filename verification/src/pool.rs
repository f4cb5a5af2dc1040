//! A pool: header, object table, heap and the memory of its objects.

use crate::image::{LogRecord, PoolView};
use crate::layout::{heap_offset, object_table_offset, MAX_OBJECT_ENTRIES};
use crate::oplog::{LoggedOperation, OperationType, LOGGED_OPERATION_SIZE};
use crate::table::{
    find_at, find_dropped, find_inactive, EntryView, FreedBlock, ObjectTableEntry, Probe,
};
use linked_list_allocator::Heap;
use vstd::prelude::*;

verus! {

/// Marks a pool header as initialised.
pub const POOL_MAGIC: u64 = 0x4433_4F53_504F_4F4C;

/// Why an operation on a pool failed.
#[derive(Clone, Copy, Debug, PartialEq, Eq)]
pub enum PoolError {
    AllocationFailed,
    TransactionFailed,
    TypeMismatch { expected: &'static str, actual: &'static str },
    InvalidId,
    ObjectTableFull,
    InconsistentState,
    LogPoolFull,
    LogPoolNotAvailable,
    LayoutError,
}

/// The record at the start of a pool.
#[derive(Clone, Copy, PartialEq, Eq, Structural, Debug)]
pub struct PoolHeader {
    pub magic: u64,
    pub size: usize,
    pub max_objects: usize,
    pub object_table_offset: u64,
    pub heap_start: u64,
    pub heap_size: usize,
}

/// What the media holds where a pool is opened.
pub struct PoolImage {
    pub header: PoolHeader,
    pub object_table: Vec<ObjectTableEntry>,
    pub memory: Vec<u8>,
}

/// A pool of objects. Object table and memory are those of the media; `heap` hands out the
/// memory.
pub struct Pool {
    pub base_address: u64,
    pub header: PoolHeader,
    pub object_table_offset: u64,
    pub heap: Heap,
    pub object_table: Vec<ObjectTableEntry>,
    pub memory: Vec<u8>,
}

impl PoolHeader {
    /// The header of a fresh pool of `size` bytes.
    pub open spec fn fresh(size: usize) -> PoolHeader {
        PoolHeader {
            magic: POOL_MAGIC,
            size,
            max_objects: MAX_OBJECT_ENTRIES,
            object_table_offset: 64,
            heap_start: 16448,
            heap_size: (size - 16448) as usize,
        }
    }
}

/// Every identifier of the table is within bounds.
pub open spec fn table_wf(table: Seq<ObjectTableEntry>) -> bool {
    &&& table.len() == MAX_OBJECT_ENTRIES
    &&& forall|i: int| 0 <= i < table.len() ==> (#[trigger] table[i]).wf()
}

impl PoolImage {
    /// The image is one of a pool of `size` bytes. The header counts only where its magic
    /// number is that of a pool.
    pub open spec fn wf(self, size: usize) -> bool {
        &&& table_wf(self.object_table@)
        &&& self.memory@.len() == size - 16448
        &&& self.header.magic == POOL_MAGIC ==> self.header == PoolHeader::fresh(size)
    }

    /// Tests whether the image is one of a pool of `size` bytes.
    pub fn is_wf(&self, size: usize) -> (ok: bool)
        requires
            size >= 16448,
        ensures
            ok == self.wf(size),
    {
        if self.object_table.len() != MAX_OBJECT_ENTRIES || self.memory.len() != size - 16448 {
            return false;
        }
        if self.header.magic == POOL_MAGIC && !(self.header.size == size && self.header.max_objects
            == MAX_OBJECT_ENTRIES && self.header.object_table_offset == 64
            && self.header.heap_start == 16448 && self.header.heap_size == size - 16448) {
            return false;
        }
        let mut i: usize = 0;
        while i < MAX_OBJECT_ENTRIES
            invariant
                i <= MAX_OBJECT_ENTRIES == self.object_table.len(),
                forall|j: int| 0 <= j < i ==> (#[trigger] self.object_table@[j]).wf(),
            decreases MAX_OBJECT_ENTRIES - i,
        {
            if self.object_table[i].id_len > 32 {
                assert(!self.object_table@[i as int].wf());
                return false;
            }
            i = i + 1;
        }
        true
    }
}

impl View for Pool {
    type V = PoolView;

    open spec fn view(&self) -> PoolView {
        PoolView {
            base: self.base_address,
            start: self.base_address + self.header.heap_start,
            table: crate::table::entries(self.object_table@),
            memory: self.memory@,
        }
    }
}

impl Pool {
    /// Header, table and memory fit together.
    pub open spec fn wf(self) -> bool {
        &&& table_wf(self.object_table@)
        &&& self.header == PoolHeader::fresh(self.header.size)
        &&& self.header.size == 16448 + self.memory@.len()
        &&& self.object_table_offset == 64
        &&& self.base_address + self.header.size <= usize::MAX
    }

    /// The heap hands out memory of this pool only.
    pub open spec fn served(self) -> bool {
        crate::heap::heap_within(self.heap, self@.start, self@.memory.len() as int)
    }

    /// The pool is the same but for table and memory.
    pub open spec fn same_frame(self, other: Pool) -> bool {
        &&& self.base_address == other.base_address
        &&& self.header == other.header
        &&& self.object_table_offset == other.object_table_offset
        &&& self.memory@.len() == other.memory@.len()
    }

    /// Opens the pool of `size` bytes at the address `base`. A header that is not that of a
    /// pool is written anew; table and memory stay as they were found. `heap` is a heap over
    /// the memory of the pool in which nothing is allocated.
    pub fn new(base: u64, size: usize, found: PoolImage, heap: Heap) -> (pool: Self)
        requires
            size >= 16448,
            base + size <= usize::MAX,
            found.wf(size),
        ensures
            pool.wf(),
            pool.base_address == base,
            pool.header == PoolHeader::fresh(size),
            pool.object_table@ == found.object_table@,
            pool.memory@ == found.memory@,
            pool.heap == heap,
    {
        let table_offset: usize = object_table_offset();
        let heap_start: usize = heap_offset();
        let heap_size: usize = size - heap_start;
        let mut header: PoolHeader = found.header;
        if header.magic != POOL_MAGIC {
            header = PoolHeader {
                magic: POOL_MAGIC,
                size,
                max_objects: MAX_OBJECT_ENTRIES,
                object_table_offset: table_offset as u64,
                heap_start: heap_start as u64,
                heap_size,
            };
        }
        Pool {
            base_address: base,
            header,
            object_table_offset: table_offset as u64,
            heap,
            object_table: found.object_table,
            memory: found.memory,
        }
    }

    /// Bytes of the pool that hold objects.
    pub fn heap_size(&self) -> (size: usize)
        ensures
            size == self.header.heap_size,
    {
        self.header.heap_size
    }

    /// Tests whether the heap hands out memory of this pool only.
    pub fn is_served(&self) -> (served: bool)
        requires
            self.wf(),
        ensures
            served == self.served(),
    {
        crate::heap::is_heap_within(
            &self.heap,
            self.base_address + self.header.heap_start,
            self.memory.len(),
        )
    }

    /// Tests whether `len` bytes from `address` on are memory of the pool.
    pub fn is_held(&self, address: u64, len: usize) -> (held: bool)
        requires
            self.wf(),
        ensures
            held == self@.holds(address as int, len as int),
    {
        let start: u64 = self.base_address + self.header.heap_start;
        let size: u64 = self.memory.len() as u64;
        start <= address && address - start <= size && len as u64 <= size - (address - start)
    }

    /// The bytes at an address.
    pub fn read(&self, address: u64, len: usize) -> (data: Vec<u8>)
        requires
            self.wf(),
            self@.holds(address as int, len as int),
        ensures
            data@ == self@.bytes(address as int, len as int),
    {
        let from: usize = (address - (self.base_address + self.header.heap_start)) as usize;
        let mut data: Vec<u8> = Vec::new();
        let mut i: usize = 0;
        while i < len
            invariant
                i <= len,
                from + len <= self.memory.len(),
                data@ == self.memory@.subrange(from as int, from + i),
            decreases len - i,
        {
            data.push(self.memory[from + i]);
            i = i + 1;
            assert(data@ =~= self.memory@.subrange(from as int, from + i));
        }
        data
    }

    /// Writes bytes at an address.
    pub fn write(&mut self, address: u64, data: &[u8])
        requires
            old(self).wf(),
            old(self)@.holds(address as int, data@.len() as int),
        ensures
            final(self).wf(),
            final(self)@ == old(self)@.written(address as int, data@),
            final(self).same_frame(*old(self)),
            final(self).heap == old(self).heap,
    {
        let from: usize = (address - (self.base_address + self.header.heap_start)) as usize;
        let mut i: usize = 0;
        while i < data.len()
            invariant
                i <= data.len(),
                from + data.len() <= self.memory.len(),
                from == address - old(self)@.start,
                self.wf(),
                self.same_frame(*old(self)),
                self.heap == old(self).heap,
                self.object_table == old(self).object_table,
                self@ == old(self)@.written(address as int, data@.take(i as int)),
            decreases data.len() - i,
        {
            self.memory[from + i] = data[i];
            i = i + 1;
            assert(self@ =~= old(self)@.written(address as int, data@.take(i as int)));
        }
        assert(data@.take(i as int) =~= data@);
    }

    /// Sets the flags of a slot.
    pub fn set_flags(&mut self, slot: usize, active: bool, valid: bool, done: bool)
        requires
            old(self).wf(),
            slot < MAX_OBJECT_ENTRIES,
        ensures
            final(self).wf(),
            final(self)@ == old(self)@.flagged(slot as int, active, valid, done),
            final(self).same_frame(*old(self)),
            final(self).heap == old(self).heap,
    {
        let mut entry: ObjectTableEntry = self.object_table[slot];
        entry.active = active;
        entry.valid = valid;
        entry.operation_done = done;
        self.set_entry(slot, entry);
        assert(self@.table =~= old(self)@.flagged(slot as int, active, valid, done).table);
    }

    /// Puts an entry in a slot.
    pub fn set_entry(&mut self, slot: usize, entry: ObjectTableEntry)
        requires
            old(self).wf(),
            slot < MAX_OBJECT_ENTRIES,
            entry.wf(),
        ensures
            final(self).wf(),
            final(self)@ == old(self)@.with(slot as int, entry@),
            final(self).object_table@ == old(self).object_table@.update(slot as int, entry),
            final(self).same_frame(*old(self)),
            final(self).heap == old(self).heap,
    {
        self.object_table[slot] = entry;
        assert(self@.table =~= old(self)@.with(slot as int, entry@).table);
    }

    /// Finishes or discards what a crash or the last transaction left in each slot. Returns the
    /// blocks that go back to the heap.
    pub fn recover(&mut self) -> (freed: Vec<FreedBlock>)
        requires
            old(self).wf(),
            old(self)@.recoverable(),
        ensures
            final(self).wf(),
            final(self)@ == old(self)@.recovered(),
            final(self).same_frame(*old(self)),
            final(self).heap == old(self).heap,
            freed@ == old(self)@.released(),
            forall|i: int| 0 <= i < MAX_OBJECT_ENTRIES ==> (
            #[trigger] final(self).object_table@[i]).id@ == if old(
                self,
            )@.table[i].discarded() {
                Seq::new(32, |k: int| 0u8)
            } else {
                old(self).object_table@[i].id@
            },
    {
        let mut freed: Vec<FreedBlock> = Vec::new();
        let mut i: usize = 0;
        let ghost table = self@.table;
        let ghost mended = old(self)@.recovered().table;
        while i < MAX_OBJECT_ENTRIES
            invariant
                i <= MAX_OBJECT_ENTRIES,
                self.wf(),
                self.same_frame(*old(self)),
                self.heap == old(self).heap,
                self.memory@ == old(self).memory@,
                table == old(self)@.table,
                table.len() == MAX_OBJECT_ENTRIES,
                mended == old(self)@.recovered().table,
                self@.table == mended.take(i as int) + table.skip(i as int),
                freed@ == crate::image::released_by(table.take(i as int)),
                old(self).wf(),
                forall|j: int| i <= j < MAX_OBJECT_ENTRIES ==> #[trigger] self.object_table@[j]
                    == old(self).object_table@[j],
                forall|j: int| 0 <= j < i ==> (#[trigger] self.object_table@[j]).id@
                    == if table[j].discarded() {
                    Seq::new(32, |k: int| 0u8)
                } else {
                    old(self).object_table@[j].id@
                },
            decreases MAX_OBJECT_ENTRIES - i,
        {
            let mut entry: ObjectTableEntry = self.object_table[i];
            assert(self@.table[i as int] == entry@);
            assert(entry@ == table[i as int]);
            let block: Option<FreedBlock> = entry.recover();
            self.set_entry(i, entry);
            if let Some(block) = block {
                freed.push(block);
            }
            assert(table.take(i + 1).drop_last() =~= table.take(i as int));
            i = i + 1;
            assert(self@.table =~= mended.take(i as int) + table.skip(i as int));
        }
        assert(table.take(i as int) =~= table);
        assert(self@.table =~= mended);
        freed
    }

    /// Tests whether every slot knows its block and every block has a layout.
    pub fn is_sound(&self) -> (ok: bool)
        requires
            self.wf(),
        ensures
            ok == self@.sound(),
    {
        let mut i: usize = 0;
        while i < MAX_OBJECT_ENTRIES
            invariant
                i <= MAX_OBJECT_ENTRIES,
                self.wf(),
                forall|j: int| #![trigger self@.table[j]]
                    0 <= j < i ==> {
                        &&& !self@.table[j].active && self@.table[j].done
                            ==> self@.table[j].data is Some
                        &&& self@.table[j].data is Some ==> self@.table[j].type_size <= isize::MAX
                            - 63
                    },
            decreases MAX_OBJECT_ENTRIES - i,
        {
            let entry: ObjectTableEntry = self.object_table[i];
            assert(self@.table[i as int] == entry@);
            if entry.data.is_none() {
                if !entry.active && entry.operation_done {
                    return false;
                }
            } else if entry.type_size > isize::MAX as usize - 63 {
                return false;
            }
            i = i + 1;
        }
        true
    }

    /// Whether some slot is live.
    pub fn has_logs(&self) -> (found: bool)
        requires
            self.wf(),
        ensures
            found == self@.has_logs(),
    {
        let mut i: usize = 0;
        while i < MAX_OBJECT_ENTRIES
            invariant
                i <= MAX_OBJECT_ENTRIES,
                self.wf(),
                forall|j: int| 0 <= j < i ==> !(#[trigger] self@.table[j]).live(),
            decreases MAX_OBJECT_ENTRIES - i,
        {
            if self.object_table[i].active && self.object_table[i].valid {
                assert(self@.table[i as int].live());
                return true;
            }
            i = i + 1;
        }
        false
    }

    /// Whether the first slot marks the pool as the log pool.
    pub fn is_log_pool(&self) -> (marked: bool)
        requires
            self.wf(),
        ensures
            marked == self@.marked_as_log(),
    {
        assert(self@.table[0] == self.object_table@[0]@);
        let name: [u8; 7] = log_pool_name();
        self.object_table[0].active && self.object_table[0].has_id(name.as_slice())
    }

    /// Undoes one logged operation.
    pub fn undo(&mut self, op: LoggedOperation, original: &[u8])
        requires
            old(self).wf(),
            op.op_type is Modification ==> old(self)@.holds(
                op.absolute_address as int,
                original@.len() as int,
            ),
        ensures
            final(self).wf(),
            final(self)@ == old(self)@.undone(LogRecord { op, original: original@ }),
            final(self).same_frame(*old(self)),
            final(self).heap == old(self).heap,
    {
        match op.op_type {
            OperationType::Allocation => {
                if let Some(slot) = find_at(&self.object_table, op.absolute_address) {
                    self.set_flags(slot, true, false, false);
                }
            },
            OperationType::Modification => {
                self.write(op.absolute_address, original);
                if let Some(slot) = find_at(&self.object_table, op.absolute_address) {
                    self.set_flags(slot, true, true, true);
                }
            },
            OperationType::Deallocation => {
                if let Some(slot) = find_dropped(&self.object_table) {
                    self.set_flags(slot, true, true, true);
                }
            },
        }
    }

    /// The operation that a slot of a log pool holds, and the original bytes.
    pub fn record(&self, slot: usize) -> (record: Option<(LoggedOperation, Vec<u8>)>)
        requires
            self.wf(),
            slot < MAX_OBJECT_ENTRIES,
            self@.readable_in(slot as int),
        ensures
            self@.record_in(slot as int) == match record {
                Some((op, original)) => Some(LogRecord { op, original: original@ }),
                None => None,
            },
            record matches Some((op, original)) ==> original@.len() == op.data_size,
    {
        let entry: ObjectTableEntry = self.object_table[slot];
        assert(self@.table[slot as int] == entry@);
        if entry.active && entry.valid {
            if let Some(address) = entry.data {
                let bytes: Vec<u8> = self.read(address, LOGGED_OPERATION_SIZE);
                if let Some(op) = LoggedOperation::decode(bytes.as_slice()) {
                    let original: Vec<u8> = self.read(
                        address + LOGGED_OPERATION_SIZE as u64,
                        op.data_size,
                    );
                    return Some((op, original));
                }
            }
        }
        None
    }

    /// Undoes the operations that the log holds of this pool, the last one first.
    pub fn perform_rollback(&mut self, log: &Pool)
        requires
            old(self).wf(),
            log.wf(),
            log@.readable(),
            old(self)@.takes_from(log@),
        ensures
            final(self).wf(),
            final(self)@ == old(self)@.rolled_back(log@.records()),
            final(self).same_frame(*old(self)),
            final(self).heap == old(self).heap,
    {
        let mut i: usize = MAX_OBJECT_ENTRIES;
        while i > 0
            invariant
                i <= MAX_OBJECT_ENTRIES,
                self.wf(),
                log.wf(),
                log@.readable(),
                self@.takes_from(log@),
                self.same_frame(*old(self)),
                self.heap == old(self).heap,
                self@.rolled_back(log@.records_below(i as int)) == old(self)@.rolled_back(
                    log@.records(),
                ),
            decreases i,
        {
            i = i - 1;
            assert(log@.readable_in(i as int));
            let ghost rest = log@.records_below(i as int);
            match self.next_undo(log, i) {
                Some((op, original)) => {
                    let ghost record = LogRecord { op, original: original@ };
                    assert(rest.push(record).drop_last() =~= rest);
                    self.undo(op, original.as_slice());
                },
                None => {
                    proof {
                        if let Some(record) = log@.record_in(i as int) {
                            assert(rest.push(record).drop_last() =~= rest);
                        }
                    }
                },
            }
        }
    }

    /// The record in a slot of the log, where it concerns this pool.
    fn next_undo(&self, log: &Pool, slot: usize) -> (record: Option<(LoggedOperation, Vec<u8>)>)
        requires
            self.wf(),
            log.wf(),
            slot < MAX_OBJECT_ENTRIES,
            log@.readable_in(slot as int),
            self@.takes_from(log@),
        ensures
            match record {
                Some((op, original)) => {
                    let found = LogRecord { op, original: original@ };
                    &&& log@.record_in(slot as int) == Some(found)
                    &&& self@.takes(found)
                    &&& op.pool_base_address == self.base_address
                },
                None => match log@.record_in(slot as int) {
                    Some(found) => found.op.pool_base_address != self.base_address,
                    None => true,
                },
            },
    {
        match log.record(slot) {
            Some((op, original)) => {
                if op.pool_base_address == self.base_address {
                    Some((op, original))
                } else {
                    None
                }
            },
            None => None,
        }
    }

    /// Tests whether every record of a log pool can be read.
    pub fn is_readable(&self) -> (ok: bool)
        requires
            self.wf(),
        ensures
            ok == self@.readable(),
    {
        let mut i: usize = 0;
        while i < MAX_OBJECT_ENTRIES
            invariant
                i <= MAX_OBJECT_ENTRIES,
                self.wf(),
                forall|j: int| 0 <= j < i ==> #[trigger] self@.readable_in(j),
            decreases MAX_OBJECT_ENTRIES - i,
        {
            if !self.is_readable_in(i) {
                assert(!self@.readable_in(i as int));
                return false;
            }
            i = i + 1;
        }
        true
    }

    fn is_readable_in(&self, slot: usize) -> (ok: bool)
        requires
            self.wf(),
            slot < MAX_OBJECT_ENTRIES,
        ensures
            ok == self@.readable_in(slot as int),
    {
        let entry: ObjectTableEntry = self.object_table[slot];
        assert(self@.table[slot as int] == entry@);
        if entry.active && entry.valid {
            if let Some(address) = entry.data {
                if !self.is_held(address, LOGGED_OPERATION_SIZE) {
                    return false;
                }
                let bytes: Vec<u8> = self.read(address, LOGGED_OPERATION_SIZE);
                return match LoggedOperation::decode(bytes.as_slice()) {
                    Some(op) => self.is_held(address + LOGGED_OPERATION_SIZE as u64, op.data_size),
                    None => false,
                };
            }
        }
        true
    }

    /// Tests whether undoing any record of the log writes only to memory of this pool.
    pub fn is_taking_from(&self, log: &Pool) -> (ok: bool)
        requires
            self.wf(),
            log.wf(),
            log@.readable(),
        ensures
            ok == self@.takes_from(log@),
    {
        let mut i: usize = 0;
        while i < MAX_OBJECT_ENTRIES
            invariant
                i <= MAX_OBJECT_ENTRIES,
                self.wf(),
                log.wf(),
                log@.readable(),
                forall|j: int| 0 <= j < i ==> match #[trigger] log@.record_in(j) {
                    Some(record) => self@.takes(record),
                    None => true,
                },
            decreases MAX_OBJECT_ENTRIES - i,
        {
            assert(log@.readable_in(i as int));
            if let Some((op, original)) = log.record(i) {
                if op.pool_base_address == self.base_address {
                    if let OperationType::Modification = op.op_type {
                        if !self.is_held(op.absolute_address, original.len()) {
                            assert(!self@.takes(log@.record_in(i as int)->Some_0));
                            return false;
                        }
                    }
                }
            }
            i = i + 1;
        }
        true
    }

    /// The object table as it would be after [`Pool::perform_rollback`].
    pub(crate) fn rolled_back_table(&self, log: &Pool) -> (table: Vec<ObjectTableEntry>)
        requires
            self.wf(),
            log.wf(),
            log@.readable(),
            self@.takes_from(log@),
        ensures
            crate::table::entries(table@) == self@.rolled_back(log@.records()).table,
    {
        let mut table: Vec<ObjectTableEntry> = copy_table(&self.object_table);
        let ghost mut now = self@;
        assert(crate::table::entries(table@) =~= now.table);
        let mut i: usize = MAX_OBJECT_ENTRIES;
        while i > 0
            invariant
                i <= MAX_OBJECT_ENTRIES,
                self.wf(),
                log.wf(),
                log@.readable(),
                self@.takes_from(log@),
                now.base == self.base_address,
                crate::table::entries(table@) == now.table,
                now.rolled_back(log@.records_below(i as int)) == self@.rolled_back(log@.records()),
            decreases i,
        {
            i = i - 1;
            assert(log@.readable_in(i as int));
            let ghost rest = log@.records_below(i as int);
            match self.next_undo(log, i) {
                Some((op, original)) => {
                    let ghost record = LogRecord { op, original: original@ };
                    assert(rest.push(record).drop_last() =~= rest);
                    undo_flags(&mut table, op);
                    proof {
                        now = now.undone(record);
                    }
                },
                None => {
                    proof {
                        if let Some(record) = log@.record_in(i as int) {
                            assert(rest.push(record).drop_last() =~= rest);
                        }
                    }
                },
            }
        }
        table
    }

    /// Blanks all slots and zeroes the memory.
    pub fn empty_pool(&mut self)
        requires
            old(self).wf(),
        ensures
            final(self).wf(),
            final(self)@ == old(self)@.emptied(),
            final(self).same_frame(*old(self)),
            final(self).heap == old(self).heap,
            forall|i: int| 0 <= i < MAX_OBJECT_ENTRIES ==> (
            #[trigger] final(self).object_table@[i]).id@ == Seq::new(32, |k: int| 0u8),
    {
        let mut i: usize = 0;
        while i < MAX_OBJECT_ENTRIES
            invariant
                i <= MAX_OBJECT_ENTRIES,
                self.wf(),
                self.same_frame(*old(self)),
                self.heap == old(self).heap,
                forall|j: int| 0 <= j < i ==> {
                    &&& (#[trigger] self.object_table@[j])@ == EntryView::blank()
                    &&& self.object_table@[j].id@ == Seq::new(32, |k: int| 0u8)
                },
            decreases MAX_OBJECT_ENTRIES - i,
        {
            self.set_entry(i, ObjectTableEntry::empty());
            i = i + 1;
        }
        assert(self@.table =~= old(self)@.emptied().table);
        self.zero_memory();
    }

    fn zero_memory(&mut self)
        requires
            old(self).wf(),
        ensures
            final(self).wf(),
            final(self).object_table == old(self).object_table,
            final(self).same_frame(*old(self)),
            final(self).heap == old(self).heap,
            final(self).memory@ == Seq::new(old(self).memory@.len(), |i: int| 0u8),
    {
        let mut i: usize = 0;
        while i < self.memory.len()
            invariant
                i <= self.memory.len(),
                self.wf(),
                self.object_table == old(self).object_table,
                self.same_frame(*old(self)),
                self.heap == old(self).heap,
                forall|j: int| 0 <= j < i ==> self.memory@[j] == 0,
            decreases self.memory.len() - i,
        {
            self.memory[i] = 0;
            i = i + 1;
        }
        assert(self.memory@ =~= Seq::new(old(self).memory@.len(), |i: int| 0u8));
    }

    /// Empties the log pool after a transaction or a rollback. `fresh` is a heap over its memory
    /// in which nothing is allocated.
    pub fn empty_log_pool(&mut self, fresh: Heap)
        requires
            old(self).wf(),
        ensures
            final(self).wf(),
            final(self)@ == old(self)@.emptied(),
            final(self).same_frame(*old(self)),
            final(self).heap == fresh,
            forall|i: int| 0 <= i < MAX_OBJECT_ENTRIES ==> (
            #[trigger] final(self).object_table@[i]).id@ == Seq::new(32, |k: int| 0u8),
    {
        self.empty_pool();
        self.heap = fresh;
    }

    /// Enters an operation in the first free slot of this log pool, with the original bytes
    /// where there are any. Returns the slot and the address of the record.
    pub fn append(&mut self, op: LoggedOperation, original: &[u8]) -> (placed: Result<
        (usize, u64),
        PoolError,
    >)
        requires
            old(self).wf(),
            old(self).served(),
            original@.len() == 0 || original@.len() == op.data_size,
            op.data_size <= isize::MAX,
            old(self).base_address + old(self).header.size + 32 <= usize::MAX,
        ensures
            final(self).wf(),
            final(self).served(),
            final(self).same_frame(*old(self)),
            final(self).answered(*old(self), op, original@, placed),
    {
        proof { crate::layout::lemma_layout_alignments(); }
        let size: usize = LOGGED_OPERATION_SIZE + op.data_size;
        let slot: usize = match find_inactive(&self.object_table) {
            Some(slot) => slot,
            None => {
                return Err(PoolError::ObjectTableFull);
            },
        };
        proof { crate::table::lemma_find(Probe::Inactive, self@.table); }
        if size > isize::MAX as usize - 7 {
            return Err(PoolError::LayoutError);
        }
        let address: u64 = match crate::heap::allocate_first_fit(&mut self.heap, size, 8) {
            Some(address) => address,
            None => {
                return Err(PoolError::LogPoolFull);
            },
        };
        proof { crate::heap::lemma_block_len(size as int); }
        let mut entry: ObjectTableEntry = self.object_table[slot];
        entry.active = true;
        entry.valid = true;
        entry.data = Some(address);
        entry.type_size = size;
        self.set_entry(slot, entry);
        let encoded: Vec<u8> = op.encode();
        self.write(address, encoded.as_slice());
        self.write(address + LOGGED_OPERATION_SIZE as u64, original);
        Ok((slot, address))
    }

    /// Why this log pool takes no record of an operation: it has no free slot, there is no
    /// layout for a record of that size, or the heap has no room for it.
    pub open spec fn refuses(self, op: LoggedOperation, error: PoolError) -> bool {
        match error {
            PoolError::ObjectTableFull => Probe::Inactive.find(self@.table) is None,
            PoolError::LayoutError => {
                &&& Probe::Inactive.find(self@.table) is Some
                &&& op.data_size > isize::MAX - 47
            },
            PoolError::LogPoolFull => {
                &&& Probe::Inactive.find(self@.table) is Some
                &&& op.data_size <= isize::MAX - 47
                &&& self.no_room(40 + op.data_size, 8)
            },
            _ => false,
        }
    }

    /// What [`Pool::append`] does.
    pub open spec fn answered(
        self,
        before: Pool,
        op: LoggedOperation,
        original: Seq<u8>,
        placed: Result<(usize, u64), PoolError>,
    ) -> bool {
        match placed {
            Ok((slot, address)) => self.extends_at(before, op, original, slot as int, address),
            Err(error) => {
                &&& self@ == before@
                &&& self.kept_heap(before)
                &&& before.refuses(op, error)
            },
        }
    }

    /// The log pool is `before` with one more record.
    pub open spec fn extends(self, before: Pool, op: LoggedOperation, original: Seq<u8>) -> bool {
        exists|slot: int, address: u64|
            #[trigger] self.extends_at(before, op, original, slot, address)
    }

    /// The log pool is `before` with one more record, in the first free slot.
    pub open spec fn extends_at(
        self,
        before: Pool,
        op: LoggedOperation,
        original: Seq<u8>,
        slot: int,
        address: u64,
    ) -> bool {
        &&& Probe::Inactive.find(before@.table) == Some(slot)
        &&& self@ == before@.appended(slot, address, op, original)
        &&& self.took_block(before, address, 40 + op.data_size, 8)
    }

    /// The slots in use, with the addresses of their objects, in slot order.
    pub fn active_entries(&self) -> (active: Vec<(usize, Option<u64>)>)
        requires
            self.wf(),
        ensures
            active@ == active_in(self@.table),
    {
        let mut active: Vec<(usize, Option<u64>)> = Vec::new();
        let ghost table = self@.table;
        let mut i: usize = 0;
        while i < MAX_OBJECT_ENTRIES
            invariant
                i <= MAX_OBJECT_ENTRIES,
                self.wf(),
                table == self@.table,
                active@ == active_in(table.take(i as int)),
            decreases MAX_OBJECT_ENTRIES - i,
        {
            assert(table.take(i + 1).drop_last() =~= table.take(i as int));
            if self.object_table[i].active {
                active.push((i, self.object_table[i].data));
            }
            i = i + 1;
        }
        assert(table.take(i as int) =~= table);
        active
    }

    /// Whether there is a log pool.
    pub fn is_log_pool_initialized(log_pool: &Option<Pool>) -> (initialized: bool)
        ensures
            initialized == (*log_pool is Some),
    {
        log_pool.is_some()
    }

    /// The heap handed out the block at `address` for `size` bytes, and nothing else: the first
    /// one that fits.
    pub open spec fn took_block(self, before: Pool, address: u64, size: int, align: int) -> bool {
        let free = crate::heap::heap_free(before.heap);
        let block = crate::heap::span(address as int, crate::heap::block_len(size));
        &&& self@.holds(address as int, size)
        &&& address > 0
        &&& address as int % align == 0
        &&& block.subset_of(free)
        &&& crate::heap::first_fit(free, address as int, size, align)
        &&& crate::heap::heap_free(self.heap) == free.difference(block)
    }

    /// The heap handed out nothing.
    pub open spec fn kept_heap(self, before: Pool) -> bool {
        crate::heap::heap_free(self.heap) == crate::heap::heap_free(before.heap)
    }

    /// The heap has no free memory in which `size` bytes surely fit.
    pub open spec fn no_room(self, size: int, align: int) -> bool {
        crate::heap::no_fit(crate::heap::heap_free(self.heap), size, align)
    }
}

fn copy_table(table: &Vec<ObjectTableEntry>) -> (copy: Vec<ObjectTableEntry>)
    ensures
        copy@ == table@,
{
    let mut copy: Vec<ObjectTableEntry> = Vec::new();
    let mut i: usize = 0;
    while i < table.len()
        invariant
            i <= table.len(),
            copy@ == table@.take(i as int),
        decreases table.len() - i,
    {
        copy.push(table[i]);
        i = i + 1;
        assert(copy@ =~= table@.take(i as int));
    }
    assert(copy@ =~= table@);
    copy
}

fn flag_slot(table: &mut Vec<ObjectTableEntry>, slot: usize, valid: bool)
    requires
        slot < old(table)@.len(),
    ensures
        crate::table::entries(final(table)@) == crate::table::entries(old(table)@).update(
            slot as int,
            crate::table::entries(old(table)@)[slot as int].flagged(true, valid, valid),
        ),
{
    let mut entry: ObjectTableEntry = table[slot];
    entry.active = true;
    entry.valid = valid;
    entry.operation_done = valid;
    table[slot] = entry;
    assert(crate::table::entries(table@) =~= crate::table::entries(old(table)@).update(
        slot as int,
        crate::table::entries(old(table)@)[slot as int].flagged(true, valid, valid),
    ));
}

/// Does to a table what undoing a logged operation does to the table of its pool.
fn undo_flags(table: &mut Vec<ObjectTableEntry>, op: LoggedOperation)
    ensures
        forall|pool: PoolView, original: Seq<u8>|
            pool.table == crate::table::entries(old(table)@) ==> #[trigger] pool.undone(
                LogRecord { op, original },
            ).table == crate::table::entries(final(table)@),
{
    match op.op_type {
        OperationType::Allocation => {
            if let Some(slot) = find_at(table, op.absolute_address) {
                flag_slot(table, slot, false);
            }
        },
        OperationType::Modification => {
            if let Some(slot) = find_at(table, op.absolute_address) {
                flag_slot(table, slot, true);
            }
        },
        OperationType::Deallocation => {
            if let Some(slot) = find_dropped(table) {
                flag_slot(table, slot, true);
            }
        },
    }
}

/// Tests whether recovery of every slot knows the block that it gives back.
pub(crate) fn is_recoverable(table: &Vec<ObjectTableEntry>) -> (ok: bool)
    ensures
        ok == crate::image::recoverable_in(crate::table::entries(table@)),
{
    let ghost all = crate::table::entries(table@);
    let mut i: usize = 0;
    while i < table.len()
        invariant
            i <= table.len(),
            all == crate::table::entries(table@),
            forall|j: int| #![trigger all[j]]
                0 <= j < i && all[j].discarded() ==> {
                    &&& !all[j].active ==> all[j].data is Some
                    &&& all[j].data is Some ==> all[j].type_size <= isize::MAX - 63
                },
        decreases table.len() - i,
    {
        let entry: ObjectTableEntry = table[i];
        assert(all[i as int] == entry@);
        let discarded: bool = if entry.active {
            !entry.valid && !entry.operation_done
        } else {
            entry.operation_done
        };
        if discarded {
            if entry.data.is_none() {
                if !entry.active {
                    return false;
                }
            } else if entry.type_size > isize::MAX as usize - 63 {
                return false;
            }
        }
        i = i + 1;
    }
    true
}

/// The slots in use of a table, with the addresses of their objects, in slot order.
pub open spec fn active_in(table: Seq<EntryView>) -> Seq<(usize, Option<u64>)>
    decreases table.len(),
{
    if table.len() == 0 {
        Seq::empty()
    } else {
        let rest = active_in(table.drop_last());
        if table.last().active {
            rest.push(((table.len() - 1) as usize, table.last().data))
        } else {
            rest
        }
    }
}

/// The identifier that marks the log pool.
pub fn log_pool_name() -> (name: [u8; 7])
    ensures
        name@ == crate::image::log_pool_id(),
{
    let name: [u8; 7] = [95, 95, 76, 79, 71, 95, 95];
    assert(name@ =~= crate::image::log_pool_id());
    name
}

} // verus!
