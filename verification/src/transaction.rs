//! Transactions on a pool.

use crate::image::{LogRecord, PoolView};
use crate::layout::MAX_OBJECT_ENTRIES;
use crate::oplog::{LoggedOperation, OperationType};
use crate::pool::{log_pool_name, Pool, PoolError};
use crate::table::{
    find_free, find_live, find_live_at, EntryView, FreedBlock, ObjectTableEntry, Probe,
};
use vstd::prelude::*;
use vstd::slice::slice_to_vec;
use vstd::string::*;

verus! {

/// What is known of the type of an object.
#[derive(Clone, Copy, Debug, PartialEq, Eq)]
pub struct TypeInfo {
    pub name: &'static str,
    pub size: usize,
    pub align: usize,
}

/// A change that becomes visible when the transaction commits.
#[derive(Clone, Copy, PartialEq, Eq, Structural, Debug)]
pub struct PendingChange {
    /// Slot of the object.
    pub entry: usize,
    /// Address of the object.
    pub data_ptr: u64,
}

/// A running transaction.
pub struct TransactionContext {
    pub pool: Pool,
    pub log_pool: Option<Pool>,
    pub pending_changes: Vec<PendingChange>,
    /// The pool as the transaction found it.
    pub started: Ghost<PoolView>,
}

/// The hash of a type name: 5381 at first, then times 33 plus the next byte.
pub open spec fn type_hash(name: Seq<u8>) -> u64
    decreases name.len(),
{
    if name.len() == 0 {
        5381
    } else {
        ((type_hash(name.drop_last()) * 33 + name.last()) % 0x1_0000_0000_0000_0000) as u64
    }
}

/// Hash by which objects of different types are told apart.
pub fn compute_type_hash(name: &str) -> (hash: u64)
    ensures
        hash == type_hash(name.spec_bytes()),
{
    let bytes: &[u8] = name.as_bytes();
    let mut hash: u64 = 5381;
    let mut i: usize = 0;
    while i < bytes.len()
        invariant
            i <= bytes@.len(),
            bytes@ == name.spec_bytes(),
            hash == type_hash(bytes@.take(i as int)),
        decreases bytes.len() - i,
    {
        let byte: u64 = bytes[i] as u64;
        proof {
            assert(hash << 5 == (hash * 32) % 0x1_0000_0000_0000_0000) by (bit_vector);
            assert(bytes@.take(i + 1).drop_last() =~= bytes@.take(i as int));
        }
        hash = ((hash << 5).wrapping_add(hash)).wrapping_add(byte);
        i = i + 1;
    }
    assert(bytes@.take(i as int) =~= bytes@);
    hash
}

/// Every byte of a type name counts: one more byte makes the hash 33 times what it was, and the
/// byte more, in 64 bits. A name without bytes has the hash 5381.
pub proof fn law_type_hash_takes_every_byte(name: Seq<u8>, byte: u8)
    ensures
        type_hash(Seq::empty()) == 5381,
        type_hash(name.push(byte)) as int == (33 * type_hash(name) + byte) % 0x1_0000_0000_0000_0000,
{
    assert(name.push(byte).drop_last() =~= name);
    assert(name.push(byte).last() == byte);
    assert(0 <= (type_hash(name) * 33 + byte) % 0x1_0000_0000_0000_0000 <= u64::MAX);
}

/// Names that differ in their last byte alone have different hashes.
pub proof fn law_last_byte_tells_types_apart(name: Seq<u8>, a: u8, b: u8)
    requires
        a != b,
    ensures
        type_hash(name.push(a)) != type_hash(name.push(b)),
{
    law_type_hash_takes_every_byte(name, a);
    law_type_hash_takes_every_byte(name, b);
    let hash = type_hash(name) as int;
    let modulus = 0x1_0000_0000_0000_0000int;
    if (33 * hash + a) % modulus == (33 * hash + b) % modulus {
        vstd::arithmetic::div_mod::lemma_fundamental_div_mod(33 * hash + a, modulus);
        vstd::arithmetic::div_mod::lemma_fundamental_div_mod(33 * hash + b, modulus);
        let p = (33 * hash + a) / modulus;
        let q = (33 * hash + b) / modulus;
        assert(a - b == modulus * p - modulus * q);
        assert(modulus * p - modulus * q == modulus * (p - q)) by (nonlinear_arith);
        assert(p == q);
    }
}

/// The hash of a type is that of all the bytes of its name: a type whose name is that of another
/// with one more byte has the hash that follows from the other.
pub proof fn law_types_are_told_by_their_names(shorter: TypeInfo, longer: TypeInfo, byte: u8)
    ensures
        shorter.name.spec_bytes().len() == 0 ==> shorter.hash() == 5381,
        longer.name.spec_bytes() == shorter.name.spec_bytes().push(byte) ==> longer.hash() as int
            == (33 * shorter.hash() + byte) % 0x1_0000_0000_0000_0000,
        longer.name.spec_bytes() == shorter.name.spec_bytes() ==> longer.hash() == shorter.hash(),
{
    law_type_hash_takes_every_byte(shorter.name.spec_bytes(), byte);
    if shorter.name.spec_bytes().len() == 0 {
        assert(shorter.name.spec_bytes() =~= Seq::empty());
    }
}

/// What entering an operation in the log did. Where there is no log pool to write to, it is
/// `LogPoolNotAvailable`; otherwise the log pool has one more record, or stays and says why.
pub open spec fn log_step(
    before: Option<Pool>,
    after: Option<Pool>,
    available: bool,
    op: LoggedOperation,
    original: Seq<u8>,
    result: Result<(), PoolError>,
) -> bool {
    match result {
        Ok(()) => {
            &&& available
            &&& before is Some
            &&& after is Some
            &&& after->Some_0.extends(before->Some_0, op, original)
            &&& after->Some_0.same_frame(before->Some_0)
        },
        Err(error) => {
            &&& log_kept(before, after)
            &&& if available {
                before is Some && before->Some_0.refuses(op, error)
            } else {
                error is LogPoolNotAvailable
            }
        },
    }
}

/// The log pool holds what it held.
pub open spec fn log_kept(before: Option<Pool>, after: Option<Pool>) -> bool {
    match before {
        Some(log) => {
            &&& after is Some
            &&& after->Some_0@ == log@
            &&& after->Some_0.same_frame(log)
            &&& after->Some_0.kept_heap(log)
        },
        None => after is None,
    }
}

/// A log pool that records can be written to.
pub open spec fn log_wf(log_pool: Option<Pool>) -> bool {
    match log_pool {
        Some(log) => {
            &&& log.wf()
            &&& log.served()
            &&& log.base_address + log.header.size + 32 <= usize::MAX
        },
        None => true,
    }
}

/// Slot of the first pending change of the object at the address.
pub open spec fn pending_slot(pending: Seq<PendingChange>, address: u64) -> Option<int>
    decreases pending.len(),
{
    if pending.len() == 0 {
        None
    } else {
        match pending_slot(pending.drop_last(), address) {
            Some(slot) => Some(slot),
            None => if pending.last().data_ptr == address {
                Some(pending.last().entry as int)
            } else {
                None
            },
        }
    }
}

/// The slot has a pending change.
pub open spec fn is_pending(pending: Seq<PendingChange>, slot: int) -> bool {
    exists|k: int| 0 <= k < pending.len() && (#[trigger] pending[k]).entry == slot
}

/// The pending changes with one more, unless the slot has one already.
pub open spec fn with_pending(pending: Seq<PendingChange>, slot: int, address: u64) -> Seq<
    PendingChange,
> {
    if is_pending(pending, slot) {
        pending
    } else {
        pending.push(PendingChange { entry: slot as usize, data_ptr: address })
    }
}

/// The pending changes without those of a slot.
pub open spec fn without_pending(pending: Seq<PendingChange>, slot: int) -> Seq<PendingChange>
    decreases pending.len(),
{
    if pending.len() == 0 {
        Seq::empty()
    } else if pending.last().entry == slot {
        without_pending(pending.drop_last(), slot)
    } else {
        without_pending(pending.drop_last(), slot).push(pending.last())
    }
}

impl TypeInfo {
    /// The hash of the type name.
    pub open spec fn hash(self) -> u64 {
        type_hash(self.name.spec_bytes())
    }

    /// Size and alignment are those of a type.
    pub open spec fn wf(self) -> bool {
        crate::heap::is_layout(self.size as int, self.align as int)
    }
}

/// Every pending change is that of an object in use, and every object that is finished but not
/// valid yet has a pending change.
pub open spec fn pending_wf(table: Seq<EntryView>, pending: Seq<PendingChange>) -> bool {
    &&& forall|k: int| #![trigger pending[k]]
        0 <= k < pending.len() ==> {
            &&& pending[k].entry < MAX_OBJECT_ENTRIES
            &&& table[pending[k].entry as int].active
            &&& table[pending[k].entry as int].data == Some(pending[k].data_ptr)
        }
    &&& forall|i: int| #![trigger table[i]]
        0 <= i < table.len() && table[i].active && !table[i].valid && table[i].done ==> is_pending(
            pending,
            i,
        )
}

impl TransactionContext {
    /// Pool, log pool and pending changes fit together.
    pub open spec fn wf(self) -> bool {
        &&& self.pool.wf()
        &&& self.pool.served()
        &&& log_wf(self.log_pool)
        &&& pending_wf(self.pool@.table, self.pending_changes@)
    }

    /// The slot holds an object: a live one, or one that this transaction stored.
    pub open spec fn has_object(self, slot: int) -> bool {
        self.pool@.table[slot].active && (self.pool@.table[slot].valid || is_pending(
            self.pending_changes@,
            slot,
        ))
    }

    /// No two objects have the same identifier.
    pub open spec fn ids_unique(self) -> bool {
        forall|i: int, j: int| #![trigger self.pool@.table[i], self.pool@.table[j]]
            0 <= i < j < self.pool@.table.len() && self.has_object(i) && self.has_object(j)
                ==> self.pool@.table[i].id != self.pool@.table[j].id
    }

    /// The memory of the pool is in order.
    pub open spec fn tidy(self) -> bool {
        self.pool@.tidy(crate::heap::heap_free(self.pool.heap))
    }

    /// The address space behind the pool has room for an alignment gap.
    pub open spec fn can_align(self, align: usize) -> bool {
        self.pool.base_address + self.pool.header.size + align + 32 <= usize::MAX
    }

    /// There is a log pool, and the pool is not marked as one itself.
    pub open spec fn logging(self) -> bool {
        self.log_pool is Some && !self.pool@.marked_as_log()
    }

    /// The records of the log.
    pub open spec fn records(self) -> Seq<LogRecord> {
        self.log_pool->Some_0@.records()
    }

    /// The log leads back to the pool as the transaction found it.
    pub open spec fn can_roll_back(self) -> bool {
        &&& self.logging()
        &&& self.log_pool->Some_0@.is_journal(
            crate::heap::heap_free(self.log_pool->Some_0.heap),
        )
        &&& crate::undo::reversible(
            self.started@,
            self.pool@,
            self.records(),
            crate::heap::heap_free(self.pool.heap),
        )
        &&& forall|k: int| #![trigger self.pending_changes@[k]]
            0 <= k < self.pending_changes@.len() ==> {
                let slot = self.pending_changes@[k].entry as int;
                self.started@.table[slot].live() || self.pool@.fresh(self.records(), slot)
            }
    }

    /// Slot of the object at the address: that of a live object, or else of a pending change.
    pub open spec fn slot_of(self, address: u64) -> Option<int> {
        match Probe::LiveAt(address).find(self.pool@.table) {
            Some(slot) => Some(slot),
            None => pending_slot(self.pending_changes@, address),
        }
    }

    /// An operation on an object of the pool.
    pub open spec fn operation(
        self,
        op_type: OperationType,
        address: u64,
        size: usize,
        hash: u64,
    ) -> LoggedOperation {
        LoggedOperation {
            op_type,
            pool_base_address: self.pool.base_address,
            absolute_address: address,
            data_size: size,
            type_hash: hash,
        }
    }

    /// Enters an operation on an object in the log, with the original bytes where there are
    /// any.
    fn log_operation(
        &mut self,
        op_type: OperationType,
        address: u64,
        original: &[u8],
        size: usize,
        type_hash: u64,
    ) -> (result: Result<(), PoolError>)
        requires
            old(self).wf(),
            size <= isize::MAX,
            original@.len() == 0 || original@.len() == size,
        ensures
            final(self).wf(),
            final(self).pool == old(self).pool,
            final(self).pending_changes == old(self).pending_changes,
            final(self).started == old(self).started,
            log_step(
                old(self).log_pool,
                final(self).log_pool,
                old(self).logging(),
                old(self).operation(op_type, address, size, type_hash),
                original@,
                result,
            ),
    {
        if self.pool.is_log_pool() {
            return Err(PoolError::LogPoolNotAvailable);
        }
        let op: LoggedOperation = LoggedOperation {
            op_type,
            pool_base_address: self.pool.base_address,
            absolute_address: address,
            data_size: size,
            type_hash,
        };
        match &mut self.log_pool {
            Some(log) => match log.append(op, original) {
                Ok((slot, at)) => {
                    assert(log.extends_at(
                        old(self).log_pool->Some_0,
                        op,
                        original@,
                        slot as int,
                        at,
                    ));
                    Ok(())
                },
                Err(error) => Err(error),
            },
            None => Err(PoolError::LogPoolNotAvailable),
        }
    }
}

/// A log in good order that was extended is in good order, and has the record at its end.
proof fn lemma_extended(
    before: Pool,
    after: Pool,
    op: LoggedOperation,
    original: Seq<u8>,
) -> (record: LogRecord)
    requires
        before@.is_journal(crate::heap::heap_free(before.heap)),
        after.extends(before, op, original),
        after.same_frame(before),
        original.len() == 0 || original.len() == op.data_size,
    ensures
        after@.is_journal(crate::heap::heap_free(after.heap)),
        after@.records() == before@.records().push(record),
        record.op == op,
        original.len() == op.data_size ==> record.original == original,
{
    let (slot, address) = choose|slot: int, address: u64|
        #[trigger] after.extends_at(before, op, original, slot, address);
    let free = crate::heap::heap_free(before.heap);
    let size = 40 + op.data_size;
    crate::heap::lemma_block_len(size);
    let block = crate::heap::span(address as int, crate::heap::block_len(size));
    assert(crate::heap::span(address as int, size).subset_of(free)) by {
        assert forall|x: int| crate::heap::span(address as int, size).contains(x) implies
            #[trigger] free.contains(x) by {
            assert(block.contains(x));
        }
    }
    crate::journal::law_append_is_push(before@, free, slot, address, op, original);
    assert forall|i: int| #![trigger after@.table[i]]
        0 <= i < after@.table.len() && after@.table[i].active implies after@.recorded(
        i,
        crate::heap::heap_free(after.heap),
    ) by {
        assert(after@.recorded(
            i,
            free.difference(crate::heap::span(address as int, size)),
        ));
        let entry = after@.table[i];
        assert forall|x: int|
            entry.data->Some_0 <= x < entry.data->Some_0 + 40
                + after@.record_in(i)->Some_0.op.data_size implies !#[trigger] crate::heap::heap_free(
            after.heap,
        ).contains(x) by {
            assert(!free.difference(crate::heap::span(address as int, size)).contains(x));
            if crate::heap::span(address as int, size).contains(x) {
                assert(block.contains(x));
            }
        }
    }
    before@.new_record(address, op, original)
}

/// What the log has allocated stays allocated when a record is added.
proof fn lemma_fresh_pushed(pool: PoolView, records: Seq<LogRecord>, record: LogRecord, slot: int)
    requires
        pool.fresh(records, slot),
    ensures
        pool.fresh(records.push(record), slot),
{
    let all = records.push(record);
    let address = pool.table[slot].data->Some_0;
    let k = choose|k: int| #![trigger records[k]]
        0 <= k < records.len() && records[k].op.op_type is Allocation
            && records[k].op.absolute_address == address;
    assert(all[k] == records[k]);
}

/// The first pending change of an address is one of the pending changes.
pub proof fn lemma_pending_slot(pending: Seq<PendingChange>, address: u64)
    ensures
        pending_slot(pending, address) matches Some(slot) ==> exists|k: int|
            0 <= k < pending.len() && (#[trigger] pending[k]).entry == slot && pending[k].data_ptr
                == address,
    decreases pending.len(),
{
    if pending.len() > 0 {
        let rest = pending.drop_last();
        lemma_pending_slot(rest, address);
        match pending_slot(rest, address) {
            Some(slot) => {
                let k = choose|k: int|
                    0 <= k < rest.len() && (#[trigger] rest[k]).entry == slot && rest[k].data_ptr
                        == address;
                assert(pending[k] == rest[k]);
            },
            None => {
                assert(pending[pending.len() - 1] == pending.last());
            },
        }
    }
}

/// What is left of the pending changes was there before, and is of other slots.
pub proof fn lemma_without_pending(pending: Seq<PendingChange>, slot: int, k: int)
    requires
        0 <= k < without_pending(pending, slot).len(),
    ensures
        without_pending(pending, slot)[k].entry != slot,
        exists|j: int|
            0 <= j < pending.len() && #[trigger] pending[j] == without_pending(pending, slot)[k],
    decreases pending.len(),
{
    if pending.len() > 0 {
        let rest = pending.drop_last();
        let left = without_pending(rest, slot);
        if k < left.len() {
            lemma_without_pending(rest, slot, k);
            let j = choose|j: int| 0 <= j < rest.len() && #[trigger] rest[j] == left[k];
            assert(pending[j] == left[k]);
        } else {
            assert(pending[pending.len() - 1] == pending.last());
        }
    }
}

/// Pending changes of other slots are left.
pub proof fn lemma_still_pending(pending: Seq<PendingChange>, slot: int, i: int)
    requires
        is_pending(pending, i),
        i != slot,
    ensures
        is_pending(without_pending(pending, slot), i),
    decreases pending.len(),
{
    let rest = pending.drop_last();
    let left = without_pending(rest, slot);
    let all = without_pending(pending, slot);
    let k = choose|k: int| 0 <= k < pending.len() && (#[trigger] pending[k]).entry == i;
    if k < rest.len() {
        assert(rest[k].entry == i);
        lemma_still_pending(rest, slot, i);
        let j = choose|j: int| 0 <= j < left.len() && (#[trigger] left[j]).entry == i;
        assert(all[j].entry == i);
    } else {
        assert(all[all.len() - 1].entry == i);
    }
}

/// Pending changes stay when one is added.
pub proof fn lemma_pending_pushed(pending: Seq<PendingChange>, change: PendingChange)
    ensures
        is_pending(pending.push(change), change.entry as int),
        forall|i: int| is_pending(pending, i) ==> #[trigger] is_pending(pending.push(change), i),
{
    let all = pending.push(change);
    assert(all[pending.len() as int].entry == change.entry);
    assert forall|i: int| is_pending(pending, i) implies #[trigger] is_pending(all, i) by {
        let k = choose|k: int| 0 <= k < pending.len() && (#[trigger] pending[k]).entry == i;
        assert(all[k].entry == i);
    }
}

impl TransactionContext {
    /// What [`TransactionContext::modify`] does.
    pub open spec fn modified(
        self,
        before: Self,
        address: u64,
        ty: TypeInfo,
        data: Seq<u8>,
        result: Result<(), PoolError>,
    ) -> bool {
        match before.slot_of(address) {
            None => result matches Err(PoolError::InvalidId) && self == before,
            Some(slot) => {
                let entry = before.pool@.table[slot];
                &&& self.started == before.started
                &&& self.pool.same_frame(before.pool)
                &&& self.pool.heap == before.pool.heap
                &&& log_step(
                    before.log_pool,
                    self.log_pool,
                    before.logging(),
                    before.operation(OperationType::Modification, address, ty.size, ty.hash()),
                    before.pool@.bytes(address as int, ty.size as int),
                    result,
                )
                &&& match result {
                    Ok(()) => {
                        &&& self.pool@ == before.pool@.written(address as int, data).flagged(
                            slot,
                            entry.active,
                            entry.valid,
                            true,
                        )
                        &&& self.pending_changes@ == with_pending(
                            before.pending_changes@,
                            slot,
                            address,
                        )
                    },
                    Err(_) => {
                        &&& self.pool@ == before.pool@.flagged(
                            slot,
                            entry.active,
                            entry.valid,
                            false,
                        )
                        &&& self.pending_changes == before.pending_changes
                    },
                }
            },
        }
    }

    /// What [`TransactionContext::modify_with`] does.
    pub open spec fn modified_by<F: FnOnce(Vec<u8>) -> Vec<u8>>(
        self,
        before: Self,
        address: u64,
        ty: TypeInfo,
        change: F,
        result: Result<(), PoolError>,
    ) -> bool {
        match result {
            Ok(()) => exists|original: Vec<u8>, changed: Vec<u8>|
                {
                    &&& #[trigger] call_ensures(change, (original,), changed)
                    &&& original@ == before.pool@.bytes(address as int, ty.size as int)
                    &&& self.modified(before, address, ty, changed@, result)
                },
            Err(_) => self.modified(before, address, ty, Seq::empty(), result),
        }
    }

    /// There is an object of these bytes at the address, and a change of it can be logged.
    pub open spec fn changes(self, address: u64, ty: TypeInfo, original: Seq<u8>) -> bool {
        &&& self.slot_of(address) is Some
        &&& self.logging()
        &&& original == self.pool@.bytes(address as int, ty.size as int)
        &&& exists|log: Option<Pool>| #[trigger]
            log_step(
                self.log_pool,
                log,
                true,
                self.operation(OperationType::Modification, address, ty.size, ty.hash()),
                original,
                Ok(()),
            )
    }

    /// Replaces the bytes of the object at an address. The change is logged, and becomes
    /// permanent when the transaction commits. Fails with `InvalidId` where no live object and
    /// no pending change is at the address, and as the log does.
    pub fn modify(&mut self, address: u64, ty: TypeInfo, data: &[u8]) -> (result: Result<
        (),
        PoolError,
    >)
        requires
            old(self).wf(),
            data@.len() == ty.size,
            ty.size <= isize::MAX,
            old(self).can_modify(address, ty),
        ensures
            final(self).wf(),
            final(self).modified(*old(self), address, ty, data@, result),
            old(self).ids_unique() ==> final(self).ids_unique(),
            old(self).tidy() ==> final(self).tidy(),
            old(self).can_roll_back() ==> final(self).can_roll_back(),
    {
        let replace = |original: Vec<u8>| -> (changed: Vec<u8>)
            ensures
                changed@ == data@,
            { slice_to_vec(data) };
        self.modify_with(address, ty, replace)
    }

    /// Changes the bytes of the object at an address: `change` is given its bytes once the
    /// change is logged, and gives the new ones. It is not called where there is no object at
    /// the address or nothing could be logged. The change becomes permanent when the transaction
    /// commits. Fails with `InvalidId` where no live object and no pending change is at the
    /// address, and as the log does.
    pub fn modify_with<F: FnOnce(Vec<u8>) -> Vec<u8>>(
        &mut self,
        address: u64,
        ty: TypeInfo,
        change: F,
    ) -> (result: Result<(), PoolError>)
        requires
            old(self).wf(),
            ty.size <= isize::MAX,
            old(self).can_modify(address, ty),
            forall|original: Vec<u8>|
                old(self).changes(address, ty, original@) ==> #[trigger] call_requires(
                    change,
                    (original,),
                ),
            forall|original: Vec<u8>, changed: Vec<u8>|
                old(self).changes(address, ty, original@) && #[trigger] call_ensures(
                    change,
                    (original,),
                    changed,
                ) ==> changed@.len() == ty.size,
        ensures
            final(self).wf(),
            final(self).modified_by(*old(self), address, ty, change, result),
            old(self).ids_unique() ==> final(self).ids_unique(),
            old(self).tidy() ==> final(self).tidy(),
            old(self).can_roll_back() ==> final(self).can_roll_back(),
    {
        proof {
            crate::table::lemma_find(Probe::LiveAt(address), self.pool@.table);
            lemma_pending_slot(self.pending_changes@, address);
        }
        let slot: usize = match find_live_at(&self.pool.object_table, address) {
            Some(slot) => slot,
            None => match self.find_pending(address) {
                Some(slot) => slot,
                None => {
                    return Err(PoolError::InvalidId);
                },
            },
        };
        let entry: ObjectTableEntry = self.pool.object_table[slot];
        assert(self.pool@.table[slot as int] == entry@);
        let original: Vec<u8> = self.pool.read(address, ty.size);
        self.pool.set_flags(slot, entry.active, entry.valid, false);
        let hash: u64 = compute_type_hash(ty.name);
        match self.log_operation(
            OperationType::Modification,
            address,
            original.as_slice(),
            ty.size,
            hash,
        ) {
            Ok(()) => {},
            Err(error) => {
                proof {
                    lemma_flags_keep_tidy(*old(self), *self);
                    lemma_ids_stay_unique(*old(self), *self);
                    if old(self).can_roll_back() {
                        let unused = Seq::new(ty.size as nat, |i: int| 0u8);
                        lemma_modified(*old(self), *self, address, ty, unused, Err(error));
                    }
                }
                return Err(error);
            },
        }
        let ghost found = original;
        assert(old(self).changes(address, ty, found@)) by {
            assert(log_step(
                old(self).log_pool,
                self.log_pool,
                true,
                old(self).operation(OperationType::Modification, address, ty.size, ty.hash()),
                found@,
                Ok(()),
            ));
        }
        let data: Vec<u8> = change(original);
        self.pool.write(address, data.as_slice());
        self.pool.set_flags(slot, entry.active, entry.valid, true);
        self.add_pending(slot, address);
        assert(self.pool@.table =~= old(self).pool@.written(address as int, data@).flagged(
            slot as int,
            entry.active,
            entry.valid,
            true,
        ).table);
        assert(self.pool@.memory =~= old(self).pool@.written(address as int, data@).memory);
        proof {
            lemma_flags_keep_tidy(*old(self), *self);
            lemma_ids_stay_unique(*old(self), *self);
            if old(self).can_roll_back() {
                lemma_modified(*old(self), *self, address, ty, data@, Ok(()));
            }
            assert(call_ensures(change, (found,), data));
        }
        Ok(())
    }

    fn find_pending(&self, address: u64) -> (slot: Option<usize>)
        ensures
            pending_slot(self.pending_changes@, address) == match slot {
                Some(slot) => Some(slot as int),
                None => None,
            },
    {
        let mut i: usize = 0;
        let ghost all = self.pending_changes@;
        while i < self.pending_changes.len()
            invariant
                i <= self.pending_changes.len(),
                all == self.pending_changes@,
                pending_slot(all.take(i as int), address) is None,
            decreases self.pending_changes.len() - i,
        {
            proof { assert(all.take(i + 1).drop_last() =~= all.take(i as int)); }
            if self.pending_changes[i].data_ptr == address {
                proof { lemma_pending_prefix(all, i + 1, address); }
                return Some(self.pending_changes[i].entry);
            }
            i = i + 1;
        }
        assert(all.take(i as int) =~= all);
        None
    }

    fn has_pending(&self, slot: usize) -> (found: bool)
        ensures
            found == is_pending(self.pending_changes@, slot as int),
    {
        let mut i: usize = 0;
        while i < self.pending_changes.len()
            invariant
                i <= self.pending_changes.len(),
                forall|k: int| 0 <= k < i ==> (#[trigger] self.pending_changes@[k]).entry != slot,
            decreases self.pending_changes.len() - i,
        {
            if self.pending_changes[i].entry == slot {
                assert(self.pending_changes@[i as int].entry == slot);
                return true;
            }
            i = i + 1;
        }
        false
    }

    fn add_pending(&mut self, slot: usize, address: u64)
        requires
            old(self).wf(),
            slot < MAX_OBJECT_ENTRIES,
            old(self).pool@.table[slot as int].active,
            old(self).pool@.table[slot as int].data == Some(address),
        ensures
            final(self).wf(),
            final(self).pool == old(self).pool,
            final(self).log_pool == old(self).log_pool,
            final(self).started == old(self).started,
            final(self).pending_changes@ == with_pending(
                old(self).pending_changes@,
                slot as int,
                address,
            ),
    {
        if !self.has_pending(slot) {
            let change: PendingChange = PendingChange { entry: slot, data_ptr: address };
            proof { lemma_pending_pushed(self.pending_changes@, change); }
            self.pending_changes.push(change);
        }
    }
}

/// The first pending change of an address is the first one in any longer list.
proof fn lemma_pending_prefix(pending: Seq<PendingChange>, n: int, address: u64)
    requires
        0 <= n <= pending.len(),
        pending_slot(pending.take(n), address) is Some,
    ensures
        pending_slot(pending, address) == pending_slot(pending.take(n), address),
    decreases pending.len() - n,
{
    if n < pending.len() {
        assert(pending.take(n + 1).drop_last() =~= pending.take(n));
        lemma_pending_prefix(pending, n + 1, address);
    } else {
        assert(pending.take(n) =~= pending);
    }
}

/// Where no slot gets another object, identifiers stay unique.
proof fn lemma_ids_stay_unique(before: TransactionContext, after: TransactionContext)
    requires
        after.pool@.table.len() == before.pool@.table.len(),
        forall|i: int| #![trigger after.pool@.table[i]]
            0 <= i < after.pool@.table.len() && after.has_object(i) ==> before.has_object(i)
                && after.pool@.table[i].id == before.pool@.table[i].id,
    ensures
        before.ids_unique() ==> after.ids_unique(),
{
    if before.ids_unique() {
        assert forall|i: int, j: int| #![trigger after.pool@.table[i], after.pool@.table[j]]
            0 <= i < j < after.pool@.table.len() && after.has_object(i) && after.has_object(
                j,
            ) implies after.pool@.table[i].id != after.pool@.table[j].id by {
            assert(before.pool@.table[i].id != before.pool@.table[j].id);
        }
    }
}

/// An object under an identifier that no other has keeps identifiers unique.
proof fn lemma_new_id(
    before: TransactionContext,
    after: TransactionContext,
    slot: int,
    id: Seq<u8>,
    change: PendingChange,
)
    requires
        0 <= slot < before.pool@.table.len(),
        before.stored_under(id) is None,
        change.entry == slot,
        after.pending_changes@ == before.pending_changes@.push(change),
        after.pool@.table == before.pool@.table.update(slot, after.pool@.table[slot]),
        after.pool@.table[slot].id == id,
    ensures
        before.ids_unique() ==> after.ids_unique(),
{
    crate::search::lemma_first_true(before.stored(id));
    assert forall|i: int| #![trigger after.pool@.table[i]]
        0 <= i < after.pool@.table.len() && i != slot && after.has_object(i) implies {
        &&& before.has_object(i)
        &&& after.pool@.table[i] == before.pool@.table[i]
        &&& after.pool@.table[i].id != id
    } by {
        assert(after.pool@.table[i] == before.pool@.table[i]);
        if is_pending(after.pending_changes@, i) {
            let k = choose|k: int|
                0 <= k < after.pending_changes@.len() && (
                #[trigger] after.pending_changes@[k]).entry == i;
            assert(before.pending_changes@[k].entry == i);
        }
        assert(!before.stored(id)[i]);
    }
}

/// Other flags and other bytes leave memory in order.
proof fn lemma_flags_keep_tidy(before: TransactionContext, after: TransactionContext)
    requires
        after.pool.heap == before.pool.heap,
        after.pool@.start == before.pool@.start,
        after.pool@.memory.len() == before.pool@.memory.len(),
        after.pool@.table.len() == before.pool@.table.len(),
        forall|i: int| #![trigger after.pool@.table[i]]
            0 <= i < after.pool@.table.len() ==> after.pool@.table[i] == before.pool@.table[i]
                || after.pool@.table[i].same_object(before.pool@.table[i])
                && before.pool@.table[i].data is Some && !Probe::Free.hits(after.pool@.table[i]),
    ensures
        before.tidy() ==> after.tidy(),
{
    if before.tidy() {
        let free = crate::heap::heap_free(before.pool.heap);
        assert(after.pool@.same_blocks(before.pool@));
        crate::blocks::lemma_same_blocks(before.pool@, after.pool@, free, free);
    }
}

/// A modification keeps the transaction reversible.
pub proof fn lemma_modified(
    before: TransactionContext,
    after: TransactionContext,
    address: u64,
    ty: TypeInfo,
    data: Seq<u8>,
    result: Result<(), PoolError>,
)
    requires
        before.wf(),
        before.can_roll_back(),
        after.modified(before, address, ty, data, result),
        before.slot_of(address) is Some,
        before.pool@.holds(address as int, ty.size as int),
        data.len() == ty.size,
    ensures
        after.can_roll_back(),
{
    let slot = before.slot_of(address)->Some_0;
    let start = before.started@;
    let now = before.pool@;
    let entry = now.table[slot];
    let free = crate::heap::heap_free(before.pool.heap);
    crate::table::lemma_find(Probe::LiveAt(address), now.table);
    lemma_pending_slot(before.pending_changes@, address);
    if Probe::LiveAt(address).find(now.table) is Some {
        crate::undo::lemma_live_known(start, now, before.records(), slot);
    } else {
        let k = choose|k: int|
            0 <= k < before.pending_changes@.len() && (
            #[trigger] before.pending_changes@[k]).entry == slot
                && before.pending_changes@[k].data_ptr == address;
        assert(before.pending_changes@[k].entry == slot);
    }
    let op = before.operation(OperationType::Modification, address, ty.size, ty.hash());
    let original = now.bytes(address as int, ty.size as int);
    let record = LogRecord { op, original };
    crate::undo::lemma_modification(start, now, before.records(), free, slot, record, data);
    assert(after.pool@.table[0].id == now.table[0].id);
    assert(after.pool@.table[0].active == now.table[0].active);
    if result is Ok {
        let added = lemma_extended(before.log_pool->Some_0, after.log_pool->Some_0, op, original);
        assert(added == record);
        assert forall|k: int| #![trigger after.pending_changes@[k]]
            0 <= k < after.pending_changes@.len() implies {
            let at = after.pending_changes@[k].entry as int;
            start.table[at].live() || after.pool@.fresh(after.records(), at)
        } by {
            let at = after.pending_changes@[k].entry as int;
            if k < before.pending_changes@.len() {
                assert(after.pending_changes@[k] == before.pending_changes@[k]);
            }
            assert(after.pool@.table[at].data == now.table[at].data);
            if now.fresh(before.records(), at) {
                lemma_fresh_pushed(now, before.records(), record, at);
            }
        }
    } else {
        assert forall|k: int| #![trigger after.pending_changes@[k]]
            0 <= k < after.pending_changes@.len() implies {
            let at = after.pending_changes@[k].entry as int;
            start.table[at].live() || after.pool@.fresh(after.records(), at)
        } by {
            assert(after.pending_changes@[k] == before.pending_changes@[k]);
        }
    }
}

/// An object under the identifier in the slot would mark its pool as the log pool.
pub open spec fn marks_log(slot: int, id: Seq<u8>) -> bool {
    slot == 0 && id == crate::image::log_pool_id()
}

/// The entry of a slot that was claimed for an object.
pub open spec fn claim_of(entry: EntryView, id: Seq<u8>, ty: TypeInfo) -> EntryView {
    EntryView {
        active: true,
        valid: false,
        done: false,
        id,
        type_hash: ty.hash(),
        type_size: ty.size,
        data: entry.data,
    }
}

impl TransactionContext {
    /// What allocating a new object in a free slot does. The slot is claimed in any case; where
    /// the heap has no room or the log fails, the claim is what is left.
    pub open spec fn placed(
        self,
        before: Self,
        slot: int,
        id: Seq<u8>,
        ty: TypeInfo,
        data: Seq<u8>,
        result: Result<u64, PoolError>,
    ) -> bool {
        let claim = claim_of(before.pool@.table[slot], id, ty);
        let claimed = before.pool@.with(slot, claim);
        let available = before.logging();
        &&& self.started == before.started
        &&& self.pool.same_frame(before.pool)
        &&& match result {
            Ok(address) => {
                &&& self.pool@ == before.pool@.with(
                    slot,
                    EntryView { data: Some(address), done: true, ..claim },
                ).written(address as int, data)
                &&& self.pool.took_block(before.pool, address, ty.size as int, ty.align as int)
                &&& log_step(
                    before.log_pool,
                    self.log_pool,
                    available,
                    before.operation(OperationType::Allocation, address, ty.size, ty.hash()),
                    Seq::empty(),
                    Ok(()),
                )
                &&& self.pending_changes@ == before.pending_changes@.push(
                    PendingChange { entry: slot as usize, data_ptr: address },
                )
            },
            Err(error) => {
                &&& self.pool@ == claimed
                &&& self.pending_changes == before.pending_changes
                &&& if error is AllocationFailed {
                    &&& self.pool.kept_heap(before.pool)
                    &&& before.pool.no_room(ty.size as int, ty.align as int)
                    &&& self.log_pool == before.log_pool
                } else {
                    exists|address: u64|
                        {
                            &&& #[trigger] self.pool.took_block(
                                before.pool,
                                address,
                                ty.size as int,
                                ty.align as int,
                            )
                            &&& log_step(
                                before.log_pool,
                                self.log_pool,
                                available,
                                before.operation(
                                    OperationType::Allocation,
                                    address,
                                    ty.size,
                                    ty.hash(),
                                ),
                                Seq::empty(),
                                Err(error),
                            )
                        }
                }
            },
        }
    }

    /// What [`TransactionContext::allocate_with_id`] does.
    pub open spec fn allocated(
        self,
        before: Self,
        id: Seq<u8>,
        ty: TypeInfo,
        data: Seq<u8>,
        result: Result<u64, PoolError>,
    ) -> bool {
        if id.len() > 32 {
            result matches Err(PoolError::InvalidId) && self == before
        } else {
            match before.stored_under(id) {
                Some(slot) => {
                    let entry = before.pool@.table[slot];
                    if entry.type_hash != ty.hash() {
                        &&& is_type_mismatch(result, ty)
                        &&& self == before
                    } else {
                        &&& self.modified(
                            before,
                            entry.data->Some_0,
                            ty,
                            data,
                            match result {
                                Ok(_) => Ok(()),
                                Err(error) => Err(error),
                            },
                        )
                        &&& result matches Ok(address) ==> entry.data == Some(address)
                    }
                },
                None => match Probe::Free.find(before.pool@.table) {
                    Some(slot) => if marks_log(slot, id) {
                        result matches Err(PoolError::LogPoolNotAvailable) && self == before
                    } else {
                        self.placed(before, slot, id, ty, data, result)
                    },
                    None => result matches Err(PoolError::ObjectTableFull) && self == before,
                },
            }
        }
    }

    /// The slots that hold an object under the identifier: a live one, or one that this
    /// transaction stored.
    pub open spec fn stored(self, id: Seq<u8>) -> Seq<bool> {
        Seq::new(
            self.pool@.table.len(),
            |i: int|
                self.has_object(i) && self.pool@.table[i].id == id,
        )
    }

    /// The first slot that holds an object under the identifier.
    pub open spec fn stored_under(self, id: Seq<u8>) -> Option<int> {
        crate::search::first_true(self.stored(id))
    }

    fn find_stored(&self, id: &[u8]) -> (slot: Option<usize>)
        requires
            self.wf(),
        ensures
            self.stored_under(id@) == match slot {
                Some(slot) => Some(slot as int),
                None => None,
            },
    {
        let ghost hits = self.stored(id@);
        let mut i: usize = 0;
        while i < MAX_OBJECT_ENTRIES
            invariant
                i <= MAX_OBJECT_ENTRIES,
                self.wf(),
                hits == self.stored(id@),
                forall|j: int| 0 <= j < i ==> !#[trigger] hits[j],
            decreases MAX_OBJECT_ENTRIES - i,
        {
            let entry: ObjectTableEntry = self.pool.object_table[i];
            assert(self.pool@.table[i as int] == entry@);
            if entry.active && entry.has_id(id) && (entry.valid || self.has_pending(i)) {
                proof { crate::search::lemma_first_true_is(hits, i as int); }
                return Some(i);
            }
            i = i + 1;
        }
        proof { crate::search::lemma_first_true_none(hits); }
        None
    }

    /// Stores an object under an identifier of at most 32 bytes and returns its address. An
    /// object that is live under the identifier, or was stored under it before in this
    /// transaction, is updated where the types match. A new object becomes live when the
    /// transaction commits. One that would mark the pool as the log pool, which has no log, is
    /// refused.
    pub fn allocate_with_id(&mut self, id: &str, ty: TypeInfo, data: &[u8]) -> (result: Result<
        u64,
        PoolError,
    >)
        requires
            old(self).wf(),
            ty.wf(),
            old(self).can_align(ty.align),
            data@.len() == ty.size,
            old(self).can_store(id.spec_bytes(), ty),
        ensures
            final(self).wf(),
            final(self).allocated(*old(self), id.spec_bytes(), ty, data@, result),
            old(self).ids_unique() ==> final(self).ids_unique(),
            old(self).tidy() ==> final(self).tidy(),
            old(self).can_roll_back() ==> final(self).can_roll_back(),
    {
        let bytes: &[u8] = id.as_bytes();
        if bytes.len() > 32 {
            return Err(PoolError::InvalidId);
        }
        let hash: u64 = compute_type_hash(ty.name);
        proof {
            crate::search::lemma_first_true(self.stored(bytes@));
            crate::table::lemma_find(Probe::Free, self.pool@.table);
            crate::heap::lemma_is_layout(ty.size as int, ty.align as int);
        }
        if let Some(slot) = self.find_stored(bytes) {
            let entry: ObjectTableEntry = self.pool.object_table[slot];
            assert(self.pool@.table[slot as int] == entry@);
            if entry.type_hash != hash {
                return Err(PoolError::TypeMismatch { expected: ty.name, actual: "unknown" });
            }
            let address: u64 = entry.data.unwrap();
            return match self.modify(address, ty, data) {
                Ok(()) => Ok(address),
                Err(error) => Err(error),
            };
        }
        match find_free(&self.pool.object_table) {
            Some(slot) => {
                let reserved: [u8; 7] = log_pool_name();
                if slot == 0 && crate::table::bytes_equal(bytes, reserved.as_slice()) {
                    return Err(PoolError::LogPoolNotAvailable);
                }
                self.place(slot, bytes, ty, hash, data)
            },
            None => Err(PoolError::ObjectTableFull),
        }
    }

    /// Allocates a new object in a free slot.
    fn place(&mut self, slot: usize, id: &[u8], ty: TypeInfo, hash: u64, data: &[u8]) -> (result:
        Result<u64, PoolError>)
        requires
            old(self).wf(),
            ty.wf(),
            old(self).can_align(ty.align),
            hash == ty.hash(),
            data@.len() == ty.size,
            id@.len() <= 32,
            slot < MAX_OBJECT_ENTRIES,
            Probe::Free.hits(old(self).pool@.table[slot as int]),
            !marks_log(slot as int, id@),
        ensures
            final(self).wf(),
            final(self).placed(*old(self), slot as int, id@, ty, data@, result),
            old(self).ids_unique() && old(self).stored_under(id@) is None
                ==> final(self).ids_unique(),
            old(self).tidy() ==> final(self).tidy(),
            old(self).can_roll_back() ==> final(self).can_roll_back(),
    {
        proof {
            if old(self).can_roll_back() {
                assert(crate::undo::slot_undoable(
                    self.started@.table[slot as int],
                    self.pool@.table[slot as int],
                    self.pool@.fresh(self.records(), slot as int),
                ));
            }
        }
        proof { crate::heap::lemma_is_layout(ty.size as int, ty.align as int); }
        let ghost claim = claim_of(self.pool@.table[slot as int], id@, ty);
        let mut entry: ObjectTableEntry = self.pool.object_table[slot];
        assert(self.pool@.table[slot as int] == entry@);
        entry.active = true;
        entry.valid = false;
        entry.operation_done = false;
        entry.set_id(id);
        entry.type_hash = hash;
        entry.type_size = ty.size;
        self.pool.set_entry(slot, entry);
        assert(entry@ == claim);
        let address: u64 = match crate::heap::allocate_first_fit(
            &mut self.pool.heap,
            ty.size,
            ty.align,
        ) {
            Some(address) => address,
            None => {
                proof {
                    lemma_claim_keeps_tidy(*old(self), *self, slot as int, claim);
                    lemma_ids_stay_unique(*old(self), *self);
                    if old(self).can_roll_back() {
                        lemma_claimed(*old(self), *self, slot as int, id@, ty);
                    }
                }
                return Err(PoolError::AllocationFailed);
            },
        };
        proof { crate::heap::lemma_block_len(ty.size as int); }
        assert(self.pool.took_block(old(self).pool, address, ty.size as int, ty.align as int));
        let empty: [u8; 0] = [];
        assert(empty@ =~= Seq::<u8>::empty());
        match self.log_operation(
            OperationType::Allocation,
            address,
            empty.as_slice(),
            ty.size,
            hash,
        ) {
            Ok(()) => {},
            Err(error) => {
                assert(self.pool.took_block(old(self).pool, address, ty.size as int, ty.align as int));
                proof {
                    lemma_claim_keeps_tidy(*old(self), *self, slot as int, claim);
                    lemma_ids_stay_unique(*old(self), *self);
                    if old(self).can_roll_back() {
                        lemma_claimed(*old(self), *self, slot as int, id@, ty);
                    }
                }
                return Err(error);
            },
        }
        entry.data = Some(address);
        self.pool.set_entry(slot, entry);
        self.pool.write(address, data);
        self.pool.set_flags(slot, true, false, true);
        let change: PendingChange = PendingChange { entry: slot, data_ptr: address };
        proof { lemma_pending_pushed(self.pending_changes@, change); }
        self.pending_changes.push(change);
        let ghost end = old(self).pool@.with(
            slot as int,
            EntryView { data: Some(address), done: true, ..claim },
        ).written(address as int, data@);
        assert(self.pool@.table =~= end.table);
        assert(self.pool@.memory =~= end.memory);
        assert forall|k: int| #![trigger self.pending_changes@[k]]
            0 <= k < self.pending_changes@.len() implies {
            let at = self.pending_changes@[k].entry as int;
            &&& at < MAX_OBJECT_ENTRIES
            &&& self.pool@.table[at].active
            &&& self.pool@.table[at].data == Some(self.pending_changes@[k].data_ptr)
        } by {
            if k < old(self).pending_changes@.len() {
                assert(self.pending_changes@[k] == old(self).pending_changes@[k]);
            }
        }
        proof {
            if old(self).stored_under(id@) is None {
                lemma_new_id(*old(self), *self, slot as int, id@, change);
            }
            if old(self).tidy() {
                crate::blocks::lemma_new_block(
                    old(self).pool@,
                    self.pool@,
                    crate::heap::heap_free(old(self).pool.heap),
                    slot as int,
                    self.pool@.table[slot as int],
                );
            }
            if old(self).can_roll_back() {
                lemma_placed(*old(self), *self, slot as int, id@, ty, data@, address);
            }
        }
        Ok(address)
    }
}

/// A claim without an object leaves memory in order, where the slot referred to none.
proof fn lemma_claim_keeps_tidy(
    before: TransactionContext,
    after: TransactionContext,
    slot: int,
    claim: EntryView,
)
    requires
        0 <= slot < before.pool@.table.len(),
        after.pool@ == before.pool@.with(slot, claim),
        claim.data == before.pool@.table[slot].data,
        !claim.valid,
        !claim.done,
        crate::heap::heap_free(after.pool.heap).subset_of(crate::heap::heap_free(before.pool.heap)),
    ensures
        before.tidy() && claim.data is None ==> after.tidy(),
{
    if before.tidy() && claim.data is None {
        crate::blocks::lemma_claimed_slot(
            before.pool@,
            crate::heap::heap_free(before.pool.heap),
            crate::heap::heap_free(after.pool.heap),
            slot,
            claim,
        );
    }
}

/// A claim without an object keeps the transaction reversible.
pub proof fn lemma_claimed(
    before: TransactionContext,
    after: TransactionContext,
    slot: int,
    id: Seq<u8>,
    ty: TypeInfo,
)
    requires
        before.wf(),
        before.can_roll_back(),
        0 <= slot < MAX_OBJECT_ENTRIES,
        !before.pool@.table[slot].active,
        !before.started@.table[slot].live(),
        after.started == before.started,
        after.pool@ == before.pool@.with(slot, claim_of(before.pool@.table[slot], id, ty)),
        after.pending_changes == before.pending_changes,
        crate::heap::heap_free(after.pool.heap).subset_of(crate::heap::heap_free(before.pool.heap)),
        log_kept(before.log_pool, after.log_pool),
        !after.pool@.marked_as_log(),
    ensures
        after.can_roll_back(),
{
    let start = before.started@;
    let now = before.pool@;
    let records = before.records();
    let claim = claim_of(now.table[slot], id, ty);
    crate::undo::law_crash_after_claim(start, now, records, slot, claim);
    let new = after.pool@;
    let left = crate::heap::heap_free(after.pool.heap);
    assert(crate::undo::apart(start, new, records, left)) by {
        assert forall|i: int| #![trigger new.table[i]]
            0 <= i < new.table.len() && new.table[i].data is Some implies !left.contains(
            new.table[i].data->Some_0 as int,
        ) by {
            assert(new.table[i].data == now.table[i].data);
        }
    }
    assert forall|k: int| #![trigger after.pending_changes@[k]]
        0 <= k < after.pending_changes@.len() implies {
        let at = after.pending_changes@[k].entry as int;
        start.table[at].live() || new.fresh(after.records(), at)
    } by {
        assert(after.pending_changes@[k] == before.pending_changes@[k]);
    }
}

/// A new object keeps the transaction reversible.
pub proof fn lemma_placed(
    before: TransactionContext,
    after: TransactionContext,
    slot: int,
    id: Seq<u8>,
    ty: TypeInfo,
    data: Seq<u8>,
    address: u64,
)
    requires
        before.wf(),
        before.can_roll_back(),
        0 <= slot < MAX_OBJECT_ENTRIES,
        !before.pool@.table[slot].active,
        !before.started@.table[slot].live(),
        data.len() == ty.size,
        after.placed(before, slot, id, ty, data, Ok(address)),
        !after.pool@.marked_as_log(),
    ensures
        after.can_roll_back(),
{
    let start = before.started@;
    let now = before.pool@;
    let records = before.records();
    let claim = claim_of(now.table[slot], id, ty);
    let free = crate::heap::heap_free(before.pool.heap);
    let left = crate::heap::heap_free(after.pool.heap);
    let op = before.operation(OperationType::Allocation, address, ty.size, ty.hash());
    let record = lemma_extended(
        before.log_pool->Some_0,
        after.log_pool->Some_0,
        op,
        Seq::empty(),
    );
    crate::heap::lemma_block_len(ty.size as int);
    let block = crate::heap::span(address as int, crate::heap::block_len(ty.size as int));
    assert(block.contains(address as int));
    assert(crate::heap::span(address as int, data.len() as int).subset_of(free)) by {
        assert forall|x: int|
            crate::heap::span(address as int, data.len() as int).contains(x) implies
            #[trigger] free.contains(x) by {
            assert(block.contains(x));
        }
    }
    crate::undo::lemma_allocation(start, now, records, free, slot, claim, record, data, left);
    let new = after.pool@;
    assert forall|k: int| #![trigger after.pending_changes@[k]]
        0 <= k < after.pending_changes@.len() implies {
        let at = after.pending_changes@[k].entry as int;
        start.table[at].live() || new.fresh(after.records(), at)
    } by {
        let at = after.pending_changes@[k].entry as int;
        if k < before.pending_changes@.len() {
            assert(after.pending_changes@[k] == before.pending_changes@[k]);
            assert(at != slot);
            assert(new.table[at] == now.table[at]);
            if now.fresh(records, at) {
                lemma_fresh_pushed(now, records, record, at);
            }
        }
    }
}

/// The error for an object of another type.
pub open spec fn is_type_mismatch<R>(result: Result<R, PoolError>, ty: TypeInfo) -> bool {
    match result {
        Err(PoolError::TypeMismatch { expected, actual }) => expected == ty.name && actual
            == "unknown",
        _ => false,
    }
}

impl TransactionContext {
    /// What [`TransactionContext::deallocate_by_id`] does.
    pub open spec fn deallocated(
        self,
        before: Self,
        id: Seq<u8>,
        result: Result<(), PoolError>,
    ) -> bool {
        match before.stored_under(id) {
            None => result matches Err(PoolError::InvalidId) && self == before,
            Some(slot) => {
                let entry = before.pool@.table[slot];
                &&& self.started == before.started
                &&& self.pool.same_frame(before.pool)
                &&& self.pool.heap == before.pool.heap
                &&& match entry.data {
                    Some(address) => log_step(
                        before.log_pool,
                        self.log_pool,
                        before.logging(),
                        before.operation(
                            OperationType::Deallocation,
                            address,
                            entry.type_size,
                            entry.type_hash,
                        ),
                        Seq::empty(),
                        result,
                    ),
                    None => result is Ok && self.log_pool == before.log_pool,
                }
                &&& match result {
                    Ok(()) => {
                        &&& self.pool@ == before.pool@.flagged(slot, false, false, true)
                        &&& self.pending_changes@ == without_pending(before.pending_changes@, slot)
                    },
                    Err(_) => {
                        &&& self.pool@ == before.pool@.flagged(
                            slot,
                            entry.active,
                            entry.valid,
                            false,
                        )
                        &&& self.pending_changes == before.pending_changes
                    },
                }
            },
        }
    }

    /// Gives up the object under an identifier. The deallocation is logged and becomes permanent
    /// when the transaction commits; the next recovery returns the memory. Fails with
    /// `InvalidId` where no object has the identifier, and as the log does.
    pub fn deallocate_by_id(&mut self, id: &str) -> (result: Result<(), PoolError>)
        requires
            old(self).wf(),
            old(self).can_drop(id.spec_bytes()),
        ensures
            final(self).wf(),
            final(self).deallocated(*old(self), id.spec_bytes(), result),
            old(self).ids_unique() ==> final(self).ids_unique(),
            old(self).tidy() ==> final(self).tidy(),
            old(self).can_roll_back() ==> final(self).can_roll_back(),
    {
        let bytes: &[u8] = id.as_bytes();
        proof { crate::search::lemma_first_true(self.stored(bytes@)); }
        let slot: usize = match self.find_stored(bytes) {
            Some(slot) => slot,
            None => {
                return Err(PoolError::InvalidId);
            },
        };
        let entry: ObjectTableEntry = self.pool.object_table[slot];
        assert(self.pool@.table[slot as int] == entry@);
        self.pool.set_flags(slot, entry.active, entry.valid, false);
        assert(self.stored(bytes@)[slot as int]);
        if let Some(address) = entry.data {
            let empty: [u8; 0] = [];
            assert(empty@ =~= Seq::<u8>::empty());
            match self.log_operation(
                OperationType::Deallocation,
                address,
                empty.as_slice(),
                entry.type_size,
                entry.type_hash,
            ) {
                Ok(()) => {},
                Err(error) => {
                    proof {
                        lemma_flags_keep_tidy(*old(self), *self);
                        lemma_ids_stay_unique(*old(self), *self);
                        if old(self).can_roll_back() {
                            lemma_deallocated(*old(self), *self, bytes@, Err(error));
                        }
                    }
                    return Err(error);
                },
            }
        }
        self.pool.set_flags(slot, false, false, true);
        assert(self.pool@.table =~= old(self).pool@.flagged(slot as int, false, false, true).table);
        self.drop_pending(slot);
        proof {
            let pending = old(self).pending_changes@;
            assert forall|k: int| #![trigger self.pending_changes@[k]]
                0 <= k < self.pending_changes@.len() implies {
                let at = self.pending_changes@[k].entry as int;
                &&& at < MAX_OBJECT_ENTRIES
                &&& self.pool@.table[at].active
                &&& self.pool@.table[at].data == Some(self.pending_changes@[k].data_ptr)
            } by {
                lemma_without_pending(pending, slot as int, k);
            }
            assert forall|i: int| #![trigger self.pool@.table[i]]
                0 <= i < MAX_OBJECT_ENTRIES && self.pool@.table[i].active
                    && !self.pool@.table[i].valid && self.pool@.table[i].done implies is_pending(
                self.pending_changes@,
                i,
            ) by {
                assert(self.pool@.table[i] == old(self).pool@.table[i]);
                lemma_still_pending(pending, slot as int, i);
            }
            if old(self).tidy() {
                lemma_object_has_block(*old(self), slot as int);
                lemma_flags_keep_tidy(*old(self), *self);
            }
            assert forall|i: int| #![trigger self.pool@.table[i]]
                0 <= i < MAX_OBJECT_ENTRIES && self.has_object(i) implies old(self).has_object(i)
                && self.pool@.table[i].id == old(self).pool@.table[i].id by {
                if is_pending(self.pending_changes@, i) {
                    let k = choose|k: int|
                        0 <= k < self.pending_changes@.len() && (
                        #[trigger] self.pending_changes@[k]).entry == i;
                    lemma_without_pending(pending, slot as int, k);
                    let j = choose|j: int|
                        0 <= j < pending.len() && #[trigger] pending[j] == self.pending_changes@[k];
                    assert(pending[j].entry == i);
                }
            }
            lemma_ids_stay_unique(*old(self), *self);
            if old(self).can_roll_back() {
                lemma_deallocated(*old(self), *self, bytes@, Ok(()));
            }
        }
        Ok(())
    }

    fn drop_pending(&mut self, slot: usize)
        ensures
            final(self).pool == old(self).pool,
            final(self).log_pool == old(self).log_pool,
            final(self).started == old(self).started,
            final(self).pending_changes@ == without_pending(
                old(self).pending_changes@,
                slot as int,
            ),
    {
        let ghost all = self.pending_changes@;
        let mut kept: Vec<PendingChange> = Vec::new();
        let mut i: usize = 0;
        while i < self.pending_changes.len()
            invariant
                i <= self.pending_changes.len(),
                all == self.pending_changes@,
                kept@ == without_pending(all.take(i as int), slot as int),
            decreases self.pending_changes.len() - i,
        {
            let change: PendingChange = self.pending_changes[i];
            if change.entry != slot {
                kept.push(change);
            }
            assert(all.take(i + 1).drop_last() =~= all.take(i as int));
            i = i + 1;
        }
        assert(all.take(i as int) =~= all);
        self.pending_changes = kept;
    }

    /// What [`TransactionContext::get_by_id`] gives.
    pub open spec fn looked_up(
        self,
        id: Seq<u8>,
        ty: TypeInfo,
        result: Result<u64, PoolError>,
    ) -> bool {
        match Probe::Live(id).find(self.pool@.table) {
            Some(slot) => {
                let entry = self.pool@.table[slot];
                if entry.type_hash == ty.hash() {
                    result matches Ok(address) && entry.data == Some(address)
                } else {
                    is_type_mismatch(result, ty)
                }
            },
            None => result matches Err(PoolError::InvalidId),
        }
    }

    /// What [`TransactionContext::read_by_id`] gives.
    pub open spec fn read_out(
        self,
        id: Seq<u8>,
        ty: TypeInfo,
        result: Result<Vec<u8>, PoolError>,
    ) -> bool {
        match Probe::Live(id).find(self.pool@.table) {
            Some(slot) => {
                let entry = self.pool@.table[slot];
                if entry.type_hash == ty.hash() {
                    result matches Ok(data) && data@ == self.pool@.bytes(
                        entry.data->Some_0 as int,
                        ty.size as int,
                    )
                } else {
                    is_type_mismatch(result, ty)
                }
            },
            None => result matches Err(PoolError::InvalidId),
        }
    }

    /// Address of the live object under an identifier. Fails with `InvalidId` where there is
    /// none, and with `TypeMismatch` where it is of another type.
    pub fn get_by_id(&self, id: &str, ty: TypeInfo) -> (result: Result<u64, PoolError>)
        requires
            self.wf(),
            Probe::Live(id.spec_bytes()).find(self.pool@.table) matches Some(slot)
                ==> self.pool@.table[slot].type_hash == ty.hash()
                ==> self.pool@.table[slot].data is Some,
        ensures
            self.looked_up(id.spec_bytes(), ty, result),
    {
        let bytes: &[u8] = id.as_bytes();
        proof { crate::table::lemma_find(Probe::Live(bytes@), self.pool@.table); }
        match find_live(&self.pool.object_table, bytes) {
            Some(slot) => {
                let entry: ObjectTableEntry = self.pool.object_table[slot];
                assert(self.pool@.table[slot as int] == entry@);
                if entry.type_hash != compute_type_hash(ty.name) {
                    return Err(PoolError::TypeMismatch { expected: ty.name, actual: "unknown" });
                }
                Ok(entry.data.unwrap())
            },
            None => Err(PoolError::InvalidId),
        }
    }

    /// Bytes of the live object under an identifier. Fails as
    /// [`TransactionContext::get_by_id`] does.
    pub fn read_by_id(&self, id: &str, ty: TypeInfo) -> (result: Result<Vec<u8>, PoolError>)
        requires
            self.wf(),
            self.can_read(id.spec_bytes(), ty),
        ensures
            self.read_out(id.spec_bytes(), ty, result),
    {
        match self.get_by_id(id, ty) {
            Ok(address) => Ok(self.pool.read(address, ty.size)),
            Err(error) => Err(error),
        }
    }
}

/// Where memory is in order, an object has a block.
proof fn lemma_object_has_block(context: TransactionContext, slot: int)
    requires
        context.wf(),
        context.tidy(),
        0 <= slot < context.pool@.table.len(),
        context.has_object(slot),
    ensures
        context.pool@.table[slot].data is Some,
{
    if is_pending(context.pending_changes@, slot) {
        let k = choose|k: int|
            0 <= k < context.pending_changes@.len() && (
            #[trigger] context.pending_changes@[k]).entry == slot;
        assert(context.pool@.table[context.pending_changes@[k].entry as int].data is Some);
    }
}

/// A deallocation keeps the transaction reversible.
pub proof fn lemma_deallocated(
    before: TransactionContext,
    after: TransactionContext,
    id: Seq<u8>,
    result: Result<(), PoolError>,
)
    requires
        before.wf(),
        before.can_roll_back(),
        after.deallocated(before, id, result),
        before.stored_under(id) is Some,
    ensures
        after.can_roll_back(),
{
    crate::search::lemma_first_true(before.stored(id));
    let slot = before.stored_under(id)->Some_0;
    assert(before.stored(id)[slot]);
    let start = before.started@;
    let now = before.pool@;
    let new = after.pool@;
    let entry = now.table[slot];
    let records = before.records();
    let free = crate::heap::heap_free(before.pool.heap);
    assert(crate::undo::slot_undoable(start.table[slot], entry, now.fresh(records, slot)));
    assert(entry.data is Some);
    let op = before.operation(
        OperationType::Deallocation,
        entry.data->Some_0,
        entry.type_size,
        entry.type_hash,
    );
    let ghost mut record = LogRecord { op, original: Seq::empty() };
    if result is Ok {
        record =
        lemma_extended(before.log_pool->Some_0, after.log_pool->Some_0, op, Seq::empty());
    }
    crate::undo::lemma_deallocation(start, now, records, free, slot, record);
    assert(new.table[0].id == now.table[0].id);
    assert forall|k: int| #![trigger after.pending_changes@[k]]
        0 <= k < after.pending_changes@.len() implies {
        let at = after.pending_changes@[k].entry as int;
        start.table[at].live() || new.fresh(after.records(), at)
    } by {
        let at = after.pending_changes@[k].entry as int;
        if result is Ok {
            lemma_without_pending(before.pending_changes@, slot, k);
            let j = choose|j: int|
                0 <= j < before.pending_changes@.len() && #[trigger] before.pending_changes@[j]
                    == after.pending_changes@[k];
            assert(before.pending_changes@[j].entry == at);
            assert(new.table[at] == now.table[at]);
            if now.fresh(records, at) {
                lemma_fresh_pushed(now, records, record, at);
            }
        } else {
            assert(after.pending_changes@[k] == before.pending_changes@[k]);
            assert(new.table[at].data == now.table[at].data);
        }
    }
}

/// A transaction that has begun.
pub struct Begun {
    pub context: TransactionContext,
    /// Blocks that go back to the heap of the pool.
    pub freed: Vec<FreedBlock>,
    /// The log pool was emptied and needs a heap in which nothing is allocated.
    pub log_emptied: bool,
}

/// A transaction that has ended.
pub struct Finished {
    pub pool: Pool,
    pub log_pool: Option<Pool>,
    /// The log pool was emptied and needs a heap in which nothing is allocated.
    pub log_emptied: bool,
}

/// The log holds operations of a transaction that did not end.
pub open spec fn left_over(pool: Pool, log_pool: Option<Pool>) -> bool {
    log_pool is Some && !pool@.marked_as_log() && log_pool->Some_0@.has_logs()
}

/// The pool after the operations that were left over in the log are undone.
pub open spec fn cleared(pool: Pool, log_pool: Option<Pool>) -> PoolView {
    if left_over(pool, log_pool) {
        pool@.rolled_back(log_pool->Some_0@.records())
    } else {
        pool@
    }
}

/// The log pool was emptied where `emptied` says so, and is the same otherwise.
pub open spec fn log_after(before: Option<Pool>, after: Option<Pool>, emptied: bool) -> bool {
    if emptied {
        &&& before is Some
        &&& after is Some
        &&& after->Some_0@ == before->Some_0@.emptied()
        &&& after->Some_0.same_frame(before->Some_0)
        &&& after->Some_0.heap == before->Some_0.heap
    } else {
        after == before
    }
}

/// The pool with the pending changes made valid.
pub open spec fn committed(pool: PoolView, pending: Seq<PendingChange>) -> PoolView {
    PoolView {
        table: Seq::new(
            pool.table.len(),
            |i: int|
                if is_pending(pending, i) {
                    pool.table[i].flagged(pool.table[i].active, true, pool.table[i].done)
                } else {
                    pool.table[i]
                },
        ),
        ..pool
    }
}

impl Pool {
    /// Begins a transaction. Operations that a crash left in the log are undone first, in this
    /// pool and in the others, and the log is emptied; then the pool is recovered.
    pub fn transaction(self, log_pool: Option<Pool>, others: &mut Vec<Pool>) -> (begun: Begun)
        requires
            self.wf(),
            self.served(),
            log_wf(log_pool),
            left_over(self, log_pool) ==> {
                &&& log_pool->Some_0@.readable()
                &&& self@.takes_from(log_pool->Some_0@)
                &&& forall|k: int| #![trigger old(others)@[k]]
                    0 <= k < old(others)@.len() ==> old(others)@[k].wf() && old(
                        others,
                    )@[k]@.takes_from(log_pool->Some_0@)
            },
            cleared(self, log_pool).recoverable(),
        ensures
            begun.context.wf(),
            begun.context.pool@ == cleared(self, log_pool).recovered(),
            begun.context.pool.same_frame(self),
            begun.context.pool.heap == self.heap,
            begun.context.started@ == begun.context.pool@,
            begun.context.pending_changes@.len() == 0,
            begun.freed@ == cleared(self, log_pool).released(),
            begun.log_emptied == left_over(self, log_pool),
            log_after(log_pool, begun.context.log_pool, begun.log_emptied),
            final(others)@.len() == old(others)@.len(),
            !left_over(self, log_pool) ==> *final(others) == *old(others),
            left_over(self, log_pool) ==> forall|k: int| #![trigger final(others)@[k]]
                0 <= k < old(others)@.len() ==> {
                    &&& final(others)@[k].wf()
                    &&& final(others)@[k]@ == old(others)@[k]@.rolled_back(
                        log_pool->Some_0@.records(),
                    )
                    &&& final(others)@[k].same_frame(old(others)@[k])
                    &&& final(others)@[k].heap == old(others)@[k].heap
                },
            cleared(self, log_pool).ids_unique() ==> begun.context.ids_unique(),
            self@.tidy(crate::heap::heap_free(self.heap)) ==> begun.context.pool@.tidy(
                crate::heap::heap_free(self.heap).union(crate::blocks::returned(begun.freed@)),
            ),
            begun.context.logging() && (begun.log_emptied || log_pool->Some_0@.is_journal(
                crate::heap::heap_free(log_pool->Some_0.heap),
            ) && log_pool->Some_0@.records().len() == 0) && crate::undo::startable(
                begun.context.pool@,
                crate::heap::heap_free(self.heap),
            ) ==> begun.context.can_roll_back(),
    {
        let mut pool: Pool = self;
        let mut log_pool: Option<Pool> = log_pool;
        let mut log_emptied: bool = false;
        let ghost found = log_pool;
        if !pool.is_log_pool() {
            match log_pool {
                Some(mut log) => {
                    if log.has_logs() {
                        pool.perform_rollback(&log);
                        roll_back_all(others, &log);
                        log.empty_pool();
                        log_emptied = true;
                        proof {
                            crate::journal::law_emptied_log_is_empty(
                                found->Some_0@,
                                crate::heap::heap_free(log.heap),
                            );
                        }
                    }
                    log_pool = Some(log);
                },
                None => {
                    log_pool = None;
                },
            }
        }
        let freed: Vec<FreedBlock> = pool.recover();
        let ghost started = pool@;
        proof {
            let free = crate::heap::heap_free(self.heap);
            if self@.tidy(free) {
                if left_over(self, found) {
                    crate::blocks::law_rollback_keeps_tidy(self@, found->Some_0@.records(), free);
                }
                crate::blocks::law_recovery_keeps_tidy(cleared(self, found), free);
            }
            crate::undo::law_recovery_is_idempotent(cleared(self, found));
            if crate::undo::startable(started, crate::heap::heap_free(pool.heap)) {
                crate::undo::lemma_start(started);
            }
        }
        Begun {
            context: TransactionContext {
                pool,
                log_pool,
                pending_changes: Vec::new(),
                started: Ghost(started),
            },
            freed,
            log_emptied,
        }
    }
}

/// Undoes the operations that the log holds of each pool.
fn roll_back_all(pools: &mut Vec<Pool>, log: &Pool)
    requires
        log.wf(),
        log@.readable(),
        forall|k: int| #![trigger old(pools)@[k]]
            0 <= k < old(pools)@.len() ==> old(pools)@[k].wf() && old(pools)@[k]@.takes_from(log@),
    ensures
        final(pools)@.len() == old(pools)@.len(),
        forall|k: int| #![trigger final(pools)@[k]]
            0 <= k < old(pools)@.len() ==> {
                &&& final(pools)@[k].wf()
                &&& final(pools)@[k]@ == old(pools)@[k]@.rolled_back(log@.records())
                &&& final(pools)@[k].same_frame(old(pools)@[k])
                &&& final(pools)@[k].heap == old(pools)@[k].heap
            },
{
    let mut i: usize = 0;
    while i < pools.len()
        invariant
            i <= pools@.len() == old(pools)@.len(),
            log.wf(),
            log@.readable(),
            forall|k: int| #![trigger old(pools)@[k]]
                0 <= k < old(pools)@.len() ==> old(pools)@[k].wf() && old(pools)@[k]@.takes_from(
                    log@,
                ),
            forall|k: int| #![trigger pools@[k]] i <= k < pools@.len() ==> pools@[k] == old(pools)@[k],
            forall|k: int| #![trigger pools@[k]]
                0 <= k < i ==> {
                    &&& pools@[k].wf()
                    &&& pools@[k]@ == old(pools)@[k]@.rolled_back(log@.records())
                    &&& pools@[k].same_frame(old(pools)@[k])
                    &&& pools@[k].heap == old(pools)@[k].heap
                },
        decreases pools.len() - i,
    {
        assert(pools@[i as int] == old(pools)@[i as int]);
        pools[i].perform_rollback(log);
        i = i + 1;
    }
}

impl TransactionContext {
    /// The log can be undone: its records can be read, concern this pool, and write to its
    /// memory only.
    pub open spec fn abortable(self) -> bool {
        &&& self.log_pool->Some_0@.readable()
        &&& self.pool@.takes_from(self.log_pool->Some_0@)
        &&& forall|i: int|
            0 <= i < MAX_OBJECT_ENTRIES ==> match #[trigger] self.log_pool->Some_0@.record_in(i) {
                Some(record) => record.op.pool_base_address == self.pool.base_address,
                None => true,
            }
    }

    /// The pool that a transaction leaves: with its changes committed where it succeeded, and undone
    /// where it failed.
    pub open spec fn left_by<R>(self, outcome: Result<R, PoolError>) -> PoolView {
        match outcome {
            Ok(_) => committed(self.pool@, self.pending_changes@),
            Err(_) => if self.logging() {
                self.pool@.rolled_back(self.records())
            } else {
                self.pool@
            },
        }
    }

    /// Ends the transaction. Where it succeeded, the pending changes become valid and the log is
    /// emptied; where it failed, the log is undone and emptied.
    pub fn finish<R>(self, outcome: Result<R, PoolError>) -> (ended: (
        Finished,
        Result<R, PoolError>,
    ))
        requires
            self.wf(),
            outcome is Err && self.logging() ==> self.abortable(),
        ensures
            ended.1 == outcome,
            ended.0.pool.wf(),
            ended.0.pool.same_frame(self.pool),
            ended.0.pool.heap == self.pool.heap,
            ended.0.pool@ == self.left_by(outcome),
            ended.0.log_emptied == self.logging(),
            log_after(self.log_pool, ended.0.log_pool, self.logging()),
            log_wf(ended.0.log_pool),
            outcome is Ok && self.ids_unique() ==> ended.0.pool@.ids_unique(),
            self.tidy() ==> ended.0.pool@.tidy(crate::heap::heap_free(ended.0.pool.heap)),
            outcome is Err && self.can_roll_back() ==> ended.0.pool@.recovered().same_objects(
                self.started@,
            ),
    {
        let TransactionContext { pool, log_pool, pending_changes, started } = self;
        let mut pool: Pool = pool;
        let mut log_pool: Option<Pool> = log_pool;
        let mut log_emptied: bool = false;
        if outcome.is_ok() {
            commit_changes(&mut pool, &pending_changes);
        }
        proof {
            assert(committed(self.pool@, pending_changes@).table[0].id == self.pool@.table[0].id);
            if self.can_roll_back() {
                crate::undo::law_rollback_restores(started@, self.pool@, self.records());
            }
            if self.ids_unique() {
                law_commit_keeps_ids_unique(self);
            }
            if self.tidy() {
                let free = crate::heap::heap_free(self.pool.heap);
                law_commit_keeps_tidy(self.pool@, pending_changes@, free);
                crate::blocks::law_rollback_keeps_tidy(self.pool@, self.records(), free);
            }
        }
        if !pool.is_log_pool() {
            match log_pool {
                Some(mut log) => {
                    if outcome.is_err() {
                        pool.perform_rollback(&log);
                    }
                    log.empty_pool();
                    log_emptied = true;
                    log_pool = Some(log);
                },
                None => {
                    log_pool = None;
                },
            }
        }
        (Finished { pool, log_pool, log_emptied }, outcome)
    }
}

/// A commit shows no two objects with the same identifier.
pub proof fn law_commit_keeps_ids_unique(context: TransactionContext)
    requires
        context.wf(),
        context.ids_unique(),
    ensures
        committed(context.pool@, context.pending_changes@).ids_unique(),
{
    let before = context.pool@;
    let after = committed(before, context.pending_changes@);
    assert forall|i: int| #![trigger after.table[i]]
        0 <= i < after.table.len() && after.table[i].kept() implies context.has_object(i)
        && after.table[i].id == before.table[i].id by {
        assert(before.table[i].active);
    }
    assert forall|i: int, j: int| #![trigger after.table[i], after.table[j]]
        0 <= i < j < after.table.len() && after.table[i].kept() && after.table[j].kept() implies
        after.table[i].id != after.table[j].id by {
        assert(before.table[i].id != before.table[j].id);
    }
}

/// A commit leaves memory in order.
pub proof fn law_commit_keeps_tidy(
    pool: PoolView,
    pending: Seq<PendingChange>,
    free: Set<int>,
)
    requires
        pool.tidy(free),
        pending_wf(pool.table, pending),
    ensures
        committed(pool, pending).tidy(free),
{
    let after = committed(pool, pending);
    assert forall|i: int| #![trigger after.table[i]] 0 <= i < after.table.len() implies {
        &&& after.table[i].same_object(pool.table[i])
        &&& after.table[i].live() || after.table[i].done ==> after.table[i].data is Some
    } by {
        assert(pool.table[i].live() || pool.table[i].done ==> pool.table[i].data is Some);
        if is_pending(pending, i) {
            let k = choose|k: int| 0 <= k < pending.len() && (#[trigger] pending[k]).entry == i;
            assert(pool.table[pending[k].entry as int].data is Some);
        }
    }
    crate::blocks::lemma_same_blocks(pool, after, free, free);
}

/// Makes the pending changes valid.
fn commit_changes(pool: &mut Pool, pending: &Vec<PendingChange>)
    requires
        old(pool).wf(),
        forall|k: int| 0 <= k < pending@.len() ==> (#[trigger] pending@[k]).entry
            < MAX_OBJECT_ENTRIES,
    ensures
        final(pool).wf(),
        final(pool)@ == committed(old(pool)@, pending@),
        final(pool).same_frame(*old(pool)),
        final(pool).heap == old(pool).heap,
{
    let mut i: usize = 0;
    assert(pool@.table =~= committed(old(pool)@, pending@.take(0)).table);
    while i < pending.len()
        invariant
            i <= pending@.len(),
            pool.wf(),
            old(pool).wf(),
            pool.same_frame(*old(pool)),
            pool.heap == old(pool).heap,
            forall|k: int| 0 <= k < pending@.len() ==> (#[trigger] pending@[k]).entry
                < MAX_OBJECT_ENTRIES,
            pool@ == committed(old(pool)@, pending@.take(i as int)),
        decreases pending.len() - i,
    {
        let slot: usize = pending[i].entry;
        let entry: ObjectTableEntry = pool.object_table[slot];
        assert(pool@.table[slot as int] == entry@);
        pool.set_flags(slot, entry.active, true, entry.operation_done);
        proof { lemma_committed_step(old(pool)@, pending@, i as int); }
        i = i + 1;
    }
    assert(pending@.take(i as int) =~= pending@);
}

pub proof fn lemma_committed_step(pool: PoolView, pending: Seq<PendingChange>, i: int)
    requires
        0 <= i < pending.len(),
        pending[i].entry < pool.table.len(),
    ensures
        ({
            let before = committed(pool, pending.take(i));
            let slot = pending[i].entry as int;
            let entry = before.table[slot];
            committed(pool, pending.take(i + 1)) == before.flagged(
                slot,
                entry.active,
                true,
                entry.done,
            )
        }),
{
    let before = committed(pool, pending.take(i));
    let slot = pending[i].entry as int;
    let entry = before.table[slot];
    let after = committed(pool, pending.take(i + 1));
    assert forall|j: int| 0 <= j < pool.table.len() implies after.table[j] == before.flagged(
        slot,
        entry.active,
        true,
        entry.done,
    ).table[j] by {
        if is_pending(pending.take(i), j) {
            let k = choose|k: int| 0 <= k < i && (#[trigger] pending.take(i)[k]).entry == j;
            assert(pending.take(i + 1)[k].entry == j);
        }
        if j == slot {
            assert(pending.take(i + 1)[i].entry == slot);
        }
        if is_pending(pending.take(i + 1), j) && j != slot {
            let k = choose|k: int| 0 <= k < i + 1 && (#[trigger] pending.take(i + 1)[k]).entry == j;
            assert(pending.take(i)[k].entry == j);
        }
    }
    assert(after.table =~= before.flagged(slot, entry.active, true, entry.done).table);
}

/// A transaction that can be rolled back can be aborted.
pub proof fn law_reversible_is_abortable(context: TransactionContext)
    requires
        context.wf(),
        context.can_roll_back(),
    ensures
        context.abortable(),
{
    let log = context.log_pool->Some_0@;
    assert forall|i: int| 0 <= i < log.table.len() implies match #[trigger] log.record_in(i) {
        Some(record) => record.op.pool_base_address == context.pool.base_address
            && context.pool@.takes(record),
        None => true,
    } by {
        if log.record_in(i) is Some {
            crate::journal::lemma_slot_has_record(log, log.table.len() as int, i);
            let k = choose|k: int|
                0 <= k < log.records().len() && log.records()[k] == log.record_in(i)->Some_0;
            assert(log.records()[k].op.pool_base_address == context.pool.base_address);
        }
    }
    assert forall|i: int| 0 <= i < log.table.len() implies #[trigger] log.readable_in(i) by {
        if log.table[i].active {
            assert(log.recorded(i, crate::heap::heap_free(context.log_pool->Some_0.heap)));
        }
    }
}

impl TransactionContext {
    /// An object of the type under the identifier, where there is one that would be updated, lies
    /// in the memory of the pool.
    pub open spec fn can_store(self, id: Seq<u8>, ty: TypeInfo) -> bool {
        id.len() <= 32 ==> match self.stored_under(id) {
            Some(slot) => {
                let entry = self.pool@.table[slot];
                entry.type_hash == ty.hash() ==> entry.data is Some && self.pool@.holds(
                    entry.data->Some_0 as int,
                    ty.size as int,
                )
            },
            None => true,
        }
    }

    /// An object of the type under the identifier, where there is a live one, lies in the memory
    /// of the pool.
    pub open spec fn can_read(self, id: Seq<u8>, ty: TypeInfo) -> bool {
        Probe::Live(id).find(self.pool@.table) matches Some(slot)
            ==> self.pool@.table[slot].type_hash == ty.hash() ==> self.pool@.table[slot].data is Some
            && self.pool@.holds(
            self.pool@.table[slot].data->Some_0 as int,
            ty.size as int,
        )
    }

    /// An object of the type at the address, where there is one, lies in the memory of the pool.
    pub open spec fn can_modify(self, address: u64, ty: TypeInfo) -> bool {
        self.slot_of(address) is Some ==> self.pool@.holds(address as int, ty.size as int)
    }

    /// An object under the identifier, where there is one, has a size in memory.
    pub open spec fn can_drop(self, id: Seq<u8>) -> bool {
        self.stored_under(id) matches Some(slot) ==> self.pool@.table[slot].data is Some
            ==> self.pool@.table[slot].type_size <= isize::MAX
    }

    /// Tests whether an object can be stored under the identifier.
    pub fn is_storable(&self, id: &str, ty: TypeInfo) -> (ok: bool)
        requires
            self.wf(),
        ensures
            ok == self.can_store(id.spec_bytes(), ty),
    {
        let bytes: &[u8] = id.as_bytes();
        if bytes.len() > 32 {
            return true;
        }
        proof { crate::search::lemma_first_true(self.stored(bytes@)); }
        match self.find_stored(bytes) {
            Some(slot) => self.is_object_held(slot, ty),
            None => true,
        }
    }

    /// Tests whether an object can be read under the identifier.
    pub fn is_readable(&self, id: &str, ty: TypeInfo) -> (ok: bool)
        requires
            self.wf(),
        ensures
            ok == self.can_read(id.spec_bytes(), ty),
    {
        let bytes: &[u8] = id.as_bytes();
        proof { crate::table::lemma_find(Probe::Live(bytes@), self.pool@.table); }
        match find_live(&self.pool.object_table, bytes) {
            Some(slot) => self.is_object_held(slot, ty),
            None => true,
        }
    }

    /// Tests whether the object at the address can be modified.
    pub fn is_modifiable(&self, address: u64, ty: TypeInfo) -> (ok: bool)
        requires
            self.wf(),
        ensures
            ok == self.can_modify(address, ty),
    {
        let found: bool = match find_live_at(&self.pool.object_table, address) {
            Some(_) => true,
            None => self.find_pending(address).is_some(),
        };
        !found || self.pool.is_held(address, ty.size)
    }

    /// Tests whether the object under the identifier can be given up.
    pub fn is_droppable(&self, id: &str) -> (ok: bool)
        requires
            self.wf(),
        ensures
            ok == self.can_drop(id.spec_bytes()),
    {
        let bytes: &[u8] = id.as_bytes();
        proof { crate::search::lemma_first_true(self.stored(bytes@)); }
        match self.find_stored(bytes) {
            Some(slot) => {
                let entry: ObjectTableEntry = self.pool.object_table[slot];
                assert(self.pool@.table[slot as int] == entry@);
                entry.data.is_none() || entry.type_size <= isize::MAX as usize
            },
            None => true,
        }
    }

    fn is_object_held(&self, slot: usize, ty: TypeInfo) -> (ok: bool)
        requires
            self.wf(),
            slot < MAX_OBJECT_ENTRIES,
        ensures
            ok == (self.pool@.table[slot as int].type_hash == ty.hash() ==> {
                &&& self.pool@.table[slot as int].data is Some
                &&& self.pool@.holds(
                    self.pool@.table[slot as int].data->Some_0 as int,
                    ty.size as int,
                )
            }),
    {
        let entry: ObjectTableEntry = self.pool.object_table[slot];
        assert(self.pool@.table[slot as int] == entry@);
        if entry.type_hash != compute_type_hash(ty.name) {
            return true;
        }
        match entry.data {
            Some(address) => self.pool.is_held(address, ty.size),
            None => false,
        }
    }

    /// Tests whether the log can be undone.
    pub fn is_abortable(&self) -> (ok: bool)
        requires
            self.wf(),
        ensures
            ok == (self.logging() ==> self.abortable()),
    {
        if self.pool.is_log_pool() {
            return true;
        }
        match &self.log_pool {
            Some(log) => {
                if !log.is_readable() || !self.pool.is_taking_from(log) {
                    return false;
                }
                let mut i: usize = 0;
                while i < MAX_OBJECT_ENTRIES
                    invariant
                        i <= MAX_OBJECT_ENTRIES,
                        self.logging(),
                        *log == self.log_pool->Some_0,
                        log.wf(),
                        log@.readable(),
                        forall|j: int| 0 <= j < i ==> match #[trigger] log@.record_in(j) {
                            Some(record) => record.op.pool_base_address == self.pool.base_address,
                            None => true,
                        },
                    decreases MAX_OBJECT_ENTRIES - i,
                {
                    assert(log@.readable_in(i as int));
                    if let Some((op, _)) = log.record(i) {
                        if op.pool_base_address != self.pool.base_address {
                            assert(log@.record_in(i as int) is Some);
                            return false;
                        }
                    }
                    i = i + 1;
                }
                true
            },
            None => true,
        }
    }
}

} // verus!
