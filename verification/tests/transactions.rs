use linked_list_allocator::Heap;
use nvpool::oplog::{LoggedOperation, OperationType};
use nvpool::pool::{Pool, PoolError, PoolHeader, PoolImage, POOL_MAGIC};
use nvpool::table::{FreedBlock, ObjectTableEntry};
use nvpool::transaction::{compute_type_hash, TransactionContext, TypeInfo};

const POOL_SIZE: usize = 1048576;
const HEAP_START: usize = 16448;

const U64: TypeInfo = TypeInfo { name: "u64", size: 8, align: 8 };
const U32: TypeInfo = TypeInfo { name: "u32", size: 4, align: 4 };

fn blank_image() -> PoolImage {
    PoolImage {
        header: PoolHeader {
            magic: 0,
            size: 0,
            max_objects: 0,
            object_table_offset: 0,
            heap_start: 0,
            heap_size: 0,
        },
        object_table: vec![ObjectTableEntry::empty(); 256],
        memory: vec![0; POOL_SIZE - HEAP_START],
    }
}

fn new_pool() -> Pool {
    let memory = Box::leak(Box::<[u8]>::new_uninit_slice(POOL_SIZE - HEAP_START));
    let base = memory.as_ptr() as u64 - HEAP_START as u64;
    let image = blank_image();
    assert!(image.is_wf(POOL_SIZE));
    let pool = Pool::new(base, POOL_SIZE, image, Heap::from_slice(memory));
    assert!(pool.is_served());
    pool
}

struct Machine {
    pool: Option<Pool>,
    log: Option<Pool>,
    freed: Vec<FreedBlock>,
}

impl Machine {
    fn new() -> Machine {
        Machine { pool: Some(new_pool()), log: Some(new_pool()), freed: Vec::new() }
    }

    fn begin(&mut self) -> TransactionContext {
        let pool = self.pool.take().unwrap();
        let log = self.log.take();
        assert!(pool.is_sound());
        let begun = pool.transaction(log, &mut Vec::new());
        self.freed = begun.freed;
        begun.context
    }

    fn crash(&mut self, context: TransactionContext) {
        self.pool = Some(context.pool);
        self.log = context.log_pool;
    }

    fn transaction<R>(
        &mut self,
        work: impl FnOnce(&mut TransactionContext) -> Result<R, PoolError>,
    ) -> Result<R, PoolError> {
        let mut context = self.begin();
        let outcome = work(&mut context);
        let (finished, outcome) = context.finish(outcome);
        self.pool = Some(finished.pool);
        self.log = finished.log_pool;
        outcome
    }
}

fn bytes(value: u64) -> Vec<u8> {
    value.to_le_bytes().to_vec()
}

fn read(context: &TransactionContext, id: &str) -> Result<u64, PoolError> {
    let data = context.read_by_id(id, U64)?;
    Ok(u64::from_le_bytes(data.try_into().unwrap()))
}

#[test]
fn a_fresh_pool_has_a_header() {
    let pool = new_pool();
    assert_eq!(pool.header.magic, POOL_MAGIC);
    assert_eq!(pool.header.size, POOL_SIZE);
    assert_eq!(pool.header.max_objects, 256);
    assert_eq!(pool.header.object_table_offset, 64);
    assert_eq!(pool.header.heap_start, 16448);
    assert_eq!(pool.heap_size(), POOL_SIZE - 16448);
    assert!(!pool.is_log_pool());
    assert!(!pool.has_logs());
}

#[test]
fn an_initialised_pool_keeps_its_table() {
    let mut image = blank_image();
    image.header = PoolHeader {
        magic: POOL_MAGIC,
        size: POOL_SIZE,
        max_objects: 256,
        object_table_offset: 64,
        heap_start: 16448,
        heap_size: POOL_SIZE - HEAP_START,
    };
    image.object_table[3].active = true;
    image.memory[7] = 9;
    assert!(image.is_wf(POOL_SIZE));
    let memory = Box::leak(Box::<[u8]>::new_uninit_slice(POOL_SIZE - HEAP_START));
    let base = memory.as_ptr() as u64 - HEAP_START as u64;
    let pool = Pool::new(base, POOL_SIZE, image, Heap::from_slice(memory));
    assert_eq!(pool.active_entries(), vec![(3, None)]);
    assert_eq!(pool.read(base + HEAP_START as u64 + 6, 3), vec![0, 9, 0]);
}

#[test]
fn images_of_other_pools_are_told() {
    let mut image = blank_image();
    image.object_table[0].id_len = 33;
    assert!(!image.is_wf(POOL_SIZE));
    let mut image = blank_image();
    image.header.magic = POOL_MAGIC;
    assert!(!image.is_wf(POOL_SIZE));
    let mut image = blank_image();
    image.memory.pop();
    assert!(!image.is_wf(POOL_SIZE));
}

#[test]
fn type_hashes() {
    assert_eq!(compute_type_hash(""), 5381);
    assert_eq!(compute_type_hash("a"), 5381 * 33 + 97);
    assert_eq!(compute_type_hash("ab"), (5381 * 33 + 97) * 33 + 98);
    assert_ne!(compute_type_hash("u64"), compute_type_hash("u32"));
    // Long names wrap around.
    let name = "a_rather_long_name_of_a_type_that_wraps";
    let mut expected: u64 = 5381;
    for byte in name.bytes() {
        expected = expected.wrapping_mul(33).wrapping_add(byte as u64);
    }
    assert_eq!(compute_type_hash(name), expected);
}

#[test]
fn stored_objects_are_read_back_after_the_commit() {
    let mut machine = Machine::new();
    let address = machine
        .transaction(|tx| {
            let address = tx.allocate_with_id("data1", U64, &bytes(48879))?;
            assert_eq!(address % 8, 0);
            // It is not visible yet.
            assert_eq!(read(tx, "data1"), Err(PoolError::InvalidId));
            Ok(address)
        })
        .unwrap();
    machine
        .transaction(|tx| {
            assert_eq!(tx.get_by_id("data1", U64), Ok(address));
            assert_eq!(read(tx, "data1"), Ok(48879));
            Ok(())
        })
        .unwrap();
}

#[test]
fn an_object_is_updated_in_place() {
    let mut machine = Machine::new();
    let first = machine.transaction(|tx| tx.allocate_with_id("user1", U64, &bytes(25))).unwrap();
    let second = machine.transaction(|tx| tx.allocate_with_id("user1", U64, &bytes(26))).unwrap();
    assert_eq!(first, second);
    machine
        .transaction(|tx| {
            assert_eq!(read(tx, "user1"), Ok(26));
            Ok(())
        })
        .unwrap();
}

#[test]
fn an_object_is_updated_in_the_transaction_that_stores_it() {
    let mut machine = Machine::new();
    machine
        .transaction(|tx| {
            let first = tx.allocate_with_id("user1", U64, &bytes(25))?;
            assert_eq!(tx.allocate_with_id("user1", U64, &bytes(26)), Ok(first));
            assert!(matches!(
                tx.allocate_with_id("user1", U32, &[0; 4]),
                Err(PoolError::TypeMismatch { .. })
            ));
            Ok(())
        })
        .unwrap();
    assert_eq!(machine.pool.as_ref().unwrap().active_entries().len(), 1);
    machine
        .transaction(|tx| {
            assert_eq!(read(tx, "user1"), Ok(26));
            Ok(())
        })
        .unwrap();
    // And all of it is taken back where the transaction fails.
    let outcome: Result<(), PoolError> = machine.transaction(|tx| {
        tx.allocate_with_id("user2", U64, &bytes(1))?;
        tx.allocate_with_id("user2", U64, &bytes(2))?;
        Err(PoolError::TransactionFailed)
    });
    assert!(outcome.is_err());
    machine
        .transaction(|tx| {
            assert_eq!(read(tx, "user2"), Err(PoolError::InvalidId));
            Ok(())
        })
        .unwrap();
}

#[test]
fn long_identifiers_are_refused() {
    let mut machine = Machine::new();
    let id = "x".repeat(33);
    assert_eq!(
        machine.transaction(|tx| tx.allocate_with_id(&id, U64, &bytes(1))),
        Err(PoolError::InvalidId)
    );
    let id = "x".repeat(32);
    assert!(machine.transaction(|tx| tx.allocate_with_id(&id, U64, &bytes(1))).is_ok());
}

#[test]
fn types_are_told_apart() {
    let mut machine = Machine::new();
    machine.transaction(|tx| tx.allocate_with_id("type_test", U64, &bytes(42))).unwrap();
    let mismatch = PoolError::TypeMismatch { expected: "u32", actual: "unknown" };
    machine
        .transaction(|tx| {
            assert_eq!(tx.get_by_id("type_test", U32), Err(mismatch));
            assert_eq!(tx.read_by_id("type_test", U32), Err(mismatch));
            assert_eq!(tx.allocate_with_id("type_test", U32, &[1, 2, 3, 4]), Err(mismatch));
            assert_eq!(read(tx, "type_test"), Ok(42));
            Ok(())
        })
        .unwrap();
}

#[test]
fn unknown_objects_are_refused() {
    let mut machine = Machine::new();
    machine
        .transaction(|tx| {
            assert_eq!(tx.get_by_id("nothing", U64), Err(PoolError::InvalidId));
            assert_eq!(tx.deallocate_by_id("nothing"), Err(PoolError::InvalidId));
            assert_eq!(tx.modify(4711, U64, &bytes(1)), Err(PoolError::InvalidId));
            Ok(())
        })
        .unwrap();
}

#[test]
fn a_failed_transaction_takes_back_an_allocation() {
    let mut machine = Machine::new();
    let outcome: Result<(), PoolError> = machine.transaction(|tx| {
        tx.allocate_with_id("recover1", U64, &bytes(1))?;
        Err(PoolError::TransactionFailed)
    });
    assert_eq!(outcome, Err(PoolError::TransactionFailed));
    machine
        .transaction(|tx| {
            assert_eq!(tx.get_by_id("recover1", U64), Err(PoolError::InvalidId));
            Ok(())
        })
        .unwrap();
    // Recovery gave the block back and blanked the slot.
    assert_eq!(machine.freed.len(), 1);
    assert_eq!(machine.freed[0].size, 8);
    assert_eq!(machine.pool.as_ref().unwrap().active_entries(), vec![]);
}

#[test]
fn a_failed_transaction_takes_back_a_modification() {
    let mut machine = Machine::new();
    let address = machine.transaction(|tx| tx.allocate_with_id("a", U64, &bytes(2))).unwrap();
    let outcome: Result<(), PoolError> = machine.transaction(|tx| {
        tx.modify(address, U64, &bytes(3))?;
        tx.modify(address, U64, &bytes(4))?;
        assert_eq!(read(tx, "a"), Ok(4));
        Err(PoolError::TransactionFailed)
    });
    assert_eq!(outcome, Err(PoolError::TransactionFailed));
    machine
        .transaction(|tx| {
            assert_eq!(read(tx, "a"), Ok(2));
            Ok(())
        })
        .unwrap();
}

#[test]
fn a_failed_transaction_takes_back_a_deallocation() {
    let mut machine = Machine::new();
    machine.transaction(|tx| tx.allocate_with_id("a", U64, &bytes(3))).unwrap();
    let outcome: Result<(), PoolError> = machine.transaction(|tx| {
        tx.deallocate_by_id("a")?;
        assert_eq!(read(tx, "a"), Err(PoolError::InvalidId));
        Err(PoolError::TransactionFailed)
    });
    assert_eq!(outcome, Err(PoolError::TransactionFailed));
    machine
        .transaction(|tx| {
            assert_eq!(read(tx, "a"), Ok(3));
            Ok(())
        })
        .unwrap();
    assert_eq!(machine.freed, vec![]);
}

#[test]
fn a_committed_modification_stays() {
    let mut machine = Machine::new();
    let address = machine.transaction(|tx| tx.allocate_with_id("a", U64, &bytes(2))).unwrap();
    machine.transaction(|tx| tx.modify(address, U64, &bytes(5))).unwrap();
    machine
        .transaction(|tx| {
            assert_eq!(read(tx, "a"), Ok(5));
            Ok(())
        })
        .unwrap();
}

#[test]
fn a_new_object_can_be_modified_in_its_transaction() {
    let mut machine = Machine::new();
    machine
        .transaction(|tx| {
            let address = tx.allocate_with_id("a", U64, &bytes(2))?;
            tx.modify(address, U64, &bytes(7))
        })
        .unwrap();
    machine
        .transaction(|tx| {
            assert_eq!(read(tx, "a"), Ok(7));
            Ok(())
        })
        .unwrap();
}

#[test]
fn a_committed_deallocation_frees_the_block_at_the_next_transaction() {
    let mut machine = Machine::new();
    let address = machine.transaction(|tx| tx.allocate_with_id("a", U64, &bytes(2))).unwrap();
    machine.transaction(|tx| tx.deallocate_by_id("a")).unwrap();
    machine
        .transaction(|tx| {
            assert_eq!(read(tx, "a"), Err(PoolError::InvalidId));
            Ok(())
        })
        .unwrap();
    assert_eq!(machine.freed, vec![FreedBlock { address, size: 8 }]);
    machine.transaction(|_| Ok(())).unwrap();
    assert_eq!(machine.freed, vec![]);
}

#[test]
fn a_crash_in_a_transaction_is_taken_back() {
    let mut machine = Machine::new();
    let kept = machine
        .transaction(|tx| {
            tx.allocate_with_id("given_up", U64, &bytes(10))?;
            tx.allocate_with_id("kept", U64, &bytes(11))
        })
        .unwrap();
    let mut context = machine.begin();
    context.allocate_with_id("new", U64, &bytes(12)).unwrap();
    context.modify(kept, U64, &bytes(13)).unwrap();
    context.deallocate_by_id("given_up").unwrap();
    assert!(context.log_pool.as_ref().unwrap().has_logs());
    machine.crash(context);
    machine
        .transaction(|tx| {
            assert_eq!(read(tx, "given_up"), Ok(10));
            assert_eq!(read(tx, "kept"), Ok(11));
            assert_eq!(read(tx, "new"), Err(PoolError::InvalidId));
            assert!(!tx.log_pool.as_ref().unwrap().has_logs());
            Ok(())
        })
        .unwrap();
}

#[test]
fn a_crash_in_the_middle_of_a_write_is_taken_back() {
    let mut machine = Machine::new();
    let address = machine.transaction(|tx| tx.allocate_with_id("a", U64, &bytes(2))).unwrap();
    let mut context = machine.begin();
    context.modify(address, U64, &bytes(u64::MAX)).unwrap();
    // Only part of the object reached the memory, and the operation was not marked done.
    context.pool.write(address, &[1, 2, 3]);
    context.pool.object_table[0].operation_done = false;
    machine.crash(context);
    machine
        .transaction(|tx| {
            assert_eq!(read(tx, "a"), Ok(2));
            Ok(())
        })
        .unwrap();
}

#[test]
fn a_crash_in_a_rollback_is_taken_back() {
    let mut machine = Machine::new();
    let address = machine
        .transaction(|tx| {
            tx.allocate_with_id("b", U64, &bytes(1))?;
            tx.allocate_with_id("a", U64, &bytes(2))
        })
        .unwrap();
    let mut context = machine.begin();
    context.modify(address, U64, &bytes(3)).unwrap();
    context.modify(address, U64, &bytes(4)).unwrap();
    context.deallocate_by_id("b").unwrap();
    // The rollback got through the last record and part of the one before.
    let log = context.log_pool.as_ref().unwrap();
    let (op, original) = log.record(2).unwrap();
    assert_eq!(op.op_type, OperationType::Deallocation);
    context.pool.undo(op, &original);
    let (op, original) = log.record(1).unwrap();
    assert_eq!(op.op_type, OperationType::Modification);
    assert_eq!(original, bytes(3));
    context.pool.undo(op, &original);
    machine.crash(context);
    machine
        .transaction(|tx| {
            assert_eq!(read(tx, "a"), Ok(2));
            assert_eq!(read(tx, "b"), Ok(1));
            Ok(())
        })
        .unwrap();
}

#[test]
fn a_crash_in_a_commit_is_taken_back() {
    let mut machine = Machine::new();
    let mut context = machine.begin();
    context.allocate_with_id("a", U64, &bytes(1)).unwrap();
    context.allocate_with_id("b", U64, &bytes(2)).unwrap();
    // The first of the two changes became valid.
    context.pool.object_table[0].valid = true;
    machine.crash(context);
    machine
        .transaction(|tx| {
            assert_eq!(read(tx, "a"), Err(PoolError::InvalidId));
            assert_eq!(read(tx, "b"), Err(PoolError::InvalidId));
            Ok(())
        })
        .unwrap();
}

#[test]
fn recovery_finishes_what_was_complete() {
    let mut pool = new_pool();
    let address = pool.base_address + 16448 + 64;
    // Allocated and written, but the commit did not get to it; the log is empty.
    pool.object_table[0].active = true;
    pool.object_table[0].operation_done = true;
    pool.object_table[0].data = Some(address);
    // Claimed without an object.
    pool.object_table[1].active = true;
    // Claimed with an object.
    pool.object_table[2].active = true;
    pool.object_table[2].data = Some(address + 64);
    pool.object_table[2].type_size = 24;
    // Given up, with the flag of validity left.
    pool.object_table[3].valid = true;
    pool.object_table[3].operation_done = true;
    pool.object_table[3].data = Some(address + 128);
    pool.object_table[3].type_size = 16;
    let freed = pool.recover();
    assert_eq!(
        freed,
        vec![
            FreedBlock { address: address + 64, size: 24 },
            FreedBlock { address: address + 128, size: 16 },
        ]
    );
    assert_eq!(pool.active_entries(), vec![(0, Some(address))]);
    assert!(pool.object_table[0].valid);
    assert!(!pool.object_table[3].valid && !pool.object_table[3].operation_done);
    assert_eq!(pool.object_table[3].data, None);
    // Once is enough.
    assert_eq!(pool.recover(), vec![]);
}

#[test]
fn a_slot_without_its_block_is_not_sound() {
    let mut pool = new_pool();
    assert!(pool.is_sound());
    pool.object_table[9].operation_done = true;
    assert!(!pool.is_sound());
    pool.object_table[9].data = Some(pool.base_address + 16448);
    assert!(pool.is_sound());
    pool.object_table[9].type_size = usize::MAX;
    assert!(!pool.is_sound());
}

#[test]
fn without_a_log_pool_nothing_is_stored() {
    let mut machine = Machine::new();
    machine.log = None;
    assert_eq!(
        machine.transaction(|tx| tx.allocate_with_id("a", U64, &bytes(1))),
        Err(PoolError::LogPoolNotAvailable)
    );
    assert!(!Pool::is_log_pool_initialized(&machine.log));
    machine.log = Some(new_pool());
    assert!(Pool::is_log_pool_initialized(&machine.log));
    machine.transaction(|tx| tx.allocate_with_id("a", U64, &bytes(1))).unwrap();
}

#[test]
fn a_pool_that_is_marked_as_log_pool_does_not_log() {
    let mut machine = Machine::new();
    machine.transaction(|tx| tx.allocate_with_id("a", U64, &bytes(1))).unwrap();
    let pool = machine.pool.as_mut().unwrap();
    pool.object_table[0].set_id(b"__LOG__");
    assert!(pool.is_log_pool());
    let outcome = machine.transaction(|tx| tx.allocate_with_id("b", U64, &bytes(1)));
    assert_eq!(outcome, Err(PoolError::LogPoolNotAvailable));
}

#[test]
fn a_full_table_is_reported() {
    let mut machine = Machine::new();
    for batch in 0..2 {
        machine
            .transaction(|tx| {
                for i in 0..128 {
                    tx.allocate_with_id(&format!("small_{}_{}", batch, i), U32, &[1, 2, 3, 4])?;
                }
                Ok(())
            })
            .unwrap();
    }
    assert_eq!(machine.pool.as_ref().unwrap().active_entries().len(), 256);
    assert_eq!(
        machine.transaction(|tx| tx.allocate_with_id("one_too_many", U32, &[1, 2, 3, 4])),
        Err(PoolError::ObjectTableFull)
    );
}

#[test]
fn a_full_log_table_is_reported() {
    let mut machine = Machine::new();
    let address = machine.transaction(|tx| tx.allocate_with_id("a", U64, &bytes(0))).unwrap();
    let outcome = machine.transaction(|tx| {
        for i in 1..=256 {
            tx.modify(address, U64, &bytes(i))?;
        }
        let outcome = tx.modify(address, U64, &bytes(257));
        assert_eq!(outcome, Err(PoolError::ObjectTableFull));
        outcome
    });
    assert_eq!(outcome, Err(PoolError::ObjectTableFull));
    machine
        .transaction(|tx| {
            assert_eq!(read(tx, "a"), Ok(0));
            Ok(())
        })
        .unwrap();
}

#[test]
fn a_full_heap_is_reported() {
    let mut machine = Machine::new();
    let huge = TypeInfo { name: "Huge", size: 2 * POOL_SIZE, align: 8 };
    let data = vec![1; huge.size];
    assert_eq!(
        machine.transaction(|tx| tx.allocate_with_id("huge", huge, &data)),
        Err(PoolError::AllocationFailed)
    );
    machine
        .transaction(|tx| {
            assert_eq!(tx.get_by_id("huge", huge), Err(PoolError::InvalidId));
            Ok(())
        })
        .unwrap();
    assert_eq!(machine.pool.as_ref().unwrap().active_entries(), vec![]);
}

#[test]
fn a_full_log_heap_is_reported() {
    let mut machine = Machine::new();
    let large = TypeInfo { name: "Large", size: 400_000, align: 8 };
    let address = machine.transaction(|tx| tx.allocate_with_id("a", large, &vec![1; 400_000])).unwrap();
    // The log keeps the block of the allocation until it gets a new heap.
    let outcome = machine.transaction(|tx| {
        tx.modify(address, large, &vec![2; 400_000])?;
        tx.modify(address, large, &vec![3; 400_000])
    });
    assert_eq!(outcome, Err(PoolError::LogPoolFull));
    machine
        .transaction(|tx| {
            assert_eq!(tx.read_by_id("a", large), Ok(vec![1; 400_000]));
            Ok(())
        })
        .unwrap();
}

#[test]
fn a_record_without_layout_is_refused() {
    let mut log = new_pool();
    let op = LoggedOperation {
        op_type: OperationType::Allocation,
        pool_base_address: 1,
        absolute_address: 2,
        data_size: isize::MAX as usize - 46,
        type_hash: 4,
    };
    assert_eq!(log.append(op, &[]), Err(PoolError::LayoutError));
    assert!(!log.has_logs());
}

#[test]
fn records_are_appended_in_order() {
    let mut log = new_pool();
    let mut op = LoggedOperation {
        op_type: OperationType::Modification,
        pool_base_address: 0x1000,
        absolute_address: 0x5000,
        data_size: 3,
        type_hash: 77,
    };
    let (slot, address) = log.append(op, &[7, 8, 9]).unwrap();
    assert_eq!(slot, 0);
    assert_eq!(address % 8, 0);
    op.op_type = OperationType::Deallocation;
    assert_eq!(log.append(op, &[]).unwrap().0, 1);
    assert!(log.is_readable());
    let (first, original) = log.record(0).unwrap();
    assert_eq!(first.op_type, OperationType::Modification);
    assert_eq!(original, vec![7, 8, 9]);
    let (second, original) = log.record(1).unwrap();
    assert_eq!(second, op);
    assert_eq!(original.len(), 3);
    assert_eq!(log.record(2), None);
    let used = log.heap.used();
    assert!(used > 0);
    let memory = Box::leak(Box::<[u8]>::new_uninit_slice(POOL_SIZE - HEAP_START));
    log.empty_log_pool(Heap::from_slice(memory));
    assert_eq!(log.heap.used(), 0);
    assert!(!log.has_logs());
    assert_eq!(log.record(0), None);
    assert!(log.memory.iter().all(|b| *b == 0));
}

#[test]
fn rollback_leaves_other_pools_alone() {
    let mut pool = new_pool();
    let mut log = new_pool();
    let start = pool.base_address + 16448;
    let op = LoggedOperation {
        op_type: OperationType::Modification,
        pool_base_address: pool.base_address + 1,
        absolute_address: start,
        data_size: 1,
        type_hash: 0,
    };
    log.append(op, &[5]).unwrap();
    assert!(pool.is_taking_from(&log));
    pool.perform_rollback(&log);
    assert_eq!(pool.memory[0], 0);
    let own = LoggedOperation { pool_base_address: pool.base_address, ..op };
    log.append(own, &[6]).unwrap();
    pool.perform_rollback(&log);
    assert_eq!(pool.memory[0], 6);
    let outside = LoggedOperation { absolute_address: start - 1, ..own };
    log.append(outside, &[6]).unwrap();
    assert!(!pool.is_taking_from(&log));
}

#[test]
fn what_a_crash_left_is_undone_in_other_pools_too() {
    let mut machine = Machine::new();
    let address = machine.transaction(|tx| tx.allocate_with_id("a", U64, &bytes(1))).unwrap();
    let mut context = machine.begin();
    context.modify(address, U64, &bytes(2)).unwrap();
    machine.crash(context);
    // The next transaction is on another pool.
    let mut others = vec![machine.pool.take().unwrap()];
    let begun = new_pool().transaction(machine.log.take(), &mut others);
    assert!(begun.log_emptied);
    assert_eq!(others[0].read(address, 8), bytes(1));
}

#[test]
fn a_given_up_slot_is_not_stored_in() {
    let mut machine = Machine::new();
    let address = machine.transaction(|tx| tx.allocate_with_id("a", U64, &bytes(1))).unwrap();
    machine
        .transaction(|tx| {
            tx.deallocate_by_id("a")?;
            tx.allocate_with_id("b", U64, &bytes(2))?;
            assert_eq!(tx.pending_changes.len(), 1);
            assert_eq!(tx.pending_changes[0].entry, 1);
            Ok(())
        })
        .unwrap();
    machine
        .transaction(|tx| {
            assert_eq!(read(tx, "a"), Err(PoolError::InvalidId));
            assert_eq!(read(tx, "b"), Ok(2));
            // The slot is free again now.
            tx.allocate_with_id("c", U64, &bytes(3))?;
            assert_eq!(tx.pending_changes[0].entry, 0);
            Ok(())
        })
        .unwrap();
    assert_eq!(machine.freed, vec![FreedBlock { address, size: 8 }]);
}

#[test]
fn an_aborted_transaction_that_gave_up_and_stored_leaves_no_trace() {
    let mut machine = Machine::new();
    machine.transaction(|tx| tx.allocate_with_id("a", U64, &bytes(1))).unwrap();
    let outcome: Result<(), PoolError> = machine.transaction(|tx| {
        tx.deallocate_by_id("a")?;
        tx.allocate_with_id("b", U64, &bytes(2))?;
        Err(PoolError::TransactionFailed)
    });
    assert_eq!(outcome, Err(PoolError::TransactionFailed));
    machine
        .transaction(|tx| {
            assert_eq!(read(tx, "a"), Ok(1));
            assert_eq!(read(tx, "b"), Err(PoolError::InvalidId));
            Ok(())
        })
        .unwrap();
    assert!(!machine.log.as_ref().unwrap().has_logs());
    assert_eq!(machine.pool.as_ref().unwrap().active_entries().len(), 1);
}

#[test]
fn a_crash_after_giving_up_and_storing_is_taken_back() {
    let mut machine = Machine::new();
    machine.transaction(|tx| tx.allocate_with_id("a", U64, &bytes(1))).unwrap();
    let mut context = machine.begin();
    context.deallocate_by_id("a").unwrap();
    context.allocate_with_id("b", U64, &bytes(2)).unwrap();
    machine.crash(context);
    machine
        .transaction(|tx| {
            assert_eq!(read(tx, "a"), Ok(1));
            assert_eq!(read(tx, "b"), Err(PoolError::InvalidId));
            Ok(())
        })
        .unwrap();
}

#[test]
fn an_identifier_is_given_up_once() {
    let mut machine = Machine::new();
    machine.transaction(|tx| tx.allocate_with_id("a", U64, &bytes(1))).unwrap();
    machine
        .transaction(|tx| {
            tx.deallocate_by_id("a")?;
            assert!(tx.log_pool.as_ref().unwrap().record(0).is_some());
            assert_eq!(tx.deallocate_by_id("a"), Err(PoolError::InvalidId));
            assert!(tx.log_pool.as_ref().unwrap().record(1).is_none());
            // Stored anew, it can be given up again.
            tx.allocate_with_id("a", U64, &bytes(2))?;
            tx.deallocate_by_id("a")?;
            assert_eq!(tx.deallocate_by_id("a"), Err(PoolError::InvalidId));
            Ok(())
        })
        .unwrap();
    machine.transaction(|_| Ok(())).unwrap();
    assert_eq!(machine.freed.len(), 2);
}

#[test]
fn the_mark_of_the_log_pool_is_refused() {
    let mut machine = Machine::new();
    machine
        .transaction(|tx| {
            let refused = Err(PoolError::LogPoolNotAvailable);
            assert_eq!(tx.allocate_with_id("__LOG__", U64, &bytes(1)), refused);
            assert_eq!(tx.pool.active_entries(), vec![]);
            // Elsewhere it marks nothing.
            tx.allocate_with_id("a", U64, &bytes(2))?;
            tx.allocate_with_id("__LOG__", U64, &bytes(3))?;
            Ok(())
        })
        .unwrap();
    let pool = machine.pool.as_ref().unwrap();
    assert!(!pool.is_log_pool());
    machine
        .transaction(|tx| {
            assert_eq!(read(tx, "__LOG__"), Ok(3));
            Ok(())
        })
        .unwrap();
}

#[test]
fn a_change_is_made_of_the_bytes_once_they_are_logged() {
    let mut machine = Machine::new();
    let address = machine.transaction(|tx| tx.allocate_with_id("a", U64, &bytes(20))).unwrap();
    machine
        .transaction(|tx| {
            assert_eq!(
                tx.modify_with(4711, U64, |_| unreachable!()),
                Err(PoolError::InvalidId)
            );
            tx.modify_with(address, U64, |original| {
                assert_eq!(original, bytes(20));
                bytes(22)
            })
        })
        .unwrap();
    machine
        .transaction(|tx| {
            assert_eq!(read(tx, "a"), Ok(22));
            Ok(())
        })
        .unwrap();
    // Without a log nothing is changed.
    machine.log = None;
    let outcome = machine.transaction(|tx| tx.modify_with(address, U64, |_| unreachable!()));
    assert_eq!(outcome, Err(PoolError::LogPoolNotAvailable));
}

#[test]
fn an_object_outlives_transactions_on_others() {
    let mut machine = Machine::new();
    let address = machine.transaction(|tx| tx.allocate_with_id("kept", U64, &bytes(7))).unwrap();
    for round in 0..5 {
        machine
            .transaction(|tx| {
                let other = tx.allocate_with_id("other", U64, &bytes(round))?;
                tx.modify(other, U64, &bytes(round + 1))?;
                tx.allocate_with_id(&format!("more{round}"), U32, &[1; 4])?;
                tx.deallocate_by_id("other")
            })
            .unwrap();
        let outcome: Result<(), PoolError> = machine.transaction(|tx| {
            tx.modify(address, U64, &bytes(99))?;
            tx.deallocate_by_id("kept")?;
            Err(PoolError::TransactionFailed)
        });
        assert_eq!(outcome, Err(PoolError::TransactionFailed));
        machine
            .transaction(|tx| {
                assert_eq!(read(tx, "kept"), Ok(7));
                assert_eq!(tx.get_by_id("kept", U64), Ok(address));
                Ok(())
            })
            .unwrap();
    }
}

#[test]
fn zero_sized_objects_have_an_address() {
    let mut machine = Machine::new();
    let unit = TypeInfo { name: "()", size: 0, align: 1 };
    let first = machine.transaction(|tx| tx.allocate_with_id("u1", unit, &[])).unwrap();
    let second = machine.transaction(|tx| tx.allocate_with_id("u2", unit, &[])).unwrap();
    assert_ne!(first, second);
    machine
        .transaction(|tx| {
            assert_eq!(tx.read_by_id("u1", unit), Ok(vec![]));
            Ok(())
        })
        .unwrap();
}

#[test]
fn an_identifier_without_an_object_is_refused() {
    let mut machine = Machine::new();
    machine
        .transaction(|tx| {
            // Blank slots have the empty identifier, but no object.
            assert_eq!(tx.deallocate_by_id(""), Err(PoolError::InvalidId));
            tx.allocate_with_id("", U64, &bytes(3))?;
            Ok(())
        })
        .unwrap();
    machine
        .transaction(|tx| {
            assert_eq!(read(tx, ""), Ok(3));
            tx.deallocate_by_id("")
        })
        .unwrap();
    assert!(machine.pool.as_ref().unwrap().is_sound());
    machine
        .transaction(|tx| {
            assert_eq!(read(tx, ""), Err(PoolError::InvalidId));
            Ok(())
        })
        .unwrap();
    assert_eq!(machine.freed.len(), 1);
}

#[test]
fn a_claim_without_an_object_is_not_given_up() {
    let mut machine = Machine::new();
    const HUGE: TypeInfo = TypeInfo { name: "Huge", size: POOL_SIZE, align: 8 };
    machine
        .transaction(|tx| {
            let huge = vec![0; POOL_SIZE];
            assert_eq!(tx.allocate_with_id("huge", HUGE, &huge), Err(PoolError::AllocationFailed));
            assert_eq!(tx.deallocate_by_id("huge"), Err(PoolError::InvalidId));
            Ok(())
        })
        .unwrap();
    assert!(machine.pool.as_ref().unwrap().is_sound());
}

#[test]
fn identifiers_stay_unique() {
    let mut machine = Machine::new();
    machine
        .transaction(|tx| {
            for round in 0..3 {
                for id in ["a", "b", "c"] {
                    tx.allocate_with_id(id, U64, &bytes(round))?;
                }
            }
            tx.deallocate_by_id("b")?;
            tx.allocate_with_id("b", U64, &bytes(7))?;
            Ok(())
        })
        .unwrap();
    machine
        .transaction(|tx| {
            assert_eq!(read(tx, "a"), Ok(2));
            assert_eq!(read(tx, "b"), Ok(7));
            assert_eq!(read(tx, "c"), Ok(2));
            Ok(())
        })
        .unwrap();
    assert_eq!(machine.pool.as_ref().unwrap().active_entries().len(), 3);
}

#[test]
fn blocks_come_from_the_first_hole_and_do_not_overlap() {
    let mut machine = Machine::new();
    let start = machine.pool.as_ref().unwrap().base_address + HEAP_START as u64;
    const BLOCK: TypeInfo = TypeInfo { name: "Block", size: 24, align: 8 };
    let placed = machine
        .transaction(|tx| {
            let a = tx.allocate_with_id("a", BLOCK, &[1; 24])?;
            let b = tx.allocate_with_id("b", U64, &bytes(2))?;
            let c = tx.allocate_with_id("c", BLOCK, &[3; 24])?;
            Ok((a, b, c))
        })
        .unwrap();
    // Two words are the smallest block.
    assert_eq!(placed, (start, start + 24, start + 40));
    machine
        .transaction(|tx| {
            tx.modify(placed.1, U64, &bytes(9))?;
            assert_eq!(tx.read_by_id("a", BLOCK), Ok(vec![1; 24]));
            assert_eq!(read(tx, "b"), Ok(9));
            assert_eq!(tx.read_by_id("c", BLOCK), Ok(vec![3; 24]));
            Ok(())
        })
        .unwrap();
}
