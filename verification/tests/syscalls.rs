use linked_list_allocator::Heap;
use nvpool::allocator::{
    media_layout, GlobalMetadata, GlobalPersistentAllocator, Media, PoolDirectoryEntry,
};
use nvpool::pool::{Pool, PoolError, PoolHeader, PoolImage};
use nvpool::syscalls::{
    sys_create_persistent_pool, sys_perform_transaction, sys_release_persistent_pool, usize_to_str,
};
use nvpool::table::ObjectTableEntry;
use nvpool::transaction::{Begun, Finished, TransactionContext, TypeInfo};
use std::alloc::Layout;
use std::mem::MaybeUninit;

const POOL_SIZE: usize = 1048576;
const NVDIMM_SIZE: usize = 65 * 1024 * 1024;
const SLICE: TypeInfo = TypeInfo { name: "&[u8]", size: 16, align: 8 };

fn image() -> PoolImage {
    PoolImage {
        header: PoolHeader {
            magic: 0,
            size: 0,
            max_objects: 0,
            object_table_offset: 0,
            heap_start: 0,
            heap_size: 0,
        },
        object_table: vec![ObjectTableEntry::empty(); 256],
        memory: vec![0; POOL_SIZE - 16448],
    }
}

/// An allocator, and the memory of the first pool that it makes.
fn machine() -> (GlobalPersistentAllocator, &'static mut [MaybeUninit<u8>]) {
    let layout = media_layout(NVDIMM_SIZE);
    let nvdimm = Box::leak(Box::<[u8]>::new_uninit_slice(NVDIMM_SIZE));
    let base = nvdimm.as_ptr() as u64;
    let media = Media {
        metadata: GlobalMetadata {
            magic_number: 0,
            nvdimm_size: 0,
            pool_size: 0,
            total_pools: 0,
            used_pools: 0,
            initialized_pools: 0,
            bitmap_offset: 0,
            pool_directory_offset: 0,
            bitmap_words: 0,
            log_pool_offset: 0,
            initialization_failures: 0,
            total_allocations: 0,
            total_deallocations: 0,
        },
        bitmap: vec![],
        pool_directory: (0..layout.max_pools)
            .map(|_| PoolDirectoryEntry { name: [0; 64], pool: None })
            .collect(),
    };
    let (_, pools) = nvdimm.split_at_mut(layout.directory_offset + layout.max_pools * 160);
    let (log, pools) = pools.split_at_mut(POOL_SIZE);
    let (_, log) = log.split_at_mut(16448);
    let (first, _) = pools.split_at_mut(POOL_SIZE);
    let (_, first) = first.split_at_mut(16448);
    let address = media.log_pool_address(base, NVDIMM_SIZE);
    let log_pool = Pool::new(address, POOL_SIZE, image(), Heap::from_slice(log));
    (GlobalPersistentAllocator::new(base, NVDIMM_SIZE, media, log_pool), first)
}

#[test]
fn numbers_in_decimal() {
    assert_eq!(usize_to_str(0), "0");
    assert_eq!(usize_to_str(7), "7");
    assert_eq!(usize_to_str(10), "10");
    assert_eq!(usize_to_str(9081726354), "9081726354");
    assert_eq!(usize_to_str(usize::MAX), usize::MAX.to_string());
}

#[test]
fn pools_are_created_and_released() {
    let (mut allocator, _) = machine();
    let open = |_| (image(), Heap::empty());
    assert_eq!(sys_create_persistent_pool(&mut allocator, None, open), -1);
    assert_eq!(sys_create_persistent_pool(&mut allocator, Some(b""), open), -1);
    assert_eq!(sys_create_persistent_pool(&mut allocator, Some(b"__LOG__"), open), -1);
    assert_eq!(sys_create_persistent_pool(&mut allocator, Some(b"POOL1"), open), 0);
    assert_eq!(sys_create_persistent_pool(&mut allocator, Some(b"POOL1"), open), 0);
    assert_eq!(allocator.metadata.used_pools, 2);
    let (code, wiped) = sys_release_persistent_pool(&mut allocator, b"POOL1");
    assert_eq!(code, 0);
    assert_eq!(wiped.unwrap().header.magic, 0);
    let (code, wiped) = sys_release_persistent_pool(&mut allocator, b"POOL1");
    assert_eq!(code, -1);
    assert!(wiped.is_none());
}

/// Neither heap has to be brought up to date.
fn as_begun(begun: Begun) -> TransactionContext {
    assert_eq!(begun.freed, vec![]);
    assert!(!begun.log_emptied);
    begun.context
}

#[test]
fn a_slice_is_stored_under_a_number() {
    let (mut allocator, memory) = machine();
    let heap = Heap::from_slice(memory);
    let open = |_| (image(), heap);
    let slice = Some((0x1234, 5));
    let report = sys_perform_transaction(
        &mut allocator,
        Some(b"POOL1"),
        slice,
        123,
        open,
        as_begun,
    );
    assert_eq!(report.code, 0);
    assert!(report.log_emptied);
    let closed = |_| panic!("the pool exists");
    let slot = allocator.get_or_create_pool(b"POOL1", closed).unwrap();
    let begun = allocator.begin_transaction(slot);
    let mut expected = 0x1234u64.to_le_bytes().to_vec();
    expected.extend_from_slice(&5u64.to_le_bytes());
    assert_eq!(begun.context.read_by_id("123", SLICE), Ok(expected));
}

#[test]
fn missing_arguments_and_pools_are_reported() {
    let (mut allocator, _) = machine();
    let name: Option<&[u8]> = Some(b"POOL1");
    let slice = Some((1, 1));
    let open = |_| (image(), Heap::empty());
    let report = sys_perform_transaction(&mut allocator, name, None, 1, open, as_begun);
    assert_eq!(report.code, -1);
    let report = sys_perform_transaction(&mut allocator, None, slice, 1, open, as_begun);
    assert_eq!(report.code, -1);
    let empty: Option<&[u8]> = Some(b"");
    let report = sys_perform_transaction(&mut allocator, empty, slice, 1, open, as_begun);
    assert_eq!(report.code, -2);
    let reserved: Option<&[u8]> = Some(b"__LOG__");
    let report = sys_perform_transaction(&mut allocator, reserved, slice, 1, open, as_begun);
    assert_eq!(report.code, -2);
    assert_eq!(allocator.metadata.used_pools, 1);
}

#[test]
fn a_transaction_that_fails_is_reported() {
    let (mut allocator, memory) = machine();
    // The heap of the pool is used up.
    let (memory, _) = memory.split_at_mut(64);
    let mut heap = Heap::from_slice(memory);
    while heap.allocate_first_fit(Layout::from_size_align(16, 1).unwrap()).is_ok() {}
    let open = |_| (image(), heap);
    let report = sys_perform_transaction(
        &mut allocator,
        Some(b"POOL1"),
        Some((1, 1)),
        1,
        open,
        as_begun,
    );
    assert_eq!(report.code, -1);
    assert!(report.log_emptied);
}

#[test]
fn freed_blocks_are_there_for_the_next_transaction() {
    let (mut allocator, memory) = machine();
    let (small, rest) = memory.split_at_mut(64);
    let (other, _) = rest.split_at_mut(64);
    let heap = Heap::from_slice(small);
    let open = |_| (image(), heap);
    let name: Option<&[u8]> = Some(b"POOL1");
    let slice = Some((1, 1));
    let report = sys_perform_transaction(&mut allocator, name, slice, 1, open, as_begun);
    assert_eq!(report.code, 0);
    let closed = |_| panic!("the pool exists");
    let slot = allocator.get_or_create_pool(b"POOL1", closed).unwrap();
    let mut begun = allocator.begin_transaction(slot);
    assert_eq!(begun.context.deallocate_by_id("1"), Ok(()));
    let (ended, _) = begun.context.finish(Ok(()));
    allocator.end_transaction(slot, ended);
    let heap = Heap::from_slice(other);
    let settle = |begun: Begun| {
        assert_eq!(begun.freed.len(), 1);
        assert_eq!(begun.freed[0].size, 16);
        let mut context = begun.context;
        context.pool.heap = heap;
        context
    };
    let report = sys_perform_transaction(&mut allocator, name, slice, 2, closed, settle);
    assert_eq!(report.code, 0);
}

#[test]
fn a_transaction_runs_its_work() {
    let (mut allocator, memory) = machine();
    let heap = Heap::from_slice(memory);
    let slot = allocator.get_or_create_pool(b"POOL1", |_| (image(), heap)).unwrap();
    let (result, log_emptied) = allocator.transaction(slot, as_begun, |mut tx| {
        let result = tx.allocate_with_id("kept", SLICE, &[7; 16]);
        (tx, result)
    });
    assert!(result.is_ok());
    assert!(log_emptied);
    let address = result.unwrap();
    // A failure takes everything back that was done before it.
    let (result, _): (Result<(), PoolError>, bool) =
        allocator.transaction(slot, as_begun, |mut tx| {
            tx.allocate_with_id("lost", SLICE, &[8; 16]).unwrap();
            tx.modify(address, SLICE, &[9; 16]).unwrap();
            tx.deallocate_by_id("kept").unwrap();
            (tx, Err(PoolError::TransactionFailed))
        });
    assert_eq!(result, Err(PoolError::TransactionFailed));
    let settle = |begun: Begun| {
        assert_eq!(begun.freed.len(), 1);
        begun.context
    };
    let (result, _) = allocator.transaction(slot, settle, |tx| {
        assert_eq!(tx.get_by_id("lost", SLICE), Err(PoolError::InvalidId));
        let result = tx.read_by_id("kept", SLICE);
        (tx, result)
    });
    assert_eq!(result, Ok(vec![7; 16]));
}

#[test]
fn transactions_begin_where_recovery_knows_its_blocks() {
    let (mut allocator, memory) = machine();
    let heap = Heap::from_slice(memory);
    let slot = allocator.get_or_create_pool(b"POOL1", |_| (image(), heap)).unwrap();
    assert!(allocator.is_ready(slot));
    // The slot of the log pool holds no pool, and there is no slot behind the last one.
    assert!(!allocator.is_ready(0));
    assert!(!allocator.is_ready(allocator.metadata.total_pools as usize));
    // A slot that was given up without its block.
    let pool = allocator.pool_directory[slot].pool.as_mut().unwrap();
    pool.object_table[5].operation_done = true;
    assert!(!allocator.is_ready(slot));
    let pool = allocator.pool_directory[slot].pool.as_mut().unwrap();
    pool.object_table[5].active = true;
    assert!(allocator.is_ready(slot));
}

#[test]
fn transactions_begin_where_a_crash_can_be_undone() {
    let (mut allocator, memory) = machine();
    let heap = Heap::from_slice(memory);
    let slot = allocator.get_or_create_pool(b"POOL1", |_| (image(), heap)).unwrap();
    let mut context = allocator.begin_transaction(slot).context;
    context.allocate_with_id("a", SLICE, &[1; 16]).unwrap();
    context.deallocate_by_id("a").unwrap();
    let crashed = Finished { pool: context.pool, log_pool: context.log_pool, log_emptied: false };
    allocator.end_transaction(slot, crashed);
    assert!(allocator.is_ready(slot));
    // Undoing the deallocation would make the slot live again, so that nothing is given back.
    let pool = allocator.pool_directory[slot].pool.as_mut().unwrap();
    let address = pool.object_table[0].data.take();
    assert!(allocator.is_ready(slot));
    let pool = allocator.pool_directory[slot].pool.as_mut().unwrap();
    pool.object_table[0].data = address;
    // A record that does not lie in the log pool cannot be undone.
    let log = allocator.log_pool.as_mut().unwrap();
    log.object_table[0].data = Some(8);
    assert!(!allocator.is_ready(slot));
}
