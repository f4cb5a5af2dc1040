use linked_list_allocator::Heap;
use nvpool::allocator::{
    compare_name, media_layout, AllocError, GlobalMetadata, GlobalPersistentAllocator, Media,
    MediaLayout, PoolDirectoryEntry, RecoveryStatus, ALLOCATOR_MAGIC,
};
use nvpool::boot::FrameRange;
use nvpool::nvram::NvramAllocator;
use nvpool::oplog::{LoggedOperation, OperationType};
use nvpool::pool::{Pool, PoolHeader, PoolImage, POOL_MAGIC};
use nvpool::table::ObjectTableEntry;

const POOL_SIZE: usize = 1048576;
const NVDIMM_SIZE: usize = 65 * 1024 * 1024;
const BASE: u64 = 0x1_0000_0000;

fn blank_image() -> PoolImage {
    PoolImage {
        header: PoolHeader {
            magic: 0,
            size: 0,
            max_objects: 0,
            object_table_offset: 0,
            heap_start: 0,
            heap_size: 0,
        },
        object_table: vec![ObjectTableEntry::empty(); 256],
        memory: vec![0; POOL_SIZE - 16448],
    }
}

// These pools are never asked for memory.
fn open(_address: u64) -> (PoolImage, Heap) {
    (blank_image(), Heap::empty())
}

fn blank_metadata() -> GlobalMetadata {
    GlobalMetadata {
        magic_number: 0,
        nvdimm_size: 0,
        pool_size: 0,
        total_pools: 0,
        used_pools: 0,
        initialized_pools: 0,
        bitmap_offset: 0,
        pool_directory_offset: 0,
        bitmap_words: 0,
        log_pool_offset: 0,
        initialization_failures: 0,
        total_allocations: 0,
        total_deallocations: 0,
    }
}

fn blank_directory() -> Vec<PoolDirectoryEntry> {
    (0..64).map(|_| PoolDirectoryEntry { name: [0; 64], pool: None }).collect()
}

fn fresh() -> GlobalPersistentAllocator {
    let media =
        Media { metadata: blank_metadata(), bitmap: vec![], pool_directory: blank_directory() };
    assert!(!media.is_resumable());
    let address = media.log_pool_address(BASE, NVDIMM_SIZE);
    let log_pool = Pool::new(address, POOL_SIZE, blank_image(), Heap::empty());
    GlobalPersistentAllocator::new(BASE, NVDIMM_SIZE, media, log_pool)
}

#[test]
fn layout_of_an_nvdimm() {
    assert_eq!(
        media_layout(NVDIMM_SIZE),
        MediaLayout { max_pools: 64, bitmap_words: 1, bitmap_offset: 96, directory_offset: 112 }
    );
    assert_eq!(
        media_layout(1024 * 1024 * 1024),
        MediaLayout { max_pools: 960, bitmap_words: 15, bitmap_offset: 96, directory_offset: 336 }
    );
}

#[test]
fn a_fresh_nvdimm_has_a_log_pool() {
    let allocator = fresh();
    assert_eq!(
        allocator.metadata,
        GlobalMetadata {
            magic_number: ALLOCATOR_MAGIC,
            nvdimm_size: NVDIMM_SIZE,
            pool_size: POOL_SIZE,
            total_pools: 64,
            used_pools: 1,
            initialized_pools: 1,
            bitmap_offset: 96,
            pool_directory_offset: 112,
            bitmap_words: 1,
            log_pool_offset: 112 + 64 * 160,
            initialization_failures: 0,
            total_allocations: 0,
            total_deallocations: 0,
        }
    );
    assert_eq!(allocator.bitmap, vec![1, 1]);
    assert_eq!(&allocator.pool_directory[0].name[..8], b"__LOG__\0");
    assert!(allocator.pool_directory[0].pool.is_none());
    assert_eq!(allocator.log_pool.as_ref().unwrap().base_address, BASE + 112 + 64 * 160);
    assert_eq!(
        allocator.check_recovery_status(),
        RecoveryStatus {
            metadata_valid: true,
            bitmap_consistent: true,
            used_pools: 1,
            total_pools: 64,
            initialization_failures: 0,
        }
    );
}

#[test]
fn pools_are_found_by_name() {
    let mut allocator = fresh();
    let first = allocator.get_or_create_pool(b"POOL1", open).unwrap();
    let second = allocator.get_or_create_pool(b"POOL2", open).unwrap();
    assert_eq!((first, second), (1, 2));
    assert_eq!(allocator.get_or_create_pool(b"POOL1", open), Ok(first));
    assert_eq!(allocator.get_or_create_pool(b"POOL2", open), Ok(second));
    assert_eq!(allocator.metadata.used_pools, 3);
    assert_eq!(allocator.metadata.initialized_pools, 3);
    assert_eq!(allocator.metadata.total_allocations, 2);
    assert_eq!(allocator.bitmap, vec![7, 7]);
    assert_eq!(&allocator.pool_directory[1].name[..6], b"POOL1\0");
    let pool = allocator.pool_directory[2].pool.as_ref().unwrap();
    assert_eq!(pool.base_address, allocator.pool_address(2));
    assert_eq!(pool.base_address, BASE + 112 + 64 * 160 + 2 * POOL_SIZE as u64);
    assert_eq!(pool.header.magic, POOL_MAGIC);
    assert!(allocator.is_bit_set(2, true) && allocator.is_bit_set(2, false));
    assert!(!allocator.is_bit_set(3, true) && !allocator.is_bit_set(3, false));
}

#[test]
fn bad_names_are_refused() {
    let mut allocator = fresh();
    assert_eq!(allocator.get_or_create_pool(b"", open), Err(AllocError::NameTooLongOrShort));
    assert_eq!(allocator.get_or_create_pool(&[b'x'; 64], open), Err(AllocError::NameTooLongOrShort));
    assert_eq!(allocator.get_or_create_pool(b"__LOG__", open), Err(AllocError::NameNotAllowed));
    assert_eq!(allocator.get_or_create_pool(&[b'x'; 63], open), Ok(1));
    assert_eq!(allocator.metadata.used_pools, 2);
}

#[test]
fn pools_run_out() {
    let mut allocator = fresh();
    for i in 1..64 {
        assert_eq!(allocator.get_or_create_pool(format!("POOL{i}").as_bytes(), open), Ok(i));
    }
    assert_eq!(allocator.get_or_create_pool(b"POOL64", open), Err(AllocError::NoPoolsAvailable));
    // The others are still found.
    assert_eq!(allocator.get_or_create_pool(b"POOL63", open), Ok(63));
    assert_eq!(allocator.bitmap, vec![u64::MAX, u64::MAX]);
    assert!(allocator.verify_bitmap_consistency());
}

#[test]
fn a_wrong_count_is_noticed() {
    let mut allocator = fresh();
    // No slot is free, but the metadata says otherwise.
    allocator.bitmap[0] = u64::MAX;
    assert_eq!(allocator.get_or_create_pool(b"POOL1", open), Err(AllocError::InconsistentState));
    assert_eq!(allocator.metadata.initialization_failures, 1);
    assert_eq!(allocator.metadata.used_pools, 1);
    allocator.metadata.used_pools = 2;
    assert!(!allocator.verify_bitmap_consistency());
    assert!(!allocator.check_recovery_status().bitmap_consistent);
    allocator.metadata.pool_size = 4096;
    assert!(!allocator.verify_metadata());
}

#[test]
fn a_released_pool_is_wiped() {
    let mut allocator = fresh();
    let slot = allocator.get_or_create_pool(b"POOL1", open).unwrap();
    let pool = allocator.pool_directory[slot].pool.as_mut().unwrap();
    pool.object_table[4].active = true;
    pool.object_table[5].valid = true;
    // Given up by a transaction; the memory has not come back yet.
    pool.object_table[6].operation_done = true;
    pool.object_table[6].set_id(b"gone");
    pool.object_table[6].type_size = 8;
    pool.object_table[6].data = Some(pool.base_address + 16448);
    pool.memory[100] = 1;
    let (found, wiped) = allocator.release_pool(b"POOL1");
    assert!(found);
    let wiped = wiped.unwrap();
    assert_eq!(wiped.header.magic, 0);
    assert_eq!(wiped.header.size, POOL_SIZE);
    assert_eq!(wiped.active_entries(), vec![]);
    for entry in &wiped.object_table {
        assert!(!entry.active && !entry.valid && !entry.operation_done);
        assert_eq!((entry.id, entry.id_len), ([0; 32], 0));
        assert_eq!((entry.type_hash, entry.type_size, entry.data), (0, 0, None));
    }
    assert!(wiped.memory.iter().all(|b| *b == 0));
    assert_eq!(allocator.bitmap, vec![1, 1]);
    assert_eq!(allocator.metadata.used_pools, 1);
    assert_eq!(allocator.metadata.initialized_pools, 2);
    assert_eq!(allocator.metadata.total_deallocations, 1);
    assert_eq!(allocator.pool_directory[slot].name, [0; 64]);
    assert!(allocator.pool_directory[slot].pool.is_none());
    assert!(allocator.verify_bitmap_consistency());
    assert!(!allocator.release_pool(b"POOL1").0);
    // Its slot is used again.
    assert_eq!(allocator.get_or_create_pool(b"POOL2", open), Ok(slot));
}

#[test]
fn the_log_pool_is_not_released() {
    let mut allocator = fresh();
    assert!(!allocator.release_pool(b"__LOG__").0);
    assert!(!allocator.release_pool(b"").0);
    assert!(!allocator.release_pool(&[b'x'; 64]).0);
    assert_eq!(allocator.bitmap, vec![1, 1]);
}

#[test]
fn names_are_compared_up_to_the_padding() {
    let mut entry = [0; 64];
    entry[..5].copy_from_slice(b"POOL1");
    assert!(compare_name(b"POOL1", &entry));
    assert!(!compare_name(b"POOL", &entry));
    assert!(!compare_name(b"POOL12", &entry));
    assert!(!compare_name(b"POOL2", &entry));
    // A zero byte at the end is taken for padding.
    assert!(compare_name(b"POOL1\0", &entry));
    assert!(!compare_name(&[0; 64], &entry));
}

fn reopened(log_image: PoolImage, pool: PoolImage) -> GlobalPersistentAllocator {
    let mut metadata = fresh().metadata;
    metadata.used_pools = 2;
    let mut pool_directory = blank_directory();
    pool_directory[0].name[..7].copy_from_slice(b"__LOG__");
    pool_directory[1].name[..5].copy_from_slice(b"POOL1");
    let address = BASE + 112 + 64 * 160 + POOL_SIZE as u64;
    pool_directory[1].pool = Some(Pool::new(address, POOL_SIZE, pool, Heap::empty()));
    let media = Media { metadata, bitmap: vec![3, 3], pool_directory };
    assert!(media.is_resumable());
    let log_address = media.log_pool_address(BASE, NVDIMM_SIZE);
    assert_eq!(log_address, BASE + 112 + 64 * 160);
    let log_pool = Pool::new(log_address, POOL_SIZE, log_image, Heap::empty());
    assert!(log_pool.is_readable());
    assert!(media.pool_directory[1].pool.as_ref().unwrap().is_taking_from(&log_pool));
    GlobalPersistentAllocator::new(BASE, NVDIMM_SIZE, media, log_pool)
}

#[test]
fn an_nvdimm_is_reopened_after_a_crash() {
    let pool_address = BASE + 112 + 64 * 160 + POOL_SIZE as u64;
    let log_address = BASE + 112 + 64 * 160;
    let object = pool_address + 16448 + 32;
    // An object that was being modified when the machine crashed.
    let mut pool = blank_image();
    pool.object_table[0].active = true;
    pool.object_table[0].valid = true;
    pool.object_table[0].data = Some(object);
    pool.object_table[0].type_size = 3;
    pool.memory[32] = 99;
    let record = LoggedOperation {
        op_type: OperationType::Modification,
        pool_base_address: pool_address,
        absolute_address: object,
        data_size: 3,
        type_hash: 0,
    };
    let mut log = blank_image();
    log.object_table[0].active = true;
    log.object_table[0].valid = true;
    log.object_table[0].data = Some(log_address + 16448);
    log.memory[..40].copy_from_slice(&record.encode());
    log.memory[40..43].copy_from_slice(&[1, 2, 3]);
    let allocator = reopened(log, pool);
    let pool = allocator.pool_directory[1].pool.as_ref().unwrap();
    assert_eq!(pool.read(object, 3), vec![1, 2, 3]);
    assert!(pool.object_table[0].operation_done);
    assert!(!allocator.log_pool.as_ref().unwrap().has_logs());
    assert_eq!(allocator.metadata.used_pools, 2);
}

#[test]
fn a_reopened_pool_is_found() {
    let mut allocator = reopened(blank_image(), blank_image());
    assert_eq!(allocator.get_or_create_pool(b"POOL1", open), Ok(1));
    assert_eq!(allocator.get_or_create_pool(b"POOL2", open), Ok(2));
}

#[test]
fn an_inconsistent_nvdimm_is_initialised_anew() {
    let mut metadata = fresh().metadata;
    metadata.used_pools = 5;
    let media = Media { metadata, bitmap: vec![3, 3], pool_directory: blank_directory() };
    assert!(!media.is_resumable());
    let address = media.log_pool_address(BASE, NVDIMM_SIZE);
    let log_pool = Pool::new(address, POOL_SIZE, blank_image(), Heap::empty());
    let allocator = GlobalPersistentAllocator::new(BASE, NVDIMM_SIZE, media, log_pool);
    assert_eq!(allocator.metadata.used_pools, 1);
    assert_eq!(allocator.bitmap, vec![1, 1]);
}

#[test]
fn nvram_is_opened_once() {
    let mut nvram = NvramAllocator::new();
    assert!(nvram.global_allocator.is_none());
    let range = FrameRange { start: BASE, end: BASE + NVDIMM_SIZE as u64 };
    for _ in 0..2 {
        let media =
            Media { metadata: blank_metadata(), bitmap: vec![], pool_directory: blank_directory() };
        let address = media.log_pool_address(BASE, NVDIMM_SIZE);
        let log_pool = Pool::new(address, POOL_SIZE, blank_image(), Heap::empty());
        nvram.init(range, media, log_pool);
        let allocator = nvram.global_allocator.as_mut().unwrap();
        assert_eq!(allocator.base_address, BASE);
        assert_eq!(allocator.metadata.nvdimm_size, NVDIMM_SIZE);
        allocator.get_or_create_pool(b"POOL1", open).unwrap();
    }
    // The second time, the pool was found.
    assert_eq!(nvram.global_allocator.unwrap().metadata.used_pools, 2);
}

#[test]
fn bits_are_set_one_by_one() {
    let mut allocator = fresh();
    for (index, is_used, value) in [(63, true, true), (5, false, true), (0, true, false)] {
        let before: Vec<(bool, bool)> =
            (0..64).map(|i| (allocator.is_bit_set(i, true), allocator.is_bit_set(i, false))).collect();
        allocator.set_bit(index, is_used, value);
        for (i, (used, initialized)) in before.into_iter().enumerate() {
            let changed = |kind| i == index && kind == is_used;
            assert_eq!(allocator.is_bit_set(i, true), if changed(true) { value } else { used });
            assert_eq!(
                allocator.is_bit_set(i, false),
                if changed(false) { value } else { initialized }
            );
        }
    }
    assert_eq!(allocator.bitmap, vec![0b100001, 1 << 63]);
}

#[test]
fn a_pool_stays_found_while_others_come_and_go() {
    let mut allocator = fresh();
    for name in [b"A".as_slice(), b"B", b"KEPT", b"C"] {
        allocator.get_or_create_pool(name, open).unwrap();
    }
    let address = allocator.pool_address(3);
    assert!(allocator.release_pool(b"A").0);
    assert!(allocator.release_pool(b"C").0);
    allocator.get_or_create_pool(b"KEPT2", open).unwrap();
    allocator.get_or_create_pool(b"KEP", open).unwrap();
    assert!(allocator.release_pool(b"B").0);
    let metadata = allocator.metadata;
    let bitmap = allocator.bitmap.clone();
    assert_eq!(allocator.get_or_create_pool(b"KEPT", open), Ok(3));
    assert_eq!(allocator.pool_directory[3].pool.as_ref().unwrap().base_address, address);
    assert_eq!(allocator.metadata, metadata);
    assert_eq!(allocator.bitmap, bitmap);
}

#[test]
fn an_nvdimm_that_is_opened_again_shows_the_same() {
    let mut allocator = fresh();
    for name in [b"A".as_slice(), b"B", b"C"] {
        allocator.get_or_create_pool(name, open).unwrap();
    }
    assert!(allocator.release_pool(b"B").0);
    let pool = allocator.pool_directory[3].pool.as_mut().unwrap();
    pool.object_table[9].active = true;
    pool.object_table[9].valid = true;
    pool.object_table[9].set_id(b"nine");
    pool.memory[5] = 55;
    let addresses = (allocator.pool_address(1), allocator.pool_address(3));
    let GlobalPersistentAllocator { metadata, bitmap, pool_directory, log_pool, .. } = allocator;
    let media = Media { metadata, bitmap: bitmap.clone(), pool_directory };
    assert!(media.is_resumable());
    let log_pool = log_pool.unwrap();
    assert_eq!(media.log_pool_address(BASE, NVDIMM_SIZE), log_pool.base_address);
    let mut reopened = GlobalPersistentAllocator::new(BASE, NVDIMM_SIZE, media, log_pool);
    assert_eq!(reopened.metadata, metadata);
    assert_eq!(reopened.bitmap, bitmap);
    assert_eq!(reopened.get_or_create_pool(b"A", open), Ok(1));
    assert_eq!(reopened.get_or_create_pool(b"C", open), Ok(3));
    assert_eq!((reopened.pool_address(1), reopened.pool_address(3)), addresses);
    let pool = reopened.pool_directory[3].pool.as_ref().unwrap();
    assert!(pool.object_table[9].has_id(b"nine"));
    assert_eq!(pool.memory[5], 55);
    assert_eq!(reopened.log_pool.unwrap().active_entries(), vec![]);
    assert_eq!(reopened.metadata, metadata);
}
