use linked_list_allocator::Heap;
use nvpool::allocator::{
    media_layout, AllocError, GlobalMetadata, GlobalPersistentAllocator, Media, PoolDirectoryEntry,
};
use nvpool::list::{LinkedList, ListNode};
use nvpool::pool::{Pool, PoolError, PoolHeader, PoolImage};
use nvpool::table::ObjectTableEntry;
use nvpool::transaction::{TransactionContext, TypeInfo};
use std::mem::MaybeUninit;

const POOL_SIZE: usize = 1048576;
const NVDIMM_SIZE: usize = 65 * 1024 * 1024;

const SMALL: TypeInfo = TypeInfo { name: "SmallObject", size: 8, align: 4 };
const MEDIUM: TypeInfo = TypeInfo { name: "MediumObject", size: 296, align: 8 };
const LARGE: TypeInfo = TypeInfo { name: "LargeObject", size: 4104, align: 8 };
const U64: TypeInfo = TypeInfo { name: "u64", size: 8, align: 8 };
const NODE: TypeInfo = TypeInfo { name: "ListNode", size: 24, align: 8 };
const LIST: TypeInfo = TypeInfo { name: "LinkedList", size: 24, align: 8 };

type Slots = Vec<Option<&'static mut [MaybeUninit<u8>]>>;

fn open(slots: &mut Slots, address: u64) -> (PoolImage, Heap) {
    let slot = slots
        .iter()
        .position(|s| s.as_ref().is_some_and(|s| s.as_ptr() as u64 == address))
        .unwrap();
    let (_, memory) = slots[slot].take().unwrap().split_at_mut(16448);
    let image = PoolImage {
        header: PoolHeader {
            magic: 0,
            size: 0,
            max_objects: 0,
            object_table_offset: 0,
            heap_start: 0,
            heap_size: 0,
        },
        object_table: vec![ObjectTableEntry::empty(); 256],
        memory: vec![0; POOL_SIZE - 16448],
    };
    (image, Heap::from_slice(memory))
}

struct Machine {
    allocator: GlobalPersistentAllocator,
    slots: Slots,
}

impl Machine {
    fn new() -> Machine {
        let layout = media_layout(NVDIMM_SIZE);
        let nvdimm = Box::leak(Box::<[u8]>::new_uninit_slice(NVDIMM_SIZE + POOL_SIZE));
        let base = nvdimm.as_ptr() as u64;
        let media = Media {
            metadata: GlobalMetadata {
                magic_number: 0,
                nvdimm_size: 0,
                pool_size: 0,
                total_pools: 0,
                used_pools: 0,
                initialized_pools: 0,
                bitmap_offset: 0,
                pool_directory_offset: 0,
                bitmap_words: 0,
                log_pool_offset: 0,
                initialization_failures: 0,
                total_allocations: 0,
                total_deallocations: 0,
            },
            bitmap: Vec::new(),
            pool_directory: (0..layout.max_pools)
                .map(|_| PoolDirectoryEntry { name: [0; 64], pool: None })
                .collect(),
        };
        let mut slots: Slots = Vec::new();
        let (_, mut rest) =
            nvdimm.split_at_mut(layout.directory_offset + layout.max_pools * 160);
        for _ in 0..layout.max_pools {
            let (slot, more) = rest.split_at_mut(POOL_SIZE);
            slots.push(Some(slot));
            rest = more;
        }
        let log_address = media.log_pool_address(base, NVDIMM_SIZE);
        let (image, heap) = open(&mut slots, log_address);
        let log_pool = Pool::new(log_address, POOL_SIZE, image, heap);
        let allocator = GlobalPersistentAllocator::new(base, NVDIMM_SIZE, media, log_pool);
        Machine { allocator, slots }
    }

    fn pool(&mut self, name: &[u8]) -> usize {
        let slots = &mut self.slots;
        self.allocator.get_or_create_pool(name, |address| open(slots, address)).unwrap()
    }

    fn transaction<R>(
        &mut self,
        slot: usize,
        work: impl FnOnce(&mut TransactionContext) -> Result<R, PoolError>,
    ) -> Result<R, PoolError> {
        let mut begun = self.allocator.begin_transaction(slot);
        let outcome = work(&mut begun.context);
        let (finished, outcome) = begun.context.finish(outcome);
        self.allocator.end_transaction(slot, finished);
        outcome
    }
}

fn small(id: u32, active: bool) -> Vec<u8> {
    let mut bytes = id.to_le_bytes().to_vec();
    bytes.extend_from_slice(&[active as u8, 0, 0, 0]);
    bytes
}

fn medium(id: u64) -> Vec<u8> {
    let mut bytes = id.to_le_bytes().to_vec();
    bytes.extend_from_slice(b"TestObject");
    bytes.resize(296, 0);
    bytes
}

fn large(id: u64, fill: u8) -> Vec<u8> {
    let mut bytes = id.to_le_bytes().to_vec();
    bytes.resize(4104, fill);
    bytes
}

fn info(name: &'static str, size: usize, align: usize) -> TypeInfo {
    TypeInfo { name, size, align }
}

#[test]
fn test_single_pool() {
    let mut machine = Machine::new();
    let pool = machine.pool(b"TEST_POOL");
    machine
        .transaction(pool, |tx| {
            tx.allocate_with_id("small1", SMALL, &small(1, true))?;
            tx.allocate_with_id("medium1", MEDIUM, &medium(1))?;
            tx.allocate_with_id("large1", LARGE, &large(1, 0))?;
            tx.deallocate_by_id("small1")?;
            tx.allocate_with_id("small2", SMALL, &small(2, false))?;
            tx.allocate_with_id("small1", SMALL, &small(123, true))?;
            Ok(())
        })
        .expect("Basic operations test failed");
    machine
        .transaction(pool, |tx| {
            assert_eq!(tx.read_by_id("small1", SMALL)?, small(123, true));
            assert_eq!(tx.read_by_id("small2", SMALL)?, small(2, false));
            assert_eq!(tx.read_by_id("medium1", MEDIUM)?, medium(1));
            assert_eq!(tx.read_by_id("large1", LARGE)?, large(1, 0));
            Ok(())
        })
        .expect("Basic operations verification failed");
}

#[test]
fn test_multiple_pools() {
    let mut machine = Machine::new();
    let pool1 = machine.pool(b"POOL1");
    machine
        .transaction(pool1, |tx| tx.allocate_with_id("pool1_data", U64, &42u64.to_le_bytes()))
        .expect("Pool 1 test failed");
    let pool2 = machine.pool(b"POOL2");
    assert_ne!(pool1, pool2);
    machine
        .transaction(pool2, |tx| tx.allocate_with_id("pool2_data", U64, &84u64.to_le_bytes()))
        .expect("Pool 2 test failed");
    machine
        .transaction(pool1, |tx| {
            assert_eq!(tx.read_by_id("pool1_data", U64)?, 42u64.to_le_bytes());
            assert_eq!(tx.read_by_id("pool2_data", U64), Err(PoolError::InvalidId));
            Ok(())
        })
        .unwrap();
}

#[test]
fn test_basic_data_types() {
    let mut machine = Machine::new();
    let pool = machine.pool(b"BASIC_TYPES");
    let string = info("PersistentString", 72, 8);
    let persistent = |text: &str| {
        let mut bytes = (text.len() as u64).to_le_bytes().to_vec();
        bytes.extend_from_slice(text.as_bytes());
        bytes.resize(72, 0);
        bytes
    };
    machine
        .transaction(pool, |tx| {
            tx.allocate_with_id("test_string", string, &persistent("Hello, Persistent Memory!"))
        })
        .expect("Failed to store string");
    machine
        .transaction(pool, |tx| {
            let bytes = tx.read_by_id("test_string", string)?;
            assert_eq!(&bytes[8..8 + bytes[0] as usize], b"Hello, Persistent Memory!");
            Ok(())
        })
        .expect("Failed to read string");
    let numbers: Vec<(&str, TypeInfo, Vec<u8>)> = vec![
        ("int8", info("i8", 1, 1), (-42i8).to_le_bytes().to_vec()),
        ("uint8", info("u8", 1, 1), 42u8.to_le_bytes().to_vec()),
        ("int16", info("i16", 2, 2), (-1234i16).to_le_bytes().to_vec()),
        ("uint16", info("u16", 2, 2), 1234u16.to_le_bytes().to_vec()),
        ("int32", info("i32", 4, 4), (-123456i32).to_le_bytes().to_vec()),
        ("uint32", info("u32", 4, 4), 123456u32.to_le_bytes().to_vec()),
        ("int64", info("i64", 8, 8), (-123456789i64).to_le_bytes().to_vec()),
        ("uint64", info("u64", 8, 8), 123456789u64.to_le_bytes().to_vec()),
        ("bool_true", info("bool", 1, 1), vec![1]),
        ("bool_false", info("bool", 1, 1), vec![0]),
        ("char", info("char", 4, 4), ('R' as u32).to_le_bytes().to_vec()),
        (
            "array",
            info("[i32; 5]", 20, 4),
            [1i32, 2, 3, 4, 5].iter().flat_map(|n| n.to_le_bytes()).collect(),
        ),
        (
            "matrix",
            info("[[i32; 3]; 3]", 36, 4),
            (1i32..=9).flat_map(|n| n.to_le_bytes()).collect(),
        ),
    ];
    machine
        .transaction(pool, |tx| {
            for (id, ty, data) in &numbers {
                tx.allocate_with_id(id, *ty, data)?;
            }
            Ok(())
        })
        .expect("Failed to store numeric types");
    machine
        .transaction(pool, |tx| {
            for (id, ty, data) in &numbers {
                assert_eq!(&tx.read_by_id(id, *ty)?, data);
            }
            Ok(())
        })
        .expect("Failed to read numeric types");
    machine
        .transaction(pool, |tx| {
            tx.allocate_with_id(
                "crash_string",
                string,
                &persistent("This string should survive a crash!"),
            )?;
            Err::<(), PoolError>(PoolError::TransactionFailed)
        })
        .expect_err("Transaction should fail");
    machine
        .transaction(pool, |tx| {
            assert!(tx.read_by_id("crash_string", string).is_err());
            Ok(())
        })
        .expect("Failed to verify after crash");
}

#[test]
fn test_memory_pressure() {
    let mut machine = Machine::new();
    let pool = machine.pool(b"PRESSURE_TEST");
    machine
        .transaction(pool, |tx| {
            for i in 0..10u64 {
                tx.allocate_with_id(&format!("large{}", i), LARGE, &large(i, i as u8))?;
            }
            Ok(())
        })
        .expect("Memory pressure test failed");
    machine
        .transaction(pool, |tx| {
            for i in 0..10u64 {
                assert_eq!(tx.read_by_id(&format!("large{}", i), LARGE)?, large(i, i as u8));
            }
            Ok(())
        })
        .unwrap();
}

#[test]
fn test_type_safety() {
    let mut machine = Machine::new();
    let pool = machine.pool(b"TYPE_SAFETY");
    machine
        .transaction(pool, |tx| tx.allocate_with_id("type_test", U64, &42u64.to_le_bytes()))
        .expect("Type safety test failed");
    machine
        .transaction(pool, |tx| {
            assert!(matches!(
                tx.get_by_id("type_test", info("u32", 4, 4)),
                Err(PoolError::TypeMismatch { .. })
            ));
            Ok(())
        })
        .expect("Type safety test failed");
}

#[test]
fn test_crash_recovery() {
    let mut machine = Machine::new();
    let pool = machine.pool(b"RECOVERY_TEST");
    // An allocation.
    machine
        .transaction(pool, |tx| {
            tx.allocate_with_id("recover1", SMALL, &small(1, true))?;
            Err::<(), PoolError>(PoolError::TransactionFailed)
        })
        .expect_err("Transaction should fail");
    machine
        .transaction(pool, |tx| {
            assert_eq!(tx.get_by_id("recover1", SMALL), Err(PoolError::InvalidId));
            Ok(())
        })
        .expect("Recovery verification failed");
    // A modification.
    machine
        .transaction(pool, |tx| tx.allocate_with_id("recover2", SMALL, &small(2, false)))
        .expect("Initial allocation failed");
    machine
        .transaction(pool, |tx| {
            let address = tx.get_by_id("recover2", SMALL)?;
            tx.modify(address, SMALL, &small(2, true))?;
            Err::<(), PoolError>(PoolError::TransactionFailed)
        })
        .expect_err("Transaction should fail");
    machine
        .transaction(pool, |tx| {
            assert_eq!(tx.read_by_id("recover2", SMALL)?, small(2, false));
            Ok(())
        })
        .expect("Recovery verification failed");
    // A deallocation.
    machine
        .transaction(pool, |tx| tx.allocate_with_id("recover3", MEDIUM, &medium(3)))
        .expect("Initial allocation failed");
    machine
        .transaction(pool, |tx| {
            tx.deallocate_by_id("recover3")?;
            Err::<(), PoolError>(PoolError::TransactionFailed)
        })
        .expect_err("Transaction should fail");
    machine
        .transaction(pool, |tx| {
            assert_eq!(tx.read_by_id("recover3", MEDIUM)?, medium(3));
            Ok(())
        })
        .expect("Recovery verification failed");
    // Several operations.
    machine
        .transaction(pool, |tx| {
            tx.allocate_with_id("multi1", SMALL, &small(4, true))?;
            let address = tx.allocate_with_id("multi2", SMALL, &small(5, false))?;
            tx.modify(address, SMALL, &small(5, true))?;
            tx.deallocate_by_id("multi1")?;
            Err::<(), PoolError>(PoolError::TransactionFailed)
        })
        .expect_err("Transaction should fail");
    machine
        .transaction(pool, |tx| {
            assert!(tx.get_by_id("multi1", SMALL).is_err());
            assert!(tx.get_by_id("multi2", SMALL).is_err());
            Ok(())
        })
        .expect("Recovery verification failed");
}

#[test]
fn test_fragmentation_allocation_overhead() {
    let small_block = info("SmallBlock", 16008, 8);
    let medium_block = info("MediumBlock", 32008, 8);
    let large_block = info("LargeBlock", 64008, 8);
    let mut machine = Machine::new();
    let pool = machine.pool(b"FRAG_OVERHEAD");
    machine
        .transaction(pool, |tx| {
            tx.allocate_with_id("large_1", large_block, &vec![1; 64008])?;
            tx.allocate_with_id("small_1", small_block, &vec![2; 16008])?;
            tx.allocate_with_id("large_2", large_block, &vec![3; 64008])?;
            tx.allocate_with_id("medium_1", medium_block, &vec![4; 32008])?;
            tx.allocate_with_id("large_3", large_block, &vec![5; 64008])?;
            tx.allocate_with_id("small_2", small_block, &vec![6; 16008])?;
            Ok(())
        })
        .expect("Initial allocation failed");
    machine
        .transaction(pool, |tx| {
            tx.deallocate_by_id("small_1")?;
            tx.deallocate_by_id("medium_1")?;
            tx.deallocate_by_id("small_2")?;
            Ok(())
        })
        .expect("Deallocation failed");
    machine
        .transaction(pool, |tx| tx.allocate_with_id("medium_new", medium_block, &vec![7; 32008]))
        .expect("New allocation failed");
    machine
        .transaction(pool, |tx| {
            assert_eq!(tx.read_by_id("medium_new", medium_block)?, vec![7; 32008]);
            assert_eq!(tx.read_by_id("large_2", large_block)?, vec![3; 64008]);
            assert!(tx.get_by_id("small_1", small_block).is_err());
            Ok(())
        })
        .unwrap();
    let clean = machine.pool(b"CLEAN_POOL");
    machine
        .transaction(clean, |tx| tx.allocate_with_id("medium_clean", medium_block, &vec![8; 32008]))
        .expect("Clean allocation failed");
}

#[test]
fn test_linked_list() {
    let mut machine = Machine::new();
    let pool = machine.pool(b"LIST_TEST");
    let base = machine.allocator.pool_address(pool);
    machine
        .transaction(pool, |tx| tx.allocate_with_id("list", LIST, &LinkedList::new().to_bytes()))
        .expect("Failed to initialize list");
    for i in 1..=5u64 {
        machine
            .transaction(pool, |tx| {
                let mut list = LinkedList::from_bytes(&tx.read_by_id("list", LIST)?).unwrap();
                let node =
                    ListNode { value: i, next_offset: 0, prev_offset: list.tail_offset };
                let address =
                    tx.allocate_with_id(&format!("node_{}", i), NODE, &node.to_bytes())?;
                let offset = address - base;
                if list.size > 0 {
                    let tail_address = tx.get_by_id(&format!("node_{}", i - 1), NODE)?;
                    let mut tail = ListNode::from_bytes(
                        &tx.read_by_id(&format!("node_{}", i - 1), NODE)?,
                    );
                    tail.link_to(offset);
                    tx.modify(tail_address, NODE, &tail.to_bytes())?;
                }
                assert_eq!(list.push_back(i, offset), node);
                let list_address = tx.get_by_id("list", LIST)?;
                tx.modify(list_address, LIST, &list.to_bytes())
            })
            .expect("Failed to add node");
    }
    machine
        .transaction(pool, |tx| {
            let list = LinkedList::from_bytes(&tx.read_by_id("list", LIST)?).unwrap();
            assert_eq!(list.size, 5);
            let mut values = Vec::new();
            let mut previous = 0;
            let mut current = list.head_offset;
            while current != 0 {
                let node = ListNode::from_bytes(&tx.pool.read(base + current, 24));
                assert_eq!(node.prev_offset, previous);
                values.push(node.value);
                previous = current;
                current = node.next_offset;
            }
            assert_eq!(previous, list.tail_offset);
            assert_eq!(values, vec![1, 2, 3, 4, 5]);
            Ok(())
        })
        .expect("Failed to print list");
}

#[test]
fn test_list_modifications() {
    let mut machine = Machine::new();
    let pool = machine.pool(b"LIST_MOD");
    machine
        .transaction(pool, |tx| tx.allocate_with_id("mod_list", LIST, &LinkedList::new().to_bytes()))
        .expect("Failed to create list");
    let node = ListNode { value: 42, next_offset: 0, prev_offset: 0 };
    // The new node cannot be found before the commit, so the transaction fails.
    let outcome = machine.transaction(pool, |tx| {
        tx.allocate_with_id("test_node", NODE, &node.to_bytes())?;
        let address = tx.get_by_id("test_node", NODE)?;
        tx.modify(address, NODE, &ListNode { value: 100, ..node }.to_bytes())
    });
    assert_eq!(outcome, Err(PoolError::InvalidId));
    machine
        .transaction(pool, |tx| {
            assert_eq!(tx.read_by_id("test_node", NODE), Err(PoolError::InvalidId));
            Ok(())
        })
        .expect("Failed to verify recovery");
}

#[test]
fn test_list_stress() {
    let mut machine = Machine::new();
    let pool = machine.pool(b"LIST_STRESS");
    for i in 0..100 {
        let node = ListNode { value: i, next_offset: 0, prev_offset: 0 };
        machine
            .transaction(pool, |tx| {
                tx.allocate_with_id(&format!("stress_node_{}", i), NODE, &node.to_bytes())
            })
            .expect("Failed stress test allocation");
    }
    for i in 0..50u64 {
        let index = i * 37 % 100;
        machine
            .transaction(pool, |tx| {
                let id = format!("stress_node_{}", index);
                let address = tx.get_by_id(&id, NODE)?;
                let mut node = ListNode::from_bytes(&tx.read_by_id(&id, NODE)?);
                node.value += 1000;
                tx.modify(address, NODE, &node.to_bytes())
            })
            .expect("Failed stress test modification");
    }
    machine
        .transaction(pool, |tx| {
            let node = ListNode::from_bytes(&tx.read_by_id("stress_node_37", NODE)?);
            assert_eq!(node.value, 1037);
            Ok(())
        })
        .unwrap();
}

#[test]
fn test_full_usage_allocator() {
    let mut machine = Machine::new();
    let mut i = 1;
    loop {
        let slots = &mut machine.slots;
        let name = format!("POOL{i}");
        match machine.allocator.get_or_create_pool(name.as_bytes(), |address| open(slots, address))
        {
            Ok(_) => i += 1,
            Err(error) => {
                assert_eq!(error, AllocError::NoPoolsAvailable);
                break;
            }
        }
    }
    assert_eq!(i, 64);
}

#[test]
fn test_pool_limits() {
    let mut machine = Machine::new();
    let pool = machine.pool(b"MAX_OBJECTS");
    for batch in 0..4 {
        machine
            .transaction(pool, |tx| {
                for i in 0..64 {
                    tx.allocate_with_id(&format!("small_{}", batch * 64 + i), SMALL, &small(i, true))?;
                }
                Ok(())
            })
            .expect("Failed to allocate 256 objects");
    }
    assert_eq!(
        machine.transaction(pool, |tx| {
            tx.allocate_with_id("one_too_many", SMALL, &small(257, true))
        }),
        Err(PoolError::ObjectTableFull)
    );
    // The log keeps its blocks until it gets a new heap.
    let mut machine = Machine::new();
    let huge = info("HugeObject", 64008, 8);
    let pool = machine.pool(b"MAX_SIZE");
    let mut stored = 0u8;
    let outcome = loop {
        let outcome = machine.transaction(pool, |tx| {
            tx.allocate_with_id(&format!("huge_{}", stored), huge, &vec![stored; 64008])
        });
        match outcome {
            Ok(_) => stored += 1,
            Err(error) => break error,
        }
    };
    assert_eq!(outcome, PoolError::AllocationFailed);
    assert_eq!(stored, 16);
    machine
        .transaction(pool, |tx| {
            for i in 0..stored {
                assert_eq!(tx.read_by_id(&format!("huge_{}", i), huge)?, vec![i; 64008]);
            }
            Ok(())
        })
        .unwrap();
}

#[test]
fn measured_deallocations() {
    let mut machine = Machine::new();
    let pool = machine.pool(b"DEALLOCATION_TEST");
    machine
        .transaction(pool, |tx| {
            for i in 0..100 {
                tx.allocate_with_id(&format!("small{}", i), SMALL, &small(i, true))?;
            }
            for i in 0..100 {
                tx.deallocate_by_id(&format!("small{}", i))?;
            }
            Ok(())
        })
        .expect("Deallocation failed");
    let begun = machine.allocator.begin_transaction(pool);
    assert_eq!(begun.freed.len(), 100);
    assert_eq!(begun.context.pool.active_entries(), vec![]);
}
