use nvpool::list::{LinkedList, ListNode};
use nvpool::named::{
    make_name, on_size_mismatch_retry, AllocError, BlockHeader, Name, NamedBumpAllocator,
    NvmemError, Pool,
};
use nvpool::nvram::push_boot_time;
use nvpool::oplog::{LoggedOperation, OperationType};
use nvpool::prompt::{choose_operation, KeyChoice, LineInput};
use nvpool::wait_queue::{wait_step, WaitAction, WaitQueue, WaitState};
use std::cell::RefCell;

#[test]
fn names_are_padded() {
    let name = make_name(b"boot_time");
    assert_eq!(&name[..9], b"boot_time");
    assert!(name[9..].iter().all(|b| *b == 0));
    assert_eq!(make_name(&[7; 64]), [7; 64]);
    assert_ne!(make_name(b"a"), make_name(b"b"));
}

#[test]
fn a_chain_begins_with_its_root() {
    let allocator = NamedBumpAllocator::new();
    assert_eq!(allocator.head.size, 0);
    assert_eq!(allocator.head.next, None);
    assert!(!allocator.head.in_use);
    assert_eq!(allocator.head.name, make_name(b"root"));
    assert_eq!(BlockHeader::empty(b"x").name, make_name(b"x"));
}

#[test]
fn offsets_and_addresses() {
    let pool = Pool { base: 0x4000, len: 0x1000 };
    assert_eq!(pool.offset_to_ptr(0x20), 0x4020);
    assert_eq!(pool.ptr_to_offset(0x4020), 0x20);
    assert_eq!(pool.header_at(0x40), 0x4040);
    assert_eq!(pool.ptr_to_offset(pool.offset_to_ptr(77)), 77);
}

#[test]
fn errors_are_wrapped() {
    assert_eq!(NvmemError::from(AllocError), NvmemError::Alloc(AllocError));
}

#[test]
fn a_block_of_another_size_is_replaced() {
    let name = make_name(b"boot_time");
    let calls: RefCell<Vec<&str>> = RefCell::new(Vec::new());
    let alloc = |_: Name, element: u32| {
        calls.borrow_mut().push("alloc");
        if calls.borrow().len() == 1 {
            Err(NvmemError::SizeMismatch)
        } else {
            Ok(element)
        }
    };
    let dealloc = |_: Name| {
        calls.borrow_mut().push("dealloc");
        Ok(())
    };
    assert_eq!(on_size_mismatch_retry(&alloc, dealloc, &alloc, name, 5), Ok(5));
    assert_eq!(*calls.borrow(), vec!["alloc", "dealloc", "alloc"]);
}

#[test]
fn other_errors_are_passed_on() {
    let name = make_name(b"x");
    let failed = NvmemError::Alloc(AllocError);
    let mismatch = |_: Name, _: u8| Err(NvmemError::SizeMismatch);
    let never = |_: Name| -> Result<(), NvmemError> { unreachable!() };
    let never_again = |_: Name, _: u8| -> Result<u8, NvmemError> { unreachable!() };
    assert_eq!(
        on_size_mismatch_retry(|_, _: u8| Err(failed), never, never_again, name, 1),
        Err(failed)
    );
    assert_eq!(on_size_mismatch_retry(|_, n: u8| Ok(n), never, never_again, name, 1), Ok(1));
    assert_eq!(
        on_size_mismatch_retry(mismatch, |_| Err(failed), never_again, name, 1),
        Err(failed)
    );
    // There is no third try.
    assert_eq!(
        on_size_mismatch_retry(mismatch, |_| Ok(()), mismatch, name, 1),
        Err(NvmemError::SizeMismatch)
    );
}

#[test]
fn lists_grow_at_the_end() {
    let mut list = LinkedList::new();
    assert_eq!(list, LinkedList { head_offset: 0, tail_offset: 0, size: 0 });
    let first = list.push_back(10, 100);
    assert_eq!(first, ListNode { value: 10, next_offset: 0, prev_offset: 0 });
    let second = list.push_back(20, 200);
    assert_eq!(second, ListNode { value: 20, next_offset: 0, prev_offset: 100 });
    let mut linked = first;
    linked.link_to(200);
    assert_eq!(linked, ListNode { value: 10, next_offset: 200, prev_offset: 0 });
    assert_eq!(list, LinkedList { head_offset: 100, tail_offset: 200, size: 2 });
}

#[test]
fn lists_are_read_back() {
    let node = ListNode { value: 1, next_offset: 0x0203, prev_offset: u64::MAX };
    let bytes = node.to_bytes();
    assert_eq!(&bytes[..11], &[1, 0, 0, 0, 0, 0, 0, 0, 3, 2, 0]);
    assert_eq!(ListNode::from_bytes(&bytes), node);
    let list = LinkedList { head_offset: 5, tail_offset: 6, size: 7 };
    assert_eq!(LinkedList::from_bytes(&list.to_bytes()), Some(list));
}

#[test]
fn boot_times_are_shifted() {
    assert_eq!(push_boot_time(None, 1), [Some(1), None, None, None, None]);
    let kept = [Some(5), Some(4), Some(3), Some(2), Some(1)];
    assert_eq!(
        push_boot_time(Some(kept), 6),
        [Some(6), Some(5), Some(4), Some(3), Some(2)]
    );
}

#[test]
fn operations_are_read_back_from_the_log() {
    let op = LoggedOperation {
        op_type: OperationType::Deallocation,
        pool_base_address: 0x0102_0304_0506_0708,
        absolute_address: 9,
        data_size: 10,
        type_hash: u64::MAX,
    };
    let bytes = op.encode();
    assert_eq!(bytes.len(), 40);
    assert_eq!(&bytes[..16], &[2, 0, 0, 0, 0, 0, 0, 0, 8, 7, 6, 5, 4, 3, 2, 1]);
    assert_eq!(LoggedOperation::decode(&bytes), Some(op));
    let mut bytes = bytes;
    bytes[0] = 3;
    assert_eq!(LoggedOperation::decode(&bytes), None);
    assert_eq!(OperationType::from_tag(0), Some(OperationType::Allocation));
    assert_eq!(OperationType::Modification.tag(), 1);
}

/// A scheduler that keeps who it was asked to wake, and wakes threads from a number on.
struct Scheduler {
    asked: Vec<(u128, usize)>,
    from: usize,
}

fn scheduler(from: usize) -> Scheduler {
    Scheduler { asked: Vec::new(), from }
}

fn unblock(mut scheduler: Scheduler, process: u128, thread: usize) -> (Scheduler, bool) {
    scheduler.asked.push((process, thread));
    let woke = thread >= scheduler.from;
    (scheduler, woke)
}

#[test]
fn one_waiter_is_woken() {
    let mut queue = WaitQueue::new();
    let (woke, asked) = queue.notify_one(scheduler(0), unblock);
    assert!(!woke);
    assert_eq!(asked.asked, vec![]);
    for thread in 1..=5 {
        queue.enter(7, thread);
    }
    // The first two are gone.
    let (woke, asked) = queue.notify_one(scheduler(3), unblock);
    assert!(woke);
    assert_eq!(asked.asked, vec![(7, 1), (7, 2), (7, 3)]);
    assert_eq!(queue.queue, vec![(7, 4), (7, 5)]);
    let (woke, asked) = queue.notify_one(scheduler(3), unblock);
    assert!(woke);
    assert_eq!(asked.asked, vec![(7, 4)]);
    let (woke, asked) = queue.notify_one(scheduler(6), unblock);
    assert!(!woke);
    assert_eq!(asked.asked, vec![(7, 5)]);
    assert!(queue.queue.is_empty());
}

#[test]
fn all_waiters_are_woken() {
    let mut queue = WaitQueue::new();
    for thread in 1..=5 {
        queue.enter(1, thread);
    }
    let (woke, asked) = queue.notify_all(scheduler(3), unblock);
    assert_eq!(woke, 3);
    assert_eq!(asked.asked, vec![(1, 1), (1, 2), (1, 3), (1, 4), (1, 5)]);
    assert!(queue.queue.is_empty());
    let (woke, asked) = queue.notify_all(scheduler(0), unblock);
    assert_eq!(woke, 0);
    assert_eq!(asked.asked, vec![]);
}

#[test]
fn a_thread_waits_in_steps() {
    assert_eq!(wait_step(WaitState::Polling, true), (WaitState::Polling, WaitAction::Return));
    assert_eq!(wait_step(WaitState::Polling, false), (WaitState::Locked, WaitAction::Lock));
    assert_eq!(wait_step(WaitState::Locked, true).1, WaitAction::Return);
    assert_eq!(wait_step(WaitState::Locked, false), (WaitState::Polling, WaitAction::Park));
}

#[test]
fn keys_choose_an_operation() {
    assert_eq!(choose_operation('c'), KeyChoice::Create);
    assert_eq!(choose_operation('C'), KeyChoice::Create);
    assert_eq!(choose_operation('r'), KeyChoice::Release);
    assert_eq!(choose_operation('R'), KeyChoice::Release);
    assert_eq!(choose_operation('\n'), KeyChoice::Ignore);
    assert_eq!(choose_operation('x'), KeyChoice::Invalid);
}

#[test]
fn a_line_ends_with_the_line() {
    let mut line = LineInput::new();
    for key in "ab\ncd".chars() {
        line.feed(key);
    }
    assert!(line.complete);
    assert_eq!(line.text, vec!['a', 'b']);
}
