//! System calls on persistent pools.

use crate::allocator::{AllocError, GlobalPersistentAllocator};
use crate::image::PoolView;
use crate::pool::{Pool, PoolError, PoolImage};
use crate::table::Probe;
use crate::transaction::{Begun, TransactionContext, TypeInfo};
use linked_list_allocator::Heap;
use vstd::bytes::*;
use vstd::prelude::*;
use vstd::string::*;

verus! {

/// A number in decimal digits.
pub open spec fn decimal(num: nat) -> Seq<char>
    decreases num,
{
    if num < 10 {
        seq![((48 + num) as u8) as char]
    } else {
        decimal(num / 10) + seq![((48 + num % 10) as u8) as char]
    }
}

fn digit(num: usize) -> (text: &'static str)
    requires
        num < 10,
    ensures
        text@ == decimal(num as nat),
{
    proof {
        reveal_strlit("0");
        reveal_strlit("1");
        reveal_strlit("2");
        reveal_strlit("3");
        reveal_strlit("4");
        reveal_strlit("5");
        reveal_strlit("6");
        reveal_strlit("7");
        reveal_strlit("8");
        reveal_strlit("9");
    }
    let text: &'static str = match num {
        0 => "0",
        1 => "1",
        2 => "2",
        3 => "3",
        4 => "4",
        5 => "5",
        6 => "6",
        7 => "7",
        8 => "8",
        _ => "9",
    };
    assert(text@ =~= decimal(num as nat));
    text
}

/// The decimal digits of a number.
pub fn usize_to_str(num: usize) -> (text: String)
    ensures
        text@ == decimal(num as nat),
        number_of(text@) == num,
    decreases num,
{
    proof { law_text_reads_as_the_number(num as nat); }
    if num < 10 {
        String::from_str(digit(num))
    } else {
        let mut text: String = usize_to_str(num / 10);
        text.append(digit(num % 10));
        text
    }
}

/// A pool of this name can be opened wherever one is to be made.
pub open spec fn openable<F: FnOnce(u64) -> (PoolImage, Heap)>(
    allocator: GlobalPersistentAllocator,
    name: Seq<u8>,
    open: F,
) -> bool {
    &&& forall|address: u64|
        allocator.opens_at(name, address) ==> #[trigger] call_requires(open, (address,))
    &&& forall|address: u64, found: (PoolImage, Heap)|
        allocator.opens_at(name, address) && #[trigger] call_ensures(open, (address,), found)
            ==> found.0.wf(crate::layout::FIXED_POOL_SIZE)
}

/// The heaps of a transaction that begins on the pool of the slot can be brought up to date.
pub open spec fn settleable<S: FnOnce(Begun) -> TransactionContext>(
    allocator: GlobalPersistentAllocator,
    slot: int,
    settle: S,
) -> bool {
    &&& forall|begun: Begun|
        allocator.began(slot, begun) ==> #[trigger] call_requires(settle, (begun,))
    &&& forall|begun: Begun, context: TransactionContext|
        allocator.began(slot, begun) && #[trigger] call_ensures(settle, (begun,), context)
            ==> crate::session::settled(begun, context)
}

/// What [`sys_create_persistent_pool`] does.
pub open spec fn pool_created<F: FnOnce(u64) -> (PoolImage, Heap)>(
    before: GlobalPersistentAllocator,
    after: GlobalPersistentAllocator,
    name: Option<Seq<u8>>,
    open: F,
    code: int,
) -> bool {
    match name {
        Some(name) => if name.len() == 0 {
            code == -1 && after == before
        } else {
            exists|result: Result<usize, AllocError>|
                #[trigger] after.got(before, name, open, result) && code == if result is Ok {
                    0int
                } else {
                    -1int
                }
        },
        None => code == -1 && after == before,
    }
}

/// Finds or makes the pool of this name. `None` stands for a null pointer.
pub fn sys_create_persistent_pool<F: FnOnce(u64) -> (PoolImage, Heap)>(
    allocator: &mut GlobalPersistentAllocator,
    name: Option<&[u8]>,
    open: F,
) -> (code: isize)
    requires
        old(allocator).wf(),
        name matches Some(name) ==> openable(*old(allocator), name@, open),
    ensures
        final(allocator).wf(),
        pool_created(
            *old(allocator),
            *final(allocator),
            match name {
                Some(name) => Some(name@),
                None => None,
            },
            open,
            code as int,
        ),
{
    match name {
        Some(name) => {
            if name.len() < 1 {
                return -1;
            }
            let ghost given = open;
            match allocator.get_or_create_pool(name, open) {
                Ok(slot) => {
                    assert(allocator.got(
                        *old(allocator),
                        name@,
                        given,
                        Ok::<usize, AllocError>(slot),
                    ));
                    0
                },
                Err(error) => {
                    assert(allocator.got(
                        *old(allocator),
                        name@,
                        given,
                        Err::<usize, AllocError>(error),
                    ));
                    -1
                },
            }
        },
        None => -1,
    }
}

/// Gives up the pool of this name. Hands out the wiped pool that is to be written back.
pub fn sys_release_persistent_pool(allocator: &mut GlobalPersistentAllocator, name: &[u8])
    -> (result: (isize, Option<Pool>))
    requires
        old(allocator).wf(),
    ensures
        final(allocator).wf(),
        final(allocator).gave_up(*old(allocator), name@, (result.0 == 0, result.1)),
        result.0 == 0 || result.0 == -1,
{
    let (found, wiped) = allocator.release_pool(name);
    if found {
        (0, wiped)
    } else {
        (-1, wiped)
    }
}

/// Type of the objects that [`sys_perform_transaction`] stores: a slice, as address and length.
pub open spec fn slice_info() -> TypeInfo {
    TypeInfo { name: "&[u8]", size: 16, align: 8 }
}

fn slice_type() -> (ty: TypeInfo)
    ensures
        ty == slice_info(),
        ty.wf(),
{
    proof { crate::layout::lemma_layout_alignments(); }
    TypeInfo { name: "&[u8]", size: 16, align: 8 }
}

/// A slice as it lies in memory: address and length, little-endian.
pub open spec fn slice_bytes(address: u64, len: usize) -> Seq<u8> {
    spec_u64_to_le_bytes(address) + spec_u64_to_le_bytes(len as u64)
}

/// Stores a slice, that is its address and its length, under a number.
pub fn store_slice(context: &mut TransactionContext, id: usize, address: u64, len: usize) -> (result:
    Result<u64, PoolError>)
    requires
        old(context).wf(),
        old(context).can_align(8),
        slices_stored(old(context).pool@),
    ensures
        final(context).wf(),
        final(context).allocated(
            *old(context),
            vstd::utf8::encode_utf8(decimal(id as nat)),
            slice_info(),
            slice_bytes(address, len),
            result,
        ),
{
    proof { vstd::bytes::lemma_auto_spec_u64_to_from_le_bytes(); }
    let name: String = usize_to_str(id);
    let mut bytes: Vec<u8> = u64_to_le_bytes(address);
    let mut length: Vec<u8> = u64_to_le_bytes(len as u64);
    bytes.append(&mut length);
    let text: &str = name.as_str();
    proof {
        crate::search::lemma_first_true(context.stored(text.spec_bytes()));
    }
    context.allocate_with_id(text, slice_type(), bytes.as_slice())
}

/// What [`sys_perform_transaction`] did.
pub struct TransactionReport {
    pub code: isize,
    /// The log pool was emptied and needs a heap in which nothing is allocated.
    pub log_emptied: bool,
}

/// Slices in use lie in the memory of the pool.
pub open spec fn slices_stored(pool: PoolView) -> bool {
    forall|slot: int| #![trigger pool.table[slot]]
        0 <= slot < pool.table.len() && pool.table[slot].active && pool.table[slot].type_hash
            == slice_info().hash() ==> pool.table[slot].data is Some && pool.holds(
            pool.table[slot].data->Some_0 as int,
            16,
        )
}

/// Slices that readers see in the table lie in the memory of the pool.
pub open spec fn slices_held(pool: PoolView) -> bool {
    forall|slot: int| #![trigger pool.table[slot]]
        0 <= slot < pool.table.len() && pool.table[slot].live() && pool.table[slot].type_hash
            == slice_info().hash() ==> pool.table[slot].data is Some && pool.holds(
            pool.table[slot].data->Some_0 as int,
            16,
        )
}

/// A transaction that stores a slice in the pool of the slot can be performed, and taken back
/// where it fails.
pub open spec fn performable(allocator: GlobalPersistentAllocator, slot: int) -> bool {
    &&& allocator.can_begin(slot)
    &&& allocator.pool_directory@[slot].pool matches Some(pool)
    &&& pool.base_address + pool.header.size + 40 <= usize::MAX
    &&& slices_held(crate::transaction::cleared(pool, allocator.log_pool).recovered())
    &&& allocator.log_pool is Some && pool@.marked_as_log()
        ==> !allocator.log_pool->Some_0@.has_logs()
}

/// A transaction on the pool of the slot stored a slice, or was taken back.
pub open spec fn performed(
    before: GlobalPersistentAllocator,
    after: GlobalPersistentAllocator,
    slot: int,
    id: usize,
    slice: (u64, usize),
    report: TransactionReport,
) -> bool {
    exists|
        begun: Begun,
        context: TransactionContext,
        ended: TransactionContext,
        result: Result<u64, PoolError>,
    |
        {
            &&& #[trigger] after.ran(
                before,
                slot,
                begun,
                context,
                ended,
                result,
                report.log_emptied,
            )
            &&& ended.wf()
            &&& ended.allocated(
                context,
                vstd::utf8::encode_utf8(decimal(id as nat)),
                slice_info(),
                slice_bytes(slice.0, slice.1),
                result,
            )
            &&& report.code == if result is Ok { 0int } else { -1int }
        }
}

/// Stores a slice under a number in the pool of the slot. `settle` gives the freed blocks back to
/// the heap of the pool, and a log pool that was emptied a heap in which nothing is allocated.
fn perform<S: FnOnce(Begun) -> TransactionContext>(
    allocator: &mut GlobalPersistentAllocator,
    slot: usize,
    id: usize,
    slice: (u64, usize),
    settle: S,
) -> (report: TransactionReport)
    requires
        old(allocator).wf(),
        performable(*old(allocator), slot as int),
        settleable(*old(allocator), slot as int, settle),
    ensures
        final(allocator).wf(),
        performed(*old(allocator), *final(allocator), slot as int, id, slice, report),
{
    let f = |context: TransactionContext| -> (ended: (TransactionContext, Result<u64, PoolError>))
        requires
            context.wf(),
            context.can_align(8),
            slices_stored(context.pool@),
        ensures
            ended.0.wf(),
            ended.0.allocated(
                context,
                vstd::utf8::encode_utf8(decimal(id as nat)),
                slice_info(),
                slice_bytes(slice.0, slice.1),
                ended.1,
            ),
        {
            let mut context: TransactionContext = context;
            let result: Result<u64, PoolError> = store_slice(&mut context, id, slice.0, slice.1);
            (context, result)
        };
    proof {
        assert forall|begun: Begun, context: TransactionContext|
            old(allocator).began(slot as int, begun) && #[trigger] crate::session::settled(
                begun,
                context,
            ) implies context.can_align(8) && slices_stored(context.pool@) by {
            lemma_slices_stored(*old(allocator), slot as int, begun);
        }
        assert forall|
            begun: Begun,
            context: TransactionContext,
            ended: (TransactionContext, Result<u64, PoolError>),
        |
            old(allocator).began(slot as int, begun) && #[trigger] crate::session::settled(begun, context)
                && #[trigger] call_ensures(f, (context,), ended) implies crate::session::worked(
            context,
            ended.0,
            ended.1,
        ) by {
            lemma_slice_worked(*old(allocator), slot as int, begun, context, ended.0, id, slice, ended.1);
        }
    }
    let outcome: (Result<u64, PoolError>, bool) = allocator.transaction(slot, settle, f);
    let code: isize = match outcome.0 {
        Ok(_) => 0,
        Err(_) => -1,
    };
    let report: TransactionReport = TransactionReport { code, log_emptied: outcome.1 };
    proof {
        let (begun, context, ended) = choose|
            begun: Begun,
            context: TransactionContext,
            ended: TransactionContext,
        |
            {
                &&& call_ensures(settle, (begun,), context)
                &&& call_ensures(f, (context,), (ended, outcome.0))
                &&& #[trigger] allocator.ran(
                    *old(allocator),
                    slot as int,
                    begun,
                    context,
                    ended,
                    outcome.0,
                    outcome.1,
                )
            };
        assert(allocator.ran(
            *old(allocator),
            slot as int,
            begun,
            context,
            ended,
            outcome.0,
            report.log_emptied,
        ));
    }
    report
}

/// The slices of a recovered pool lie in its memory.
proof fn lemma_slices_stored(allocator: GlobalPersistentAllocator, slot: int, begun: Begun)
    requires
        allocator.wf(),
        performable(allocator, slot),
        allocator.began(slot, begun),
    ensures
        slices_stored(begun.context.pool@),
{
    let pool = allocator.pool_directory@[slot].pool->Some_0;
    let cleared = crate::transaction::cleared(pool, allocator.log_pool);
    crate::undo::law_recovery_is_idempotent(cleared);
}

/// Storing a slice leaves the pool where it is, and can be undone where it fails.
proof fn lemma_slice_worked(
    allocator: GlobalPersistentAllocator,
    slot: int,
    begun: Begun,
    context: TransactionContext,
    ended: TransactionContext,
    id: usize,
    slice: (u64, usize),
    result: Result<u64, PoolError>,
)
    requires
        allocator.wf(),
        performable(allocator, slot),
        allocator.began(slot, begun),
        crate::session::settled(begun, context),
        ended.wf(),
        ended.allocated(
            context,
            vstd::utf8::encode_utf8(decimal(id as nat)),
            slice_info(),
            slice_bytes(slice.0, slice.1),
            result,
        ),
    ensures
        crate::session::worked(context, ended, result),
{
    if result is Err && ended.logging() {
        let log = allocator.log_pool->Some_0@;
        crate::journal::law_emptied_log_is_empty(log, Set::empty());
        assert(!begun.context.log_pool->Some_0@.has_logs());
        crate::journal::lemma_no_record(begun.context.log_pool->Some_0@);
        lemma_failed_allocation_logs_nothing(
            context,
            ended,
            vstd::utf8::encode_utf8(decimal(id as nat)),
            slice_info(),
            slice_bytes(slice.0, slice.1),
            result,
        );
    }
}

/// What [`sys_perform_transaction`] does once it has asked for the pool.
pub open spec fn completed(
    found: GlobalPersistentAllocator,
    after: GlobalPersistentAllocator,
    result: Result<usize, AllocError>,
    slice: (u64, usize),
    id: usize,
    report: TransactionReport,
) -> bool {
    match result {
        Ok(slot) => found.wf() && performed(found, after, slot as int, id, slice, report),
        Err(_) => report.code == -2 && !report.log_emptied && after == found,
    }
}

/// What [`sys_perform_transaction`] does.
pub open spec fn transacted<F: FnOnce(u64) -> (PoolImage, Heap)>(
    before: GlobalPersistentAllocator,
    after: GlobalPersistentAllocator,
    name: Option<Seq<u8>>,
    slice: Option<(u64, usize)>,
    id: usize,
    open: F,
    report: TransactionReport,
) -> bool {
    match (name, slice) {
        (Some(name), Some(slice)) => exists|
            found: GlobalPersistentAllocator,
            result: Result<usize, AllocError>,
        |
            found.got(before, name, open, result) && #[trigger] completed(
                found,
                after,
                result,
                slice,
                id,
                report,
            ),
        _ => report.code == -1 && !report.log_emptied && after == before,
    }
}

/// Stores a slice, that is its address and its length, under a number in the pool of this name,
/// which is made where there is none. `None` stands for a null pointer. `open` is that of
/// [`GlobalPersistentAllocator::get_or_create_pool`]; `settle` gives the blocks that were freed
/// back to the heap of the pool, and a log pool that was emptied a heap in which nothing is
/// allocated.
pub fn sys_perform_transaction<
    F: FnOnce(u64) -> (PoolImage, Heap),
    S: FnOnce(Begun) -> TransactionContext,
>(
    allocator: &mut GlobalPersistentAllocator,
    name: Option<&[u8]>,
    slice: Option<(u64, usize)>,
    id: usize,
    open: F,
    settle: S,
) -> (report: TransactionReport)
    requires
        old(allocator).wf(),
        name is Some && slice is Some ==> openable(*old(allocator), name->Some_0@, open),
        name is Some && slice is Some ==> forall|found: GlobalPersistentAllocator, slot: usize|
            found.wf() && #[trigger] found.got(
                *old(allocator),
                name->Some_0@,
                open,
                Ok::<usize, AllocError>(slot),
            ) ==> performable(found, slot as int) && settleable(found, slot as int, settle),
    ensures
        final(allocator).wf(),
        transacted(
            *old(allocator),
            *final(allocator),
            match name {
                Some(name) => Some(name@),
                None => None,
            },
            slice,
            id,
            open,
            report,
        ),
{
    let name: &[u8] = match name {
        Some(name) => name,
        None => {
            return TransactionReport { code: -1, log_emptied: false };
        },
    };
    let slice: (u64, usize) = match slice {
        Some(slice) => slice,
        None => {
            return TransactionReport { code: -1, log_emptied: false };
        },
    };
    let ghost given = open;
    let result: Result<usize, AllocError> = allocator.get_or_create_pool(name, open);
    let ghost found = *allocator;
    assert(found.got(*old(allocator), name@, given, result));
    match result {
        Ok(slot) => {
            assert(found.got(*old(allocator), name@, given, Ok::<usize, AllocError>(slot)));
            assert(found.wf());
            let report: TransactionReport = perform(allocator, slot, id, slice, settle);
            assert(completed(found, *allocator, result, slice, id, report));
            report
        },
        Err(_) => {
            let report: TransactionReport = TransactionReport { code: -2, log_emptied: false };
            assert(completed(found, *allocator, result, slice, id, report));
            report
        },
    }
}

/// An allocation that fails adds nothing to the log.
proof fn lemma_failed_allocation_logs_nothing(
    before: TransactionContext,
    after: TransactionContext,
    id: Seq<u8>,
    ty: TypeInfo,
    data: Seq<u8>,
    result: Result<u64, PoolError>,
)
    requires
        after.allocated(before, id, ty, data, result),
        result is Err,
    ensures
        before.log_pool is Some ==> after.log_pool is Some && after.log_pool->Some_0@
            == before.log_pool->Some_0@,
        before.log_pool is None ==> after.log_pool is None,
{
}

/// The number that decimal digits stand for: times ten and the next digit, from the left.
pub open spec fn number_of(text: Seq<char>) -> nat
    decreases text.len(),
{
    if text.len() == 0 {
        0
    } else {
        10 * number_of(text.drop_last()) + (text.last() as nat - 48) as nat
    }
}

/// The text of a number reads as the number. It has digits only, and no zero in front of others.
pub proof fn law_text_reads_as_the_number(num: nat)
    ensures
        number_of(decimal(num)) == num,
        decimal(num).len() > 0,
        forall|i: int| 0 <= i < decimal(num).len() ==> '0' <= #[trigger] decimal(num)[i] <= '9',
        decimal(num)[0] == '0' ==> num == 0 && decimal(num).len() == 1,
    decreases num,
{
    let text = decimal(num);
    assert(48 + num % 10 <= 57);
    if num < 10 {
        assert(text.drop_last() =~= Seq::empty());
        assert(number_of(text.drop_last()) == 0);
    } else {
        law_text_reads_as_the_number(num / 10);
        let front = decimal(num / 10);
        assert(text.drop_last() =~= front);
        assert forall|i: int| 0 <= i < text.len() implies '0' <= #[trigger] text[i] <= '9' by {
            if i < front.len() {
                assert(text[i] == front[i]);
            }
        }
        assert(text[0] == front[0]);
    }
}

/// Different numbers have different identifiers.
pub proof fn law_numbers_have_their_own_text(a: nat, b: nat)
    requires
        vstd::utf8::encode_utf8(decimal(a)) == vstd::utf8::encode_utf8(decimal(b)),
    ensures
        a == b,
{
    vstd::utf8::encode_utf8_decode_utf8(decimal(a));
    vstd::utf8::encode_utf8_decode_utf8(decimal(b));
    law_text_reads_as_the_number(a);
    law_text_reads_as_the_number(b);
}

/// Texts of numbers are identifiers: at most twenty bytes, one for each digit.
pub proof fn law_text_of_a_number_is_an_identifier(num: nat)
    requires
        num <= u64::MAX,
    ensures
        decimal(num).len() <= 20,
        vstd::utf8::encode_utf8(decimal(num)).len() <= 32,
{
    assert(num < vstd::arithmetic::power::pow(10, 20)) by {
        reveal_with_fuel(vstd::arithmetic::power::pow, 11);
        assert(vstd::arithmetic::power::pow(10, 10) == 10_000_000_000);
        vstd::arithmetic::power::lemma_pow_adds(10, 10, 10);
    }
    lemma_digits(num, 20);
    law_text_reads_as_the_number(num);
    assert(vstd::utf8::is_ascii_chars(decimal(num)));
    vstd::utf8::is_ascii_chars_encode_utf8(decimal(num));
}

proof fn lemma_digits(num: nat, n: nat)
    requires
        n > 0,
        num < vstd::arithmetic::power::pow(10, n),
    ensures
        decimal(num).len() <= n,
    decreases n,
{
    if num >= 10 {
        reveal(vstd::arithmetic::power::pow);
        if n == 1 {
            vstd::arithmetic::power::lemma_pow1(10);
        }
        lemma_digits(num / 10, (n - 1) as nat);
    }
}

/// What is stored of a slice says where it lies and how long it is.
pub proof fn law_slice_is_read_back(address: u64, len: usize)
    ensures
        slice_bytes(address, len).len() == 16,
        spec_u64_from_le_bytes(slice_bytes(address, len).subrange(0, 8)) == address,
        spec_u64_from_le_bytes(slice_bytes(address, len).subrange(8, 16)) == len,
{
    vstd::bytes::lemma_auto_spec_u64_to_from_le_bytes();
    let bytes = slice_bytes(address, len);
    assert(bytes.subrange(0, 8) =~= spec_u64_to_le_bytes(address));
    assert(bytes.subrange(8, 16) =~= spec_u64_to_le_bytes(len as u64));
}

/// A pool can be had by call: where one of the name is there it is kept, and where there is none
/// and a slot is left one is made; 0 tells so, and the pool is found.
pub proof fn law_pool_is_created_by_call<F: FnOnce(u64) -> (PoolImage, Heap)>(
    before: GlobalPersistentAllocator,
    after: GlobalPersistentAllocator,
    name: Seq<u8>,
    open: F,
    code: int,
)
    requires
        before.wf(),
        after.wf(),
        before.consistent(),
        before.used() == before.initialized(),
        0 < name.len() < 64,
        name != crate::outcomes::log_mark(),
        before.metadata.used_pools < before.metadata.total_pools || exists|i: int|
            #[trigger] crate::directory::holds_pool(before, i, name),
        pool_created(before, after, Some(name), open, code),
    ensures
        code == 0,
        exists|i: int| #[trigger] crate::directory::holds_pool(after, i, name),
        (exists|i: int| #[trigger] crate::directory::holds_pool(before, i, name)) ==> after
            == before,
{
    let result = choose|result: Result<usize, AllocError>|
        #[trigger] after.got(before, name, open, result) && code == if result is Ok {
            0int
        } else {
            -1int
        };
    crate::directory::lemma_matches(before, name);
    match crate::search::first_true(before.matches(name)) {
        Some(slot) => {
            crate::directory::law_pool_is_found(before, after, name, open, result, slot);
        },
        None => {
            crate::directory::law_pool_is_made(before, after, name, open, result);
            assert(crate::directory::holds_pool(after, result->Ok_0 as int, name));
        },
    }
}

/// Without a name, or with an empty one, a call makes no pool and says -1.
pub proof fn law_call_without_a_name_fails<F: FnOnce(u64) -> (PoolImage, Heap)>(
    before: GlobalPersistentAllocator,
    after: GlobalPersistentAllocator,
    name: Option<Seq<u8>>,
    open: F,
    code: int,
)
    requires
        pool_created(before, after, name, open, code),
        name matches Some(name) ==> name.len() == 0,
    ensures
        code == -1,
        after == before,
{
}

/// A slice that was stored by call is what the next transaction finds under the text of its
/// number: an object of sixteen bytes that say where the slice lies and how long it is.
pub proof fn law_stored_slice_is_found(
    before: GlobalPersistentAllocator,
    after: GlobalPersistentAllocator,
    slot: int,
    id: usize,
    slice: (u64, usize),
    report: TransactionReport,
)
    requires
        before.wf(),
        performable(before, slot),
        performed(before, after, slot, id, slice, report),
        report.code == 0,
    ensures
        ({
            let pool = after.pool_directory@[slot].pool->Some_0@.recovered();
            let name = vstd::utf8::encode_utf8(decimal(id as nat));
            &&& Probe::Live(name).find(pool.table) matches Some(at)
            &&& pool.table[at].data matches Some(address)
            &&& spec_u64_from_le_bytes(pool.bytes(address as int, 16).subrange(0, 8)) == slice.0
            &&& spec_u64_from_le_bytes(pool.bytes(address as int, 16).subrange(8, 16)) == slice.1
        }),
{
    let name = vstd::utf8::encode_utf8(decimal(id as nat));
    let (begun, context, ended, result) = choose|
        begun: Begun,
        context: TransactionContext,
        ended: TransactionContext,
        result: Result<u64, PoolError>,
    |
        {
            &&& #[trigger] after.ran(
                before,
                slot,
                begun,
                context,
                ended,
                result,
                report.log_emptied,
            )
            &&& ended.wf()
            &&& ended.allocated(
                context,
                name,
                slice_info(),
                slice_bytes(slice.0, slice.1),
                result,
            )
            &&& report.code == if result is Ok { 0int } else { -1int }
        };
    law_slice_is_read_back(slice.0, slice.1);
    lemma_slices_stored(before, slot, begun);
    crate::search::lemma_first_true(context.stored(name));
    crate::laws::law_stored_object_is_read(
        context,
        ended,
        name,
        slice_info(),
        slice_bytes(slice.0, slice.1),
        result->Ok_0,
    );
}

/// Why a slice cannot be stored under a number: what the pool holds under it is no slice, there is
/// no room for a slice, every slot is taken, or the log cannot take the record.
pub open spec fn is_hindered(context: TransactionContext, id: usize) -> bool {
    ||| exists|slot: int| #[trigger]
        crate::outcomes::first_holds(
            context,
            slot,
            vstd::utf8::encode_utf8(decimal(id as nat)),
        ) && context.pool@.table[slot].type_hash != slice_info().hash()
    ||| !crate::outcomes::has_room(crate::heap::heap_free(context.pool.heap), 16, 8)
    ||| forall|i: int|
        0 <= i < context.pool@.table.len() ==> (#[trigger] context.pool@.table[i]).active
            || context.pool@.table[i].done
    ||| !crate::outcomes::has_log(context, 16)
}

/// A call stores the slice, unless the transaction finds what hinders it, whatever the number, the
/// address and the length are. It says 0 where it did, and -1 where it did not.
pub proof fn law_slice_is_stored_unless_hindered(
    before: GlobalPersistentAllocator,
    after: GlobalPersistentAllocator,
    slot: int,
    id: usize,
    slice: (u64, usize),
    report: TransactionReport,
)
    requires
        before.wf(),
        performable(before, slot),
        performed(before, after, slot, id, slice, report),
    ensures
        report.code == 0 || report.code == -1,
        report.code != 0 ==> exists|begun: Begun, context: TransactionContext| #[trigger]
            crate::session::settled(begun, context) && before.began(slot, begun) && is_hindered(
                context,
                id,
            ),
{
    let name = vstd::utf8::encode_utf8(decimal(id as nat));
    let (begun, context, ended, result) = choose|
        begun: Begun,
        context: TransactionContext,
        ended: TransactionContext,
        result: Result<u64, PoolError>,
    |
        {
            &&& #[trigger] after.ran(
                before,
                slot,
                begun,
                context,
                ended,
                result,
                report.log_emptied,
            )
            &&& ended.wf()
            &&& ended.allocated(
                context,
                name,
                slice_info(),
                slice_bytes(slice.0, slice.1),
                result,
            )
            &&& report.code == if result is Ok { 0int } else { -1int }
        };
    if let Err(error) = result {
        crate::layout::lemma_layout_alignments();
        law_slice_is_read_back(slice.0, slice.1);
        lemma_slices_stored(before, slot, begun);
        crate::search::lemma_first_true(context.stored(name));
        law_text_of_a_number_is_an_identifier(id as nat);
        law_text_reads_as_the_number(id as nat);
        crate::outcomes::law_storing_is_refused(
            context,
            ended,
            name,
            slice_info(),
            slice_bytes(slice.0, slice.1),
            result,
        );
        assert(vstd::utf8::is_ascii_chars(decimal(id as nat)));
        vstd::utf8::is_ascii_chars_encode_utf8(decimal(id as nat));
        assert(name[0] != crate::outcomes::log_mark()[0]);
        assert(crate::session::settled(begun, context));
        assert(is_hindered(context, id));
    }
}

/// A call without a name or without a slice does nothing and says -1. One for whose name no pool
/// can be had says -2, and no pool is changed.
pub proof fn law_slice_is_not_stored_without_a_pool<F: FnOnce(u64) -> (PoolImage, Heap)>(
    before: GlobalPersistentAllocator,
    after: GlobalPersistentAllocator,
    name: Option<Seq<u8>>,
    slice: Option<(u64, usize)>,
    id: usize,
    open: F,
    report: TransactionReport,
)
    requires
        before.wf(),
        transacted(before, after, name, slice, id, open, report),
    ensures
        name is None || slice is None ==> report.code == -1 && after == before
            && !report.log_emptied,
        name is Some && slice is Some && (name->Some_0.len() == 0 || name->Some_0.len() >= 64
            || name->Some_0 == crate::outcomes::log_mark()) ==> {
            &&& report.code == -2
            &&& !report.log_emptied
            &&& after.pool_directory@ == before.pool_directory@
            &&& after.bitmap@ == before.bitmap@
            &&& after.log_pool == before.log_pool
        },
{
    if name is Some && slice is Some {
        let name = name->Some_0;
        let slice = slice->Some_0;
        let (found, result) = choose|
            found: GlobalPersistentAllocator,
            result: Result<usize, AllocError>,
        |
            found.got(before, name, open, result) && #[trigger] completed(
                found,
                after,
                result,
                slice,
                id,
                report,
            );
        crate::directory::law_pool_is_refused(before, found, name, open, result);
    }
}

/// A call with a name and a slice stores the slice in the pool of the name, which it finds or makes
/// where a slot is left.
pub proof fn law_slice_goes_to_the_pool_of_the_name<F: FnOnce(u64) -> (PoolImage, Heap)>(
    before: GlobalPersistentAllocator,
    after: GlobalPersistentAllocator,
    name: Seq<u8>,
    slice: (u64, usize),
    id: usize,
    open: F,
    report: TransactionReport,
)
    requires
        before.wf(),
        before.consistent(),
        before.used() == before.initialized(),
        0 < name.len() < 64,
        name != crate::outcomes::log_mark(),
        before.metadata.used_pools < before.metadata.total_pools || exists|i: int|
            #[trigger] crate::directory::holds_pool(before, i, name),
        transacted(before, after, Some(name), Some(slice), id, open, report),
    ensures
        exists|found: GlobalPersistentAllocator, slot: usize| #[trigger]
            performed(found, after, slot as int, id, slice, report) && found.wf()
                && crate::directory::holds_pool(found, slot as int, name),
{
    let (found, result) = choose|
        found: GlobalPersistentAllocator,
        result: Result<usize, AllocError>,
    |
        found.got(before, name, open, result) && #[trigger] completed(
            found,
            after,
            result,
            slice,
            id,
            report,
        );
    crate::directory::lemma_matches(before, name);
    match crate::search::first_true(before.matches(name)) {
        Some(slot) => {
            crate::directory::law_pool_is_found(before, found, name, open, result, slot);
            assert(performed(found, after, result->Ok_0 as int, id, slice, report));
        },
        None => {
            crate::directory::law_pool_is_made(before, found, name, open, result);
            assert(performed(found, after, result->Ok_0 as int, id, slice, report));
        },
    }
}

} // verus!
