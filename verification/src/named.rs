//! Blocks of NVRAM that are found by name.

use vstd::prelude::*;

verus! {

/// Bytes of a block name.
pub const NAME_LEN: usize = 64;

/// A block name, padded with zeros.
pub type Name = [u8; 64];

/// No memory could be had.
#[derive(Clone, Copy, PartialEq, Eq, Structural, Debug)]
pub struct AllocError;

/// Why an operation on named blocks failed.
#[derive(Clone, Copy, PartialEq, Eq, Structural, Debug)]
pub enum NvmemError {
    Alloc(AllocError),
    /// The block under the name has another size.
    SizeMismatch,
}

impl From<AllocError> for NvmemError {
    fn from(error: AllocError) -> (wrapped: NvmemError) {
        NvmemError::Alloc(error)
    }
}

impl vstd::std_specs::convert::FromSpecImpl<AllocError> for NvmemError {
    open spec fn obeys_from_spec() -> bool {
        true
    }

    open spec fn from_spec(error: AllocError) -> NvmemError {
        NvmemError::Alloc(error)
    }
}

/// Record in front of a block.
#[derive(Clone, Copy, Debug)]
pub struct BlockHeader {
    /// Size of the data of the block.
    pub size: u64,
    /// Offset of the next block.
    pub next: Option<u64>,
    pub in_use: bool,
    pub name: Name,
}

/// A chain of named blocks.
pub struct NamedBumpAllocator {
    pub head: BlockHeader,
}

/// A region of NVRAM in which blocks are addressed by offset.
#[derive(Clone, Copy, PartialEq, Eq, Structural, Debug)]
pub struct Pool {
    /// Address that the region is mapped at.
    pub base: u64,
    pub len: u64,
}

/// A name padded with zeros.
pub open spec fn name_of(input: Seq<u8>) -> Seq<u8> {
    Seq::new(64, |i: int| if i < input.len() { input[i] } else { 0u8 })
}

/// Builds a block name from 1 to 64 bytes.
pub fn make_name(input: &[u8]) -> (name: Name)
    requires
        0 < input@.len() <= NAME_LEN,
    ensures
        name@ == name_of(input@),
{
    let mut buf: [u8; 64] = [0u8; 64];
    let mut i: usize = 0;
    while i < input.len()
        invariant
            i <= input@.len() <= 64,
            forall|k: int| 0 <= k < i ==> buf@[k] == input@[k],
            forall|k: int| i <= k < 64 ==> buf@[k] == 0,
        decreases input.len() - i,
    {
        buf[i] = input[i];
        i = i + 1;
    }
    assert(buf@ =~= name_of(input@));
    buf
}

impl BlockHeader {
    /// The header of a block without data that is not in use.
    pub fn empty(input: &[u8]) -> (header: Self)
        requires
            0 < input@.len() <= NAME_LEN,
        ensures
            header.size == 0,
            header.next is None,
            !header.in_use,
            header.name@ == name_of(input@),
    {
        BlockHeader { size: 0, next: None, in_use: false, name: make_name(input) }
    }
}

impl NamedBumpAllocator {
    /// The chain with the empty block `root` alone.
    pub fn new() -> (allocator: Self)
        ensures
            allocator.head.size == 0,
            allocator.head.next is None,
            !allocator.head.in_use,
            allocator.head.name@ == name_of(seq![114u8, 111u8, 111u8, 116u8]),
    {
        let root: [u8; 4] = [114, 111, 111, 116];
        assert(root@ =~= seq![114u8, 111u8, 111u8, 116u8]);
        NamedBumpAllocator { head: BlockHeader::empty(root.as_slice()) }
    }
}

impl Pool {
    /// Address of what lies at an offset.
    pub open spec fn address_of(self, offset: int) -> int {
        self.base + offset
    }

    /// Offset of what lies at an address.
    pub open spec fn offset_of(self, address: int) -> int {
        address - self.base
    }

    /// Address of what lies at an offset.
    pub fn offset_to_ptr(&self, offset: u64) -> (address: u64)
        requires
            self.address_of(offset as int) <= u64::MAX,
        ensures
            address == self.address_of(offset as int),
    {
        self.base + offset
    }

    /// Offset of what lies at an address.
    pub fn ptr_to_offset(&self, address: u64) -> (offset: u64)
        requires
            address >= self.base,
        ensures
            offset == self.offset_of(address as int),
    {
        address - self.base
    }

    /// Address of the block header at an offset.
    pub fn header_at(&self, offset: u64) -> (address: u64)
        requires
            self.address_of(offset as int) <= u64::MAX,
        ensures
            address == self.address_of(offset as int),
    {
        self.offset_to_ptr(offset)
    }
}

/// What [`on_size_mismatch_retry`] does.
pub open spec fn retried<
    T: Copy,
    A: FnOnce(Name, T) -> Result<T, NvmemError>,
    D: FnOnce(Name) -> Result<(), NvmemError>,
    B: FnOnce(Name, T) -> Result<T, NvmemError>,
>(alloc: A, dealloc: D, again: B, name: Name, element: T, result: Result<T, NvmemError>) -> bool {
    exists|first: Result<T, NvmemError>| #[trigger]
        call_ensures(alloc, (name, element), first) && match first {
            Err(NvmemError::SizeMismatch) => exists|given_up: Result<(), NvmemError>| #[trigger]
                call_ensures(dealloc, (name,), given_up) && match given_up {
                    Ok(()) => call_ensures(again, (name, element), result),
                    Err(error) => result == Err::<T, NvmemError>(error),
                },
            _ => result == first,
        }
}

/// Stores an element under a name. Only where the block under the name has another size, it is
/// given up, and only where that succeeded, the element is stored once more. `alloc` and `again`
/// both store the element.
pub fn on_size_mismatch_retry<
    T: Copy,
    A: FnOnce(Name, T) -> Result<T, NvmemError>,
    D: FnOnce(Name) -> Result<(), NvmemError>,
    B: FnOnce(Name, T) -> Result<T, NvmemError>,
>(alloc: A, dealloc: D, again: B, name: Name, element: T) -> (result: Result<T, NvmemError>)
    requires
        call_requires(alloc, (name, element)),
        call_ensures(alloc, (name, element), Err::<T, NvmemError>(NvmemError::SizeMismatch))
            ==> call_requires(dealloc, (name,)),
        forall|given_up: Result<(), NvmemError>|
            call_ensures(alloc, (name, element), Err::<T, NvmemError>(NvmemError::SizeMismatch))
                && #[trigger] call_ensures(dealloc, (name,), given_up) && given_up is Ok
                ==> call_requires(again, (name, element)),
    ensures
        retried(alloc, dealloc, again, name, element, result),
{
    let first: Result<T, NvmemError> = alloc(name, element);
    match first {
        Err(NvmemError::SizeMismatch) => match dealloc(name) {
            Ok(()) => again(name, element),
            Err(error) => Err(error),
        },
        other => other,
    }
}

/// Offsets and addresses of a region lead back to one another.
pub proof fn law_offsets_round_trip(pool: Pool, offset: int, address: int)
    ensures
        pool.offset_of(pool.address_of(offset)) == offset,
        pool.address_of(pool.offset_of(address)) == address,
{
}

/// Names without a zero byte stay apart when they are padded.
pub proof fn law_names_stay_apart(a: Seq<u8>, b: Seq<u8>)
    requires
        a.len() <= 64,
        b.len() <= 64,
        forall|i: int| 0 <= i < a.len() ==> a[i] != 0,
        forall|i: int| 0 <= i < b.len() ==> b[i] != 0,
        name_of(a) == name_of(b),
    ensures
        a == b,
{
    let left = name_of(a);
    let right = name_of(b);
    if a.len() < b.len() {
        let i = a.len() as int;
        assert(left[i] == 0 && right[i] == b[i] && b[i] != 0);
    } else if b.len() < a.len() {
        let i = b.len() as int;
        assert(right[i] == 0 && left[i] == a[i] && a[i] != 0);
    }
    assert forall|i: int| 0 <= i < a.len() implies a[i] == b[i] by {
        assert(left[i] == a[i] && right[i] == b[i]);
    }
    assert(a =~= b);
}

/// A name of at most 64 bytes is kept whole, with zeros behind it.
pub proof fn law_name_is_kept(input: Seq<u8>, i: int)
    requires
        input.len() <= 64,
        0 <= i < 64,
    ensures
        name_of(input).len() == 64,
        i < input.len() ==> name_of(input)[i] == input[i],
        i >= input.len() ==> name_of(input)[i] == 0,
{
}

/// Where the first try does not meet a block of another size, its outcome is the outcome. Where it
/// does, the outcome is that of the second try, or why the block could not be given up.
pub proof fn law_second_try_follows_a_mismatch<
    T: Copy,
    A: FnOnce(Name, T) -> Result<T, NvmemError>,
    D: FnOnce(Name) -> Result<(), NvmemError>,
    B: FnOnce(Name, T) -> Result<T, NvmemError>,
>(alloc: A, dealloc: D, again: B, name: Name, element: T, result: Result<T, NvmemError>)
    requires
        retried(alloc, dealloc, again, name, element, result),
    ensures
        !call_ensures(alloc, (name, element), Err::<T, NvmemError>(NvmemError::SizeMismatch))
            ==> call_ensures(alloc, (name, element), result),
        (forall|first: Result<T, NvmemError>| #[trigger]
            call_ensures(alloc, (name, element), first) ==> first == Err::<T, NvmemError>(
                NvmemError::SizeMismatch,
            )) && (forall|given_up: Result<(), NvmemError>| #[trigger]
            call_ensures(dealloc, (name,), given_up) ==> given_up is Ok) ==> call_ensures(
            again,
            (name, element),
            result,
        ),
        (forall|first: Result<T, NvmemError>| #[trigger]
            call_ensures(alloc, (name, element), first) ==> first == Err::<T, NvmemError>(
                NvmemError::SizeMismatch,
            )) && (forall|given_up: Result<(), NvmemError>| #[trigger]
            call_ensures(dealloc, (name,), given_up) ==> given_up is Err) ==> result is Err,
{
}

/// Offsets count the bytes from the base of the region.
pub proof fn law_offsets_count_from_the_base(pool: Pool, offset: int)
    ensures
        pool.address_of(0) == pool.base,
        pool.address_of(offset + 1) == pool.address_of(offset) + 1,
        pool.offset_of(pool.base as int) == 0,
        pool.offset_of(offset + 1) == pool.offset_of(offset) + 1,
{
}

} // verus!
