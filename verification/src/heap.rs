//! The heap of a pool, which `linked_list_allocator` keeps.

use linked_list_allocator::Heap;
use vstd::prelude::*;

verus! {

/// [`linked_list_allocator::Heap`], opaque here: what it holds is named by [`heap_free`],
/// [`heap_bottom`] and [`heap_size`].
#[verifier::external_type_specification]
#[verifier::external_body]
pub struct ExHeap(Heap);

/// The addresses that lie in a hole of the heap.
pub uninterp spec fn heap_free(heap: Heap) -> Set<int>;

/// The lowest address of the region that the heap hands out, as `Heap::bottom` returns it.
pub uninterp spec fn heap_bottom(heap: Heap) -> int;

/// The length of the region that the heap hands out, as `Heap::size` returns it.
pub uninterp spec fn heap_size(heap: Heap) -> int;

/// Bytes of a machine word.
pub open spec fn word() -> int {
    usize::BITS as int / 8
}

/// Bytes that the heap takes for a request of `size` bytes: two words at least, in whole
/// words.
pub open spec fn block_len(size: int) -> int {
    crate::layout::round_up(if size < 2 * word() { 2 * word() } else { size }, word())
}

/// The addresses from `address` on, `len` of them.
pub open spec fn span(address: int, len: int) -> Set<int> {
    Set::new(|x: int| address <= x < address + len)
}

/// Whether `Layout::from_size_align` accepts the size and the alignment.
pub open spec fn is_layout(size: int, align: int) -> bool {
    crate::layout::is_alignment(align) && size <= isize::MAX - (align - 1)
}

/// Addresses in which a block of `size` bytes surely fits: they have room for the block with the
/// alignment gap and a hole of two words on either side.
pub open spec fn fitting(len: int, size: int, align: int) -> bool {
    len >= block_len(size) + align + 4 * word()
}

/// The block at `address` is not behind free addresses in which it surely fits.
pub open spec fn first_fit(free: Set<int>, address: int, size: int, align: int) -> bool {
    forall|x: int, len: int|
        fitting(len, size, align) && #[trigger] span(x, len).subset_of(free) ==> address < x + align
            + 2 * word()
}

/// There are no free addresses in which a block surely fits.
pub open spec fn no_fit(free: Set<int>, size: int, align: int) -> bool {
    is_layout(block_len(size), align) ==> forall|x: int, len: int|
        fitting(len, size, align) ==> !#[trigger] span(x, len).subset_of(free)
}

/// `linked_list_allocator::Heap::allocate_first_fit`, for the layout of `size` bytes aligned
/// to `align`, with the address of the block in place of the pointer. Claimed of it:
/// - a block that it hands out is aligned, was free before and lies in the region of the heap,
///   and exactly the block (the size rounded up to whole words, two words at least) is taken
///   from the free addresses;
/// - it lies in the first hole that is big enough, so not behind free addresses in which it
///   surely fits;
/// - where it hands out none, the free addresses stay, and there are none in which the block
///   surely fits;
/// - the region of the heap stays.
#[verifier::external_body]
pub(crate) fn allocate_first_fit(heap: &mut Heap, size: usize, align: usize) -> (block: Option<u64>)
    requires
        is_layout(size as int, align as int),
        heap_bottom(*old(heap)) + heap_size(*old(heap)) + align + 2 * word() <= usize::MAX,
    ensures
        heap_bottom(*final(heap)) == heap_bottom(*old(heap)),
        heap_size(*final(heap)) == heap_size(*old(heap)),
        match block {
            Some(address) => {
                &&& address > 0
                &&& address % (align as u64) == 0
                &&& heap_bottom(*old(heap)) <= address
                &&& address + block_len(size as int) <= heap_bottom(*old(heap)) + heap_size(
                    *old(heap),
                )
                &&& span(address as int, block_len(size as int)).subset_of(heap_free(*old(heap)))
                &&& heap_free(*final(heap)) == heap_free(*old(heap)).difference(
                    span(address as int, block_len(size as int)),
                )
                &&& first_fit(heap_free(*old(heap)), address as int, size as int, align as int)
            },
            None => {
                &&& heap_free(*final(heap)) == heap_free(*old(heap))
                &&& no_fit(heap_free(*old(heap)), size as int, align as int)
            },
        },
{
    match heap.allocate_first_fit(core::alloc::Layout::from_size_align(size, align).unwrap()) {
        Ok(block) => Some(block.addr().get() as u64),
        Err(()) => None,
    }
}

/// `linked_list_allocator::Heap::bottom`, as a number.
#[verifier::external_body]
fn bottom(heap: &Heap) -> (address: u64)
    ensures
        address == heap_bottom(*heap),
{
    heap.bottom().addr() as u64
}

/// `linked_list_allocator::Heap::size`.
#[verifier::external_body]
fn size(heap: &Heap) -> (size: usize)
    ensures
        size == heap_size(*heap),
{
    heap.size()
}

/// Whether the heap hands out addresses of the region `start..start + len` only.
pub open spec fn heap_within(heap: Heap, start: int, len: int) -> bool {
    start <= heap_bottom(heap) && heap_bottom(heap) + heap_size(heap) <= start + len
}

/// Tests whether the heap hands out addresses of the region `start..start + len` only.
pub fn is_heap_within(heap: &Heap, start: u64, len: usize) -> (within: bool)
    requires
        start + len <= u64::MAX,
    ensures
        within == heap_within(*heap, start as int, len as int),
{
    let low: u64 = bottom(heap);
    let taken: usize = size(heap);
    let high: u64 = start + len as u64;
    start <= low && low <= high && taken as u64 <= high - low
}

/// A size that has a layout is a size in memory, and alignments are positive.
pub proof fn lemma_is_layout(size: int, align: int)
    requires
        is_layout(size, align),
    ensures
        align > 0,
        size <= isize::MAX,
{
    let n = choose|n: nat| n < 64 && align == #[trigger] vstd::arithmetic::power2::pow2(n);
    vstd::arithmetic::power2::lemma_pow2_pos(n);
}

/// A heap takes at least the bytes that were asked for, and at least two words.
pub proof fn lemma_block_len(size: int)
    ensures
        block_len(size) >= size,
        block_len(size) >= 2 * word(),
        word() == 4 || word() == 8,
{
    let wanted = if size < 2 * word() { 2 * word() } else { size };
    if word() == 4 {
        assert((wanted + 3) / 4 * 4 >= wanted);
    } else {
        assert((wanted + 7) / 8 * 8 >= wanted);
    }
}

} // verus!
