//! Sizes, alignment and the division of an NVDIMM into pools.

use vstd::arithmetic::power2::*;
use vstd::prelude::*;

verus! {

/// Size of every pool in bytes.
pub const FIXED_POOL_SIZE: usize = 1048576;

/// Size of the metadata record at the start of the NVDIMM.
pub const METADATA_SIZE: usize = 96;

/// Size of one pool directory record.
pub const DIRECTORY_ENTRY_SIZE: usize = 160;

/// Alignment of the bitmap and of the pool directory.
pub const DIRECTORY_ALIGNMENT: usize = 8;

/// Pool states held by one bitmap word.
pub const BITS_PER_WORD: usize = 64;

/// Slots in the object table of a pool.
pub const MAX_OBJECT_ENTRIES: usize = 256;

/// Size of the header record at the start of a pool.
pub const POOL_HEADER_SIZE: usize = 48;

/// Size of one object table record.
pub const OBJECT_ENTRY_SIZE: usize = 64;

/// Alignment of the object table and of the heap inside a pool.
pub const POOL_ALIGNMENT: usize = 64;

/// Size of a physical page.
pub const PAGE_SIZE: usize = 0x1000;

/// Whether `align` is a power of two that fits a machine word.
pub open spec fn is_alignment(align: int) -> bool {
    exists|n: nat| n < 64 && align == #[trigger] pow2(n)
}

/// The smallest multiple of `align` that is at least `addr`.
pub open spec fn round_up(addr: int, align: int) -> int {
    ((addr + align - 1) / align) * align
}

/// Rounds `addr` up to the next multiple of `align`.
pub fn align_up(addr: usize, align: usize) -> (aligned: usize)
    requires
        is_alignment(align as int),
        addr + align <= usize::MAX,
    ensures
        aligned == round_up(addr as int, align as int),
        aligned % align == 0,
        addr <= aligned < addr + align,
{
    proof {
        lemma_mask_rounds_down((addr + align - 1) as usize, align);
    }
    (addr + align - 1) & !(align - 1)
}

/// Clearing the bits below a power of two rounds down to a multiple of it.
pub proof fn lemma_mask_rounds_down(x: usize, align: usize)
    requires
        is_alignment(align as int),
    ensures
        align > 0,
        x & !((align - 1) as usize) == (x / align) * align,
        ((x / align) * align) % (align as int) == 0,
        x - align < (x / align) * align <= x,
{
    let n = choose|n: nat| n < 64 && align as int == #[trigger] pow2(n);
    lemma_pow2_pos(n);
    let m = (align - 1) as usize;
    vstd::bits::lemma_u64_low_bits_mask_is_mod(x as u64, n);
    assert(x & m == x % align) by {
        assert((x as u64) & (m as u64) == (x & m) as u64) by (bit_vector);
    }
    assert(x & !m == x - (x & m)) by (bit_vector);
    vstd::arithmetic::div_mod::lemma_fundamental_div_mod(x as int, align as int);
    vstd::arithmetic::mul::lemma_mul_is_commutative(align as int, x as int / align as int);
    vstd::arithmetic::div_mod::lemma_mod_multiples_basic(x as int / align as int, align as int);
}

/// The alignments that the on-media layout uses are powers of two.
pub proof fn lemma_layout_alignments()
    ensures
        is_alignment(8),
        is_alignment(64),
        is_alignment(4096),
{
    lemma2_to64();
    assert(is_alignment(8)) by { assert(pow2(3) == 8); }
    assert(is_alignment(64)) by { assert(pow2(6) == 64); }
    assert(is_alignment(4096)) by { assert(pow2(12) == 4096); }
}

/// Offset of the object table from the start of a pool.
pub fn object_table_offset() -> (offset: usize)
    ensures
        offset == 64,
        offset == round_up(POOL_HEADER_SIZE as int, POOL_ALIGNMENT as int),
{
    proof { lemma_layout_alignments(); }
    align_up(POOL_HEADER_SIZE, POOL_ALIGNMENT)
}

/// Offset of the heap from the start of a pool.
pub fn heap_offset() -> (offset: usize)
    ensures
        offset == 16448,
        offset == round_up(64 + OBJECT_ENTRY_SIZE * MAX_OBJECT_ENTRIES, POOL_ALIGNMENT as int),
{
    proof { lemma_layout_alignments(); }
    align_up(object_table_offset() + OBJECT_ENTRY_SIZE * MAX_OBJECT_ENTRIES, POOL_ALIGNMENT)
}

/// Bytes that metadata, bitmaps, directory and pools take for `pools` pools.
pub open spec fn space_needed(pools: int) -> int {
    METADATA_SIZE + pools * FIXED_POOL_SIZE + pools * DIRECTORY_ENTRY_SIZE + ((pools + 63) / 64)
        * 16
}

/// The largest multiple of 64 that is at most `x`.
pub open spec fn down_to_word(x: int) -> int {
    (x / 64) * 64
}

/// Bytes that an estimate charges for the bits of a pool in the bitmaps: a quarter of a byte,
/// rounded up.
pub const BITMAP_SHARE: usize = 1;

/// Pools whose data, directory records and bits fit behind the metadata, in whole bitmap words.
pub open spec fn estimated_pools(nvdimm_size: int) -> int {
    down_to_word(
        (nvdimm_size - METADATA_SIZE) / (FIXED_POOL_SIZE + DIRECTORY_ENTRY_SIZE + BITMAP_SHARE),
    )
}

/// Number of pools for an NVDIMM of `nvdimm_size` bytes: a conservative estimate of the pools
/// that fit behind the metadata with their directory records and bitmaps, rounded down to whole
/// bitmap words.
pub fn calculate_max_pools(nvdimm_size: usize) -> (pools: usize)
    requires
        nvdimm_size >= METADATA_SIZE,
    ensures
        pools == estimated_pools(nvdimm_size as int),
        pools % 64 == 0,
        space_needed(pools as int) <= nvdimm_size,
{
    let available_space: usize = nvdimm_size - METADATA_SIZE;
    let space_per_pool: usize = FIXED_POOL_SIZE + DIRECTORY_ENTRY_SIZE + BITMAP_SHARE;
    let max_pools: usize = available_space / space_per_pool;
    proof {
        lemma_layout_alignments();
        lemma_mask_rounds_down(max_pools, 64);
        law_estimated_pools_fit(nvdimm_size as int);
    }
    max_pools & !63
}

/// Whether `pools` pools, padded to whole pages, fit an NVDIMM of `nvdimm_size` bytes.
pub open spec fn fits_padded(pools: int, nvdimm_size: int) -> bool {
    round_up(space_needed(pools), 4096) <= nvdimm_size
}

/// What [`calculate_max_pools_precise`] gives.
pub open spec fn counted(nvdimm_size: int, result: Option<int>) -> bool {
    &&& match result {
        Some(pools) => {
            &&& 0 < pools <= estimated_pools(nvdimm_size)
            &&& pools % 64 == 0
            &&& fits_padded(pools, nvdimm_size)
            &&& forall|more: int|
                pools < more <= estimated_pools(nvdimm_size) && more % 64 == 0
                    ==> !#[trigger] fits_padded(more, nvdimm_size)
        },
        None => {
            ||| nvdimm_size < space_needed(1)
            ||| forall|pools: int|
                0 < pools <= estimated_pools(nvdimm_size) && pools % 64 == 0
                    ==> !#[trigger] fits_padded(pools, nvdimm_size)
        },
    }
    &&& nvdimm_size < space_needed(1) ==> result is None
}

/// Largest number of pools, a multiple of 64 up to the estimate, whose exact space
/// requirement padded to 4 KiB fits the NVDIMM; `None` when there is none.
pub fn calculate_max_pools_precise(nvdimm_size: usize) -> (result: Option<usize>)
    requires
        nvdimm_size <= usize::MAX - 4096,
    ensures
        counted(
            nvdimm_size as int,
            match result {
                Some(pools) => Some(pools as int),
                None => None,
            },
        ),
{
    let min_required_size: usize = METADATA_SIZE + FIXED_POOL_SIZE + DIRECTORY_ENTRY_SIZE + 16;
    if nvdimm_size < min_required_size {
        return None;
    }
    let estimate: usize = (nvdimm_size - METADATA_SIZE) / (FIXED_POOL_SIZE + DIRECTORY_ENTRY_SIZE
        + BITMAP_SHARE);
    proof {
        lemma_layout_alignments();
        lemma_mask_rounds_down(estimate, 64);
    }
    let mut pools: usize = estimate & !63;
    while pools > 0
        invariant
            pools % 64 == 0,
            nvdimm_size <= usize::MAX - 4096,
            pools <= estimated_pools(nvdimm_size as int),
            estimated_pools(nvdimm_size as int) * 1048737 <= nvdimm_size - METADATA_SIZE,
            forall|more: int|
                pools < more <= estimated_pools(nvdimm_size as int) && more % 64 == 0
                    ==> !#[trigger] fits_padded(more, nvdimm_size as int),
        decreases pools,
    {
        let bitmap_words: usize = (pools + 63) / 64;
        let bitmap_size: usize = bitmap_words * 16;
        let total_needed: usize = METADATA_SIZE + pools * FIXED_POOL_SIZE + pools
            * DIRECTORY_ENTRY_SIZE + bitmap_size;
        proof {
            lemma_layout_alignments();
            lemma_mask_rounds_down((total_needed + 4095) as usize, 4096);
        }
        let total_with_padding: usize = (total_needed + 4095) & !4095;
        if total_with_padding <= nvdimm_size {
            return Some(pools);
        }
        pools = pools - 64;
    }
    None
}

/// The pools that [`calculate_max_pools_precise`] grants fit the NVDIMM together with the
/// metadata, both bitmaps and the directory.
pub proof fn law_precise_pools_fit(pools: int, nvdimm_size: int)
    requires
        fits_padded(pools, nvdimm_size),
    ensures
        space_needed(pools) <= nvdimm_size,
{
}

/// The pools that [`calculate_max_pools`] grants fit the NVDIMM together with the metadata, both
/// bitmaps and the directory.
pub proof fn law_estimated_pools_fit(nvdimm_size: int)
    requires
        nvdimm_size >= METADATA_SIZE,
    ensures
        space_needed(estimated_pools(nvdimm_size)) <= nvdimm_size,
{
    let pools = estimated_pools(nvdimm_size);
    assert((pools + 63) / 64 * 16 == pools / 4);
    let estimate = (nvdimm_size - METADATA_SIZE) / 1048737;
    assert(pools <= estimate);
    assert(estimate * 1048737 <= nvdimm_size - METADATA_SIZE);
}

/// Rounding up gives the next multiple: not below the address, less than one alignment above it,
/// and the address itself where it is a multiple.
pub proof fn law_rounding_up(addr: int, align: int)
    requires
        align > 0,
    ensures
        round_up(addr, align) % align == 0,
        addr <= round_up(addr, align) < addr + align,
        addr % align == 0 ==> round_up(addr, align) == addr,
{
    let k = (addr + align - 1) / align;
    vstd::arithmetic::div_mod::lemma_fundamental_div_mod(addr + align - 1, align);
    vstd::arithmetic::div_mod::lemma_mod_bound(addr + align - 1, align);
    vstd::arithmetic::div_mod::lemma_mod_multiples_basic(k, align);
    vstd::arithmetic::mul::lemma_mul_is_commutative(k, align);
    if addr % align == 0 {
        vstd::arithmetic::div_mod::lemma_fundamental_div_mod(addr, align);
        let m = addr / align;
        assert(m == k) by (nonlinear_arith)
            requires
                align * m == addr,
                addr <= align * k,
                align * k < addr + align,
                align > 0,
        ;
    }
}

/// The estimate is as large as it can be: with 64 pools more, at one byte of bitmaps for each, the
/// NVDIMM would be too small.
pub proof fn law_estimate_is_the_largest(nvdimm_size: int)
    requires
        nvdimm_size >= METADATA_SIZE,
    ensures
        estimated_pools(nvdimm_size) % 64 == 0,
        estimated_pools(nvdimm_size) >= 0,
        96 + estimated_pools(nvdimm_size) * 1048737 <= nvdimm_size,
        96 + (estimated_pools(nvdimm_size) + 64) * 1048737 > nvdimm_size,
{
    let pools = estimated_pools(nvdimm_size);
    let estimate = (nvdimm_size - METADATA_SIZE) / 1048737;
    assert(pools <= estimate < pools + 64);
    assert(estimate * 1048737 <= nvdimm_size - METADATA_SIZE < (estimate + 1) * 1048737);
}

/// What is needed for some pools is their metadata, their data, their directory records and two
/// bits for each, in whole words and rounded up to whole pages.
pub proof fn law_space_for_pools(pools: int, nvdimm_size: int)
    requires
        pools >= 0,
        pools % 64 == 0,
    ensures
        space_needed(pools) == 96 + pools * 1048576 + pools * 160 + pools / 4,
        fits_padded(pools, nvdimm_size) ==> space_needed(pools) <= nvdimm_size,
        space_needed(pools) + 4095 <= nvdimm_size ==> fits_padded(pools, nvdimm_size),
{
}

/// Pools are counted as exactly as pages allow: those that are granted fit, and 64 more, where the
/// estimate had room for them, do not fit in whole pages. Some are granted wherever 64 fit with a
/// page to spare.
pub proof fn law_pools_are_counted_precisely(nvdimm_size: int, result: Option<int>)
    requires
        nvdimm_size >= 0,
        counted(nvdimm_size, result),
    ensures
        result matches Some(pools) ==> {
            &&& pools > 0 && pools % 64 == 0
            &&& 96 + pools * 1048736 + pools / 4 <= nvdimm_size
            &&& 96 + (pools + 64) * 1048737 <= nvdimm_size ==> 96 + (pools + 64) * 1048736 + (pools
                + 64) / 4 + 4095 > nvdimm_size
        },
        nvdimm_size >= 96 + 64 * 1048737 + 4095 ==> result is Some,
{
    if nvdimm_size >= 96 {
        law_estimate_is_the_largest(nvdimm_size);
        let most = estimated_pools(nvdimm_size);
        match result {
            Some(pools) => {
                law_space_for_pools(pools, nvdimm_size);
                law_space_for_pools(pools + 64, nvdimm_size);
                if 96 + (pools + 64) * 1048737 <= nvdimm_size {
                    assert(pools + 64 <= most);
                    assert(!fits_padded(pools + 64, nvdimm_size));
                }
            },
            None => {
                if nvdimm_size >= 96 + 64 * 1048737 + 4095 {
                    law_space_for_pools(64, nvdimm_size);
                    assert(64 <= most);
                    assert(fits_padded(64, nvdimm_size));
                }
            },
        }
    }
}

} // verus!
