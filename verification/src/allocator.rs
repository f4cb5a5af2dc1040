//! The allocator that divides an NVDIMM into pools and finds them by name.

use crate::image::PoolView;
use crate::layout::{
    align_up, calculate_max_pools, BITS_PER_WORD, DIRECTORY_ALIGNMENT, DIRECTORY_ENTRY_SIZE,
    FIXED_POOL_SIZE, METADATA_SIZE,
};
use crate::pool::{log_pool_name, Pool, PoolHeader, PoolImage};
use linked_list_allocator::Heap;
use vstd::prelude::*;

verus! {

/// Marks the metadata of an NVDIMM as initialised.
pub const ALLOCATOR_MAGIC: u64 = 0x4433_4F53_4E56_4D4D;

/// Longest pool name in bytes, and one.
pub const POOL_NAME_SIZE: usize = 64;

/// The record at the start of the NVDIMM.
#[derive(Clone, Copy, PartialEq, Eq, Structural, Debug)]
pub struct GlobalMetadata {
    pub magic_number: u64,
    pub nvdimm_size: usize,
    pub pool_size: usize,
    pub total_pools: u32,
    pub used_pools: u32,
    pub initialized_pools: u32,
    pub bitmap_offset: u64,
    pub pool_directory_offset: u64,
    pub bitmap_words: usize,
    pub log_pool_offset: u64,
    pub initialization_failures: u32,
    pub total_allocations: usize,
    pub total_deallocations: usize,
}

/// Name of a pool, padded with zeros, and the pool.
pub struct PoolDirectoryEntry {
    pub name: [u8; 64],
    pub pool: Option<Pool>,
}

/// What an NVDIMM holds in front of its pools.
pub struct Media {
    pub metadata: GlobalMetadata,
    pub bitmap: Vec<u64>,
    pub pool_directory: Vec<PoolDirectoryEntry>,
}

/// Where things are on an NVDIMM.
#[derive(Clone, Copy, PartialEq, Eq, Structural, Debug)]
pub struct MediaLayout {
    pub max_pools: usize,
    pub bitmap_words: usize,
    pub bitmap_offset: usize,
    pub directory_offset: usize,
}

/// The pools of an NVDIMM. The first half of `bitmap` says which pools are initialised, the
/// second half which are in use.
pub struct GlobalPersistentAllocator {
    pub base_address: u64,
    pub metadata: GlobalMetadata,
    pub bitmap: Vec<u64>,
    pub pool_directory: Vec<PoolDirectoryEntry>,
    pub log_pool: Option<Pool>,
}

/// What was found of an NVDIMM.
#[derive(Clone, Copy, PartialEq, Eq, Structural, Debug)]
pub struct RecoveryStatus {
    pub metadata_valid: bool,
    pub bitmap_consistent: bool,
    pub used_pools: u32,
    pub total_pools: u32,
    pub initialization_failures: u32,
}

/// Why no pool was handed out.
#[derive(Clone, Copy, PartialEq, Eq, Structural, Debug)]
pub enum AllocError {
    NameTooLongOrShort,
    NoPoolsAvailable,
    InconsistentState,
    NameNotAllowed,
}

impl MediaLayout {
    /// The layout of an NVDIMM of `nvdimm_size` bytes: the bitmaps come behind the metadata, the
    /// directory behind the bitmaps, both aligned.
    pub open spec fn of(nvdimm_size: usize) -> MediaLayout {
        let pools = crate::layout::estimated_pools(nvdimm_size as int);
        MediaLayout {
            max_pools: pools as usize,
            bitmap_words: ((pools + 63) / 64) as usize,
            bitmap_offset: 96,
            directory_offset: (96 + (pools + 63) / 64 * 16) as usize,
        }
    }

    /// Offset of the first pool.
    pub open spec fn pools_offset(self) -> int {
        self.directory_offset + self.max_pools * DIRECTORY_ENTRY_SIZE
    }

    /// The NVDIMM at the address fits the address space, and its pools can be counted.
    pub open spec fn fits_at(self, base_address: u64) -> bool {
        &&& self.max_pools <= u32::MAX
        &&& base_address + self.pools_offset() + self.max_pools * FIXED_POOL_SIZE <= usize::MAX
    }
}

/// Where things are on an NVDIMM of `nvdimm_size` bytes.
pub fn media_layout(nvdimm_size: usize) -> (layout: MediaLayout)
    requires
        nvdimm_size >= METADATA_SIZE,
    ensures
        layout == MediaLayout::of(nvdimm_size),
        layout.max_pools == crate::layout::estimated_pools(nvdimm_size as int),
        layout.bitmap_words == (layout.max_pools + 63) / 64,
        layout.bitmap_offset == 96,
        layout.directory_offset == 96 + layout.bitmap_words * 16,
{
    let max_pools: usize = calculate_max_pools(nvdimm_size);
    let bitmap_words: usize = (max_pools + 63) / 64;
    proof { crate::layout::lemma_layout_alignments(); }
    let bitmap_offset: usize = align_up(METADATA_SIZE, DIRECTORY_ALIGNMENT);
    let directory_offset: usize = align_up(bitmap_offset + bitmap_words * 2 * 8, DIRECTORY_ALIGNMENT);
    MediaLayout { max_pools, bitmap_words, bitmap_offset, directory_offset }
}

/// A bit of a word is set.
pub open spec fn bit(word: u64, index: int) -> bool {
    word & (1u64 << (index as u64)) != 0
}

/// The first `count` bits of the words from `from` on.
pub open spec fn bits(words: Seq<u64>, from: int, count: int) -> Seq<bool> {
    Seq::new(count as nat, |i: int| bit(words[from + i / 64], i % 64))
}

/// The metadata is that of an initialised NVDIMM with pools of the fixed size.
pub open spec fn metadata_ok(metadata: GlobalMetadata) -> bool {
    &&& metadata.magic_number == ALLOCATOR_MAGIC
    &&& metadata.nvdimm_size >= METADATA_SIZE
    &&& metadata.pool_size == FIXED_POOL_SIZE
    &&& metadata.total_pools != 0
}

/// The pool name in a directory entry is `name`.
pub open spec fn name_matches(name: Seq<u8>, entry: Seq<u8>) -> bool {
    &&& name.len() < 64
    &&& entry.take(name.len() as int) == name
    &&& entry[name.len() as int] == 0
}

/// A pool name padded with zeros.
pub open spec fn padded(name: Seq<u8>) -> Seq<u8> {
    Seq::new(64, |i: int| if i < name.len() { name[i] } else { 0u8 })
}

/// Compares a name with the one in a directory entry.
pub fn compare_name(name: &[u8], entry_name: &[u8; 64]) -> (same: bool)
    ensures
        same == name_matches(name@, entry_name@),
{
    let mut i: usize = 0;
    while i < name.len() && i < 64
        invariant
            i <= name@.len(),
            i <= 64,
            forall|k: int| 0 <= k < i ==> name@[k] == entry_name@[k],
        decreases name.len() - i,
    {
        if name[i] != entry_name[i] {
            assert(name@.len() < 64 ==> entry_name@.take(name@.len() as int)[i as int]
                == entry_name@[i as int]);
            return false;
        }
        i = i + 1;
    }
    if i == name.len() && i < 64 {
        assert(entry_name@.take(name@.len() as int) =~= name@);
    }
    i < 64 && entry_name[i] == 0
}

/// Pads a pool name with zeros.
fn pad_name(name: &[u8]) -> (entry_name: [u8; 64])
    requires
        name@.len() < 64,
    ensures
        entry_name@ == padded(name@),
{
    let mut entry_name: [u8; 64] = [0u8; 64];
    let mut i: usize = 0;
    while i < name.len()
        invariant
            i <= name@.len() < 64,
            forall|k: int| 0 <= k < i ==> entry_name@[k] == name@[k],
            forall|k: int| i <= k < 64 ==> entry_name@[k] == 0,
        decreases name.len() - i,
    {
        entry_name[i] = name[i];
        i = i + 1;
    }
    assert(entry_name@ =~= padded(name@));
    entry_name
}

proof fn lemma_bits(word: u64, b: u64, c: u64)
    requires
        b < 64,
        c < 64,
    ensures
        ((word | (1u64 << b)) & (1u64 << c) != 0) == (b == c || word & (1u64 << c) != 0),
        ((word & !(1u64 << b)) & (1u64 << c) != 0) == (b != c && word & (1u64 << c) != 0),
{
    assert(((word | (1u64 << b)) & (1u64 << c) != 0) == (b == c || word & (1u64 << c) != 0))
        by (bit_vector)
        requires
            b < 64,
            c < 64,
    ;
    assert(((word & !(1u64 << b)) & (1u64 << c) != 0) == (b != c && word & (1u64 << c) != 0))
        by (bit_vector)
        requires
            b < 64,
            c < 64,
    ;
}

/// Whether the metadata is that of an initialised NVDIMM with pools of the fixed size.
fn is_metadata_ok(metadata: &GlobalMetadata) -> (ok: bool)
    ensures
        ok == metadata_ok(*metadata),
{
    metadata.magic_number == ALLOCATOR_MAGIC && metadata.nvdimm_size >= METADATA_SIZE
        && metadata.pool_size == FIXED_POOL_SIZE && metadata.total_pools != 0
}

/// Whether a bit of the words from `from` on is set.
fn is_set(words: &Vec<u64>, from: usize, index: usize) -> (set: bool)
    requires
        from + index / 64 < words@.len(),
    ensures
        set == bit(words@[from + index / 64], (index % 64) as int),
{
    assert(words@.len() == words.len());
    let word: u64 = words[from + index / BITS_PER_WORD];
    let bit_index: u64 = (index % BITS_PER_WORD) as u64;
    word & (1u64 << bit_index) != 0
}

/// How many of the first `count` bits of the words from `from` on are set.
fn count_bits(words: &Vec<u64>, from: usize, count: u32) -> (set: u32)
    requires
        from + (count + 63) / 64 <= words@.len(),
    ensures
        set == crate::search::count_true(bits(words@, from as int, count as int)),
{
    let mut set: u32 = 0;
    let mut i: u32 = 0;
    let ghost all = bits(words@, from as int, count as int);
    while i < count
        invariant
            i <= count,
            from + (count + 63) / 64 <= words@.len(),
            all == bits(words@, from as int, count as int),
            set <= i,
            set == crate::search::count_true(all.take(i as int)),
        decreases count - i,
    {
        assert(all.take(i + 1).drop_last() =~= all.take(i as int));
        if is_set(words, from, i as usize) {
            set = set + 1;
        }
        i = i + 1;
    }
    assert(all.take(i as int) =~= all);
    set
}

impl GlobalPersistentAllocator {
    /// The bitmaps have a bit for each pool.
    pub open spec fn bitmap_wf(self) -> bool {
        &&& self.bitmap@.len() == 2 * self.metadata.bitmap_words
        &&& self.metadata.total_pools <= 64 * self.metadata.bitmap_words
    }

    /// Which pools are in use.
    pub open spec fn used(self) -> Seq<bool> {
        bits(
            self.bitmap@,
            self.metadata.bitmap_words as int,
            self.metadata.total_pools as int,
        )
    }

    /// Which pools are initialised.
    pub open spec fn initialized(self) -> Seq<bool> {
        bits(self.bitmap@, 0, self.metadata.total_pools as int)
    }

    /// A bit of the bitmap of the pools in use, or of that of the initialised pools.
    pub open spec fn bit_set(self, index: int, is_used: bool) -> bool {
        let from = if is_used {
            self.metadata.bitmap_words as int
        } else {
            0
        };
        bit(self.bitmap@[from + index / 64], index % 64)
    }

    /// Whether a pool is in use, or initialised.
    pub fn is_bit_set(&self, pool_index: usize, is_used: bool) -> (set: bool)
        requires
            self.bitmap_wf(),
            pool_index < 64 * self.metadata.bitmap_words,
        ensures
            set == self.bit_set(pool_index as int, is_used),
            pool_index < self.metadata.total_pools ==> set == if is_used {
                self.used()[pool_index as int]
            } else {
                self.initialized()[pool_index as int]
            },
    {
        let offset: usize = if is_used {
            self.metadata.bitmap_words
        } else {
            0
        };
        is_set(&self.bitmap, offset, pool_index)
    }

    /// The same but for the bitmaps.
    pub open spec fn same_but_bitmap(self, other: Self) -> bool {
        &&& self.base_address == other.base_address
        &&& self.metadata == other.metadata
        &&& self.pool_directory == other.pool_directory
        &&& self.log_pool == other.log_pool
    }

    /// Says of a pool whether it is in use, or initialised. The other bits stay.
    pub fn set_bit(&mut self, pool_index: usize, is_used: bool, value: bool)
        requires
            old(self).bitmap_wf(),
            pool_index < 64 * old(self).metadata.bitmap_words,
        ensures
            final(self).bitmap_wf(),
            final(self).same_but_bitmap(*old(self)),
            forall|i: int, used: bool|
                0 <= i < 64 * old(self).metadata.bitmap_words ==> #[trigger] final(self).bit_set(
                    i,
                    used,
                ) == if i == pool_index && used == is_used {
                    value
                } else {
                    old(self).bit_set(i, used)
                },
            final(self).used() == if is_used && pool_index < old(self).metadata.total_pools {
                old(self).used().update(pool_index as int, value)
            } else {
                old(self).used()
            },
            final(self).initialized() == if !is_used && pool_index < old(
                self,
            ).metadata.total_pools {
                old(self).initialized().update(pool_index as int, value)
            } else {
                old(self).initialized()
            },
    {
        let offset: usize = if is_used {
            self.metadata.bitmap_words
        } else {
            0
        };
        assert(self.bitmap@.len() == self.bitmap.len());
        let word_index: usize = offset + pool_index / BITS_PER_WORD;
        let bit_index: u64 = (pool_index % BITS_PER_WORD) as u64;
        let mask: u64 = 1u64 << bit_index;
        let word: u64 = self.bitmap[word_index];
        if value {
            self.bitmap[word_index] = word | mask;
        } else {
            self.bitmap[word_index] = word & !mask;
        }
        proof {
            let total = self.metadata.total_pools as int;
            assert forall|i: int, used: bool|
                0 <= i < 64 * self.metadata.bitmap_words implies #[trigger] self.bit_set(i, used)
                == if i == pool_index && used == is_used {
                value
            } else {
                old(self).bit_set(i, used)
            } by {
                lemma_bits(word, bit_index, (i % 64) as u64);
            }
            assert forall|i: int| 0 <= i < total implies {
                &&& #[trigger] self.used()[i] == self.bit_set(i, true)
                &&& self.initialized()[i] == self.bit_set(i, false)
                &&& old(self).used()[i] == old(self).bit_set(i, true)
                &&& old(self).initialized()[i] == old(self).bit_set(i, false)
            } by {}
            assert(self.used() =~= if is_used && pool_index < total {
                old(self).used().update(pool_index as int, value)
            } else {
                old(self).used()
            });
            assert forall|i: int| 0 <= i < total implies #[trigger] self.initialized()[i]
                == if !is_used && i == pool_index {
                value
            } else {
                old(self).initialized()[i]
            } by {
                assert(self.used()[i] == self.bit_set(i, true));
            }
            assert(self.initialized() =~= if !is_used && pool_index < total {
                old(self).initialized().update(pool_index as int, value)
            } else {
                old(self).initialized()
            });
        }
    }

    /// The metadata is that of an initialised NVDIMM.
    pub fn verify_metadata(&self) -> (ok: bool)
        ensures
            ok == metadata_ok(self.metadata),
    {
        is_metadata_ok(&self.metadata)
    }

    /// As many pools are in use as the metadata says.
    pub open spec fn consistent(self) -> bool {
        crate::search::count_true(self.used()) == self.metadata.used_pools
    }

    /// Whether as many pools are in use as the metadata says.
    pub fn verify_bitmap_consistency(&self) -> (ok: bool)
        requires
            self.bitmap_wf(),
        ensures
            ok == self.consistent(),
    {
        count_bits(&self.bitmap, self.metadata.bitmap_words, self.metadata.total_pools)
            == self.metadata.used_pools
    }

    /// What [`GlobalPersistentAllocator::check_recovery_status`] tells.
    pub open spec fn status(self) -> RecoveryStatus {
        RecoveryStatus {
            metadata_valid: metadata_ok(self.metadata),
            bitmap_consistent: self.consistent(),
            used_pools: self.metadata.used_pools,
            total_pools: self.metadata.total_pools,
            initialization_failures: self.metadata.initialization_failures,
        }
    }

    /// What is found of the NVDIMM.
    pub fn check_recovery_status(&self) -> (status: RecoveryStatus)
        requires
            self.bitmap_wf(),
        ensures
            status == self.status(),
    {
        RecoveryStatus {
            metadata_valid: self.verify_metadata(),
            bitmap_consistent: self.verify_bitmap_consistency(),
            used_pools: self.metadata.used_pools,
            total_pools: self.metadata.total_pools,
            initialization_failures: self.metadata.initialization_failures,
        }
    }

    /// Address of the pool in a slot.
    pub open spec fn slot_address(self, slot: int) -> int {
        self.base_address + self.metadata.pool_directory_offset + self.metadata.total_pools
            * DIRECTORY_ENTRY_SIZE + slot * FIXED_POOL_SIZE
    }

    /// A pool of a slot is at the address of the slot, and has the fixed size.
    pub open spec fn pool_wf(self, slot: int, pool: Pool) -> bool {
        &&& pool.wf()
        &&& pool.base_address == self.slot_address(slot)
        &&& pool.header.size == FIXED_POOL_SIZE
    }

    /// Metadata, bitmaps and directory fit together.
    pub open spec fn wf(self) -> bool {
        &&& self.bitmap_wf()
        &&& self.pool_directory@.len() == self.metadata.total_pools
        &&& self.slot_address(self.metadata.total_pools as int) <= usize::MAX
        &&& forall|i: int| #![trigger self.pool_directory@[i]]
            0 <= i < self.pool_directory@.len() ==> match self.pool_directory@[i].pool {
                Some(pool) => self.pool_wf(i, pool),
                None => true,
            }
    }

    /// Offset of the first pool.
    fn get_pool_data_offset(&self) -> (offset: u64)
        requires
            self.wf(),
        ensures
            offset == self.metadata.pool_directory_offset + self.metadata.total_pools
                * DIRECTORY_ENTRY_SIZE,
    {
        self.metadata.pool_directory_offset + (self.metadata.total_pools as usize
            * DIRECTORY_ENTRY_SIZE) as u64
    }

    /// Address of the pool in a slot.
    pub fn pool_address(&self, slot: usize) -> (address: u64)
        requires
            self.wf(),
            slot < self.metadata.total_pools,
        ensures
            address == self.slot_address(slot as int),
    {
        proof {
            assert(slot * FIXED_POOL_SIZE <= self.metadata.total_pools * FIXED_POOL_SIZE)
                by (nonlinear_arith)
                requires
                    slot <= self.metadata.total_pools,
            ;
        }
        self.base_address + self.get_pool_data_offset() + (slot * FIXED_POOL_SIZE) as u64
    }
}

impl GlobalPersistentAllocator {
    /// The slots in use that hold a pool of this name.
    pub open spec fn matches(self, name: Seq<u8>) -> Seq<bool> {
        Seq::new(
            self.metadata.total_pools as nat,
            |i: int|
                self.used()[i] && name_matches(name, self.pool_directory@[i].name@)
                    && self.pool_directory@[i].pool is Some,
        )
    }

    /// The slots that are neither in use nor initialised.
    pub open spec fn free_slots(self) -> Seq<bool> {
        Seq::new(
            self.metadata.total_pools as nat,
            |i: int| !self.used()[i] && !self.initialized()[i],
        )
    }

    /// The slots in use with this name.
    pub open spec fn named(self, name: Seq<u8>) -> Seq<bool> {
        Seq::new(
            self.metadata.total_pools as nat,
            |i: int| self.used()[i] && name_matches(name, self.pool_directory@[i].name@),
        )
    }

    /// A name that pools can have: 1 to 63 bytes.
    pub open spec fn is_name(name: Seq<u8>) -> bool {
        0 < name.len() < 64
    }

    /// The first slot that holds a pool of this name.
    fn find_pool(&self, name: &[u8]) -> (slot: Option<usize>)
        requires
            self.wf(),
        ensures
            crate::search::first_true(self.matches(name@)) == match slot {
                Some(slot) => Some(slot as int),
                None => None,
            },
            slot matches Some(slot) ==> slot < self.metadata.total_pools,
    {
        let ghost hits = self.matches(name@);
        let mut i: usize = 0;
        while i < self.metadata.total_pools as usize
            invariant
                i <= self.metadata.total_pools,
                self.wf(),
                hits == self.matches(name@),
                forall|j: int| 0 <= j < i ==> !#[trigger] hits[j],
            decreases self.metadata.total_pools - i,
        {
            if self.is_bit_set(i, true) && compare_name(name, &self.pool_directory[i].name)
                && self.pool_directory[i].pool.is_some() {
                proof { crate::search::lemma_first_true_is(hits, i as int); }
                return Some(i);
            }
            i = i + 1;
        }
        proof { crate::search::lemma_first_true_none(hits); }
        None
    }

    /// The first slot that is neither in use nor initialised.
    fn find_free_slot(&self) -> (slot: Option<usize>)
        requires
            self.wf(),
        ensures
            crate::search::first_true(self.free_slots()) == match slot {
                Some(slot) => Some(slot as int),
                None => None,
            },
            slot matches Some(slot) ==> slot < self.metadata.total_pools,
    {
        let ghost hits = self.free_slots();
        let mut i: usize = 0;
        while i < self.metadata.total_pools as usize
            invariant
                i <= self.metadata.total_pools,
                self.wf(),
                hits == self.free_slots(),
                forall|j: int| 0 <= j < i ==> !#[trigger] hits[j],
            decreases self.metadata.total_pools - i,
        {
            if !self.is_bit_set(i, true) && !self.is_bit_set(i, false) {
                proof { crate::search::lemma_first_true_is(hits, i as int); }
                return Some(i);
            }
            i = i + 1;
        }
        proof { crate::search::lemma_first_true_none(hits); }
        None
    }

    /// The first slot in use with this name.
    fn find_named(&self, name: &[u8]) -> (slot: Option<usize>)
        requires
            self.wf(),
        ensures
            crate::search::first_true(self.named(name@)) == match slot {
                Some(slot) => Some(slot as int),
                None => None,
            },
            slot matches Some(slot) ==> slot < self.metadata.total_pools,
    {
        let ghost hits = self.named(name@);
        let mut i: usize = 0;
        while i < self.metadata.total_pools as usize
            invariant
                i <= self.metadata.total_pools,
                self.wf(),
                hits == self.named(name@),
                forall|j: int| 0 <= j < i ==> !#[trigger] hits[j],
            decreases self.metadata.total_pools - i,
        {
            if self.is_bit_set(i, true) && compare_name(name, &self.pool_directory[i].name) {
                proof { crate::search::lemma_first_true_is(hits, i as int); }
                return Some(i);
            }
            i = i + 1;
        }
        proof { crate::search::lemma_first_true_none(hits); }
        None
    }

    /// The slot was filled with the pool that was found at its address, under the name.
    pub open spec fn created(
        self,
        before: Self,
        slot: int,
        name: Seq<u8>,
        image: PoolImage,
        heap: Heap,
    ) -> bool {
        let entry = self.pool_directory@[slot];
        &&& self.base_address == before.base_address
        &&& self.log_pool == before.log_pool
        &&& self.metadata == (GlobalMetadata {
            used_pools: (before.metadata.used_pools + 1) as u32,
            initialized_pools: before.metadata.initialized_pools.wrapping_add(1),
            total_allocations: before.metadata.total_allocations.wrapping_add(1),
            ..before.metadata
        })
        &&& self.used() == before.used().update(slot, true)
        &&& self.initialized() == before.initialized().update(slot, true)
        &&& self.pool_directory@ == before.pool_directory@.update(slot, entry)
        &&& entry.name@ == padded(name)
        &&& entry.pool matches Some(pool)
        &&& pool.wf()
        &&& pool.base_address == before.slot_address(slot)
        &&& pool.header == PoolHeader::fresh(FIXED_POOL_SIZE)
        &&& pool.object_table@ == image.object_table@
        &&& pool.memory@ == image.memory@
        &&& pool.heap == heap
    }

    /// What [`GlobalPersistentAllocator::get_or_create_pool`] does.
    pub open spec fn got<F: FnOnce(u64) -> (PoolImage, Heap)>(
        self,
        before: Self,
        name: Seq<u8>,
        open: F,
        result: Result<usize, AllocError>,
    ) -> bool {
        if !Self::is_name(name) {
            result == Err::<usize, _>(AllocError::NameTooLongOrShort) && self == before
        } else if name == crate::image::log_pool_id() {
            result == Err::<usize, _>(AllocError::NameNotAllowed) && self == before
        } else {
            match crate::search::first_true(before.matches(name)) {
                Some(slot) => result matches Ok(found) && found == slot && self == before,
                None => if before.metadata.used_pools >= before.metadata.total_pools {
                    result == Err::<usize, _>(AllocError::NoPoolsAvailable) && self == before
                } else {
                    match crate::search::first_true(before.free_slots()) {
                        Some(slot) => {
                            &&& result matches Ok(made)
                            &&& made == slot
                            &&& exists|found: (PoolImage, Heap)|
                                {
                                    &&& #[trigger] call_ensures(
                                        open,
                                        (before.slot_address(slot) as u64,),
                                        found,
                                    )
                                    &&& self.created(before, slot, name, found.0, found.1)
                                }
                        },
                        None => {
                            &&& result == Err::<usize, _>(AllocError::InconsistentState)
                            &&& self == (Self {
                                metadata: GlobalMetadata {
                                    initialization_failures:
                                        before.metadata.initialization_failures.wrapping_add(1),
                                    ..before.metadata
                                },
                                ..before
                            })
                        },
                    }
                },
            }
        }
    }

    /// A pool of this name is to be made at the address: there is none yet, and the first free
    /// slot is there.
    pub open spec fn opens_at(self, name: Seq<u8>, address: u64) -> bool {
        &&& Self::is_name(name)
        &&& name != crate::image::log_pool_id()
        &&& crate::search::first_true(self.matches(name)) is None
        &&& self.metadata.used_pools < self.metadata.total_pools
        &&& crate::search::first_true(self.free_slots()) matches Some(slot)
        &&& address == self.slot_address(slot)
    }

    /// Slot of the pool of this name; where there is none, one is made in the first free slot.
    /// `open` reads what the media holds at the address of a pool that is made, and gives it a
    /// heap in which nothing is allocated. It is not called otherwise.
    pub fn get_or_create_pool<F: FnOnce(u64) -> (PoolImage, Heap)>(&mut self, name: &[u8], open: F)
        -> (result: Result<usize, AllocError>)
        requires
            old(self).wf(),
            forall|address: u64|
                old(self).opens_at(name@, address) ==> #[trigger] call_requires(open, (address,)),
            forall|address: u64, found: (PoolImage, Heap)|
                old(self).opens_at(name@, address) && #[trigger] call_ensures(
                    open,
                    (address,),
                    found,
                ) ==> found.0.wf(FIXED_POOL_SIZE),
        ensures
            final(self).wf(),
            old(self).consistent() ==> final(self).consistent(),
            final(self).got(*old(self), name@, open, result),
            result matches Ok(slot) ==> slot < final(self).metadata.total_pools && final(self).pool_directory@[slot as int].pool is Some,
    {
        if name.len() >= POOL_NAME_SIZE || name.len() == 0 {
            return Err(AllocError::NameTooLongOrShort);
        }
        let reserved: [u8; 7] = log_pool_name();
        if crate::table::bytes_equal(name, reserved.as_slice()) {
            return Err(AllocError::NameNotAllowed);
        }
        if let Some(slot) = self.find_pool(name) {
            proof { crate::search::lemma_first_true(self.matches(name@)); }
            return Ok(slot);
        }
        if self.metadata.used_pools >= self.metadata.total_pools {
            return Err(AllocError::NoPoolsAvailable);
        }
        match self.find_free_slot() {
            Some(slot) => {
                let address: u64 = self.pool_address(slot);
                assert(self.opens_at(name@, address));
                let found: (PoolImage, Heap) = open(address);
                let ghost seen = found;
                proof {
                    self.lemma_slot_in_range(slot as int);
                    crate::search::lemma_first_true(self.free_slots());
                    crate::search::lemma_count_update(self.used(), slot as int, true);
                }
                let pool: Pool = Pool::new(address, FIXED_POOL_SIZE, found.0, found.1);
                let entry: PoolDirectoryEntry = PoolDirectoryEntry {
                    name: pad_name(name),
                    pool: Some(pool),
                };
                self.metadata.used_pools = self.metadata.used_pools + 1;
                self.metadata.initialized_pools = self.metadata.initialized_pools.wrapping_add(1);
                self.metadata.total_allocations = self.metadata.total_allocations.wrapping_add(1);
                self.set_bit(slot, false, true);
                self.set_bit(slot, true, true);
                self.pool_directory[slot] = entry;
                assert(self.pool_directory@ =~= old(self).pool_directory@.update(
                    slot as int,
                    entry,
                ));
                assert(self.created(*old(self), slot as int, name@, seen.0, seen.1));
                assert(call_ensures(open, (old(self).slot_address(slot as int) as u64,), seen));
                Ok(slot)
            },
            None => {
                self.metadata.initialization_failures =
                self.metadata.initialization_failures.wrapping_add(1);
                assert(self.used() =~= old(self).used());
                Err(AllocError::InconsistentState)
            },
        }
    }

    /// The pool of a slot ends within the address space.
    proof fn lemma_slot_in_range(self, slot: int)
        requires
            self.wf(),
            0 <= slot < self.metadata.total_pools,
        ensures
            self.slot_address(slot) + FIXED_POOL_SIZE <= usize::MAX,
            self.slot_address(slot) >= 0,
    {
        assert(slot * FIXED_POOL_SIZE + FIXED_POOL_SIZE <= self.metadata.total_pools
            * FIXED_POOL_SIZE) by (nonlinear_arith)
            requires
                slot + 1 <= self.metadata.total_pools,
        ;
        assert(slot * FIXED_POOL_SIZE >= 0) by (nonlinear_arith)
            requires
                slot >= 0,
        ;
    }
}

/// A pool that was released: its header is that of no pool, its slots are blank and its memory is
/// zero.
pub open spec fn wiped(pool: Pool, before: Pool) -> bool {
    &&& pool.base_address == before.base_address
    &&& pool.header == (PoolHeader { magic: 0, ..before.header })
    &&& pool@ == before@.emptied()
    &&& pool.heap == before.heap
}

impl GlobalPersistentAllocator {
    /// What [`GlobalPersistentAllocator::release_pool`] does to the slot that it finds.
    pub open spec fn released(self, before: Self, slot: int, pool: Option<Pool>) -> bool {
        let entry = self.pool_directory@[slot];
        &&& self.base_address == before.base_address
        &&& self.log_pool == before.log_pool
        &&& self.metadata == (GlobalMetadata {
            used_pools: before.metadata.used_pools.wrapping_sub(1),
            total_deallocations: before.metadata.total_deallocations.wrapping_add(1),
            ..before.metadata
        })
        &&& self.used() == before.used().update(slot, false)
        &&& self.initialized() == before.initialized().update(slot, false)
        &&& self.pool_directory@ == before.pool_directory@.update(slot, entry)
        &&& entry.name@ == padded(Seq::empty())
        &&& entry.pool is None
        &&& match before.pool_directory@[slot].pool {
            Some(old_pool) => pool matches Some(wiped_pool) && wiped(wiped_pool, old_pool),
            None => pool is None,
        }
    }

    /// What [`GlobalPersistentAllocator::release_pool`] does.
    pub open spec fn gave_up(
        self,
        before: Self,
        name: Seq<u8>,
        result: (bool, Option<Pool>),
    ) -> bool {
        if !Self::is_name(name) || name == crate::image::log_pool_id() {
            result.0 == false && result.1 is None && self == before
        } else {
            match crate::search::first_true(before.named(name)) {
                Some(slot) => result.0 && self.released(before, slot, result.1),
                None => result.0 == false && result.1 is None && self == before,
            }
        }
    }

    /// Gives up the pool of this name. Says whether there was one, and hands out the wiped pool
    /// that is to be written back.
    pub fn release_pool(&mut self, name: &[u8]) -> (result: (bool, Option<Pool>))
        requires
            old(self).wf(),
        ensures
            final(self).wf(),
            old(self).consistent() ==> final(self).consistent(),
            final(self).gave_up(*old(self), name@, result),
    {
        if name.len() >= POOL_NAME_SIZE || name.len() == 0 {
            return (false, None);
        }
        let reserved: [u8; 7] = log_pool_name();
        if crate::table::bytes_equal(name, reserved.as_slice()) {
            return (false, None);
        }
        let slot: usize = match self.find_named(name) {
            Some(slot) => slot,
            None => {
                return (false, None);
            },
        };
        proof {
            crate::search::lemma_first_true(self.named(name@));
            crate::search::lemma_count_positive(self.used(), slot as int);
            crate::search::lemma_count_update(self.used(), slot as int, false);
        }
        let mut entry: PoolDirectoryEntry = PoolDirectoryEntry { name: [0u8; 64], pool: None };
        assert(entry.name@ =~= padded(Seq::empty()));
        let ghost blank = entry;
        core::mem::swap(&mut self.pool_directory[slot], &mut entry);
        assert(self.pool_directory@ =~= old(self).pool_directory@.update(slot as int, blank));
        let wiped_pool: Option<Pool> = match entry.pool {
            Some(mut pool) => {
                pool.empty_pool();
                pool.header.magic = 0;
                Some(pool)
            },
            None => None,
        };
        self.set_bit(slot, true, false);
        self.set_bit(slot, false, false);
        self.metadata.used_pools = self.metadata.used_pools.wrapping_sub(1);
        self.metadata.total_deallocations = self.metadata.total_deallocations.wrapping_add(1);
        (true, wiped_pool)
    }

    /// What [`GlobalPersistentAllocator::create_log_pool`] does to the slot that it finds.
    pub open spec fn log_created(self, before: Self, slot: int, log_pool: Pool) -> bool {
        let entry = self.pool_directory@[slot];
        &&& self.base_address == before.base_address
        &&& self.log_pool == Some(log_pool)
        &&& self.metadata == (GlobalMetadata {
            log_pool_offset: (log_pool.base_address - before.base_address) as u64,
            used_pools: before.metadata.used_pools.wrapping_add(1),
            initialized_pools: before.metadata.initialized_pools.wrapping_add(1),
            ..before.metadata
        })
        &&& self.used() == before.used().update(slot, true)
        &&& self.initialized() == before.initialized().update(slot, true)
        &&& self.pool_directory@ == before.pool_directory@.update(slot, entry)
        &&& entry.name@ == padded(crate::image::log_pool_id())
        &&& entry.pool is None
    }

    /// Makes the pool that was opened at the first free slot the log pool. Fails where there is
    /// no free slot.
    fn create_log_pool(&mut self, log_pool: Pool) -> (result: Result<(), AllocError>)
        requires
            old(self).wf(),
            log_pool.wf(),
            crate::search::first_true(old(self).free_slots()) matches Some(slot)
                ==> log_pool.base_address == old(self).slot_address(slot),
        ensures
            final(self).wf(),
            match crate::search::first_true(old(self).free_slots()) {
                Some(slot) => result is Ok && final(self).log_created(*old(self), slot, log_pool),
                None => result == Err::<(), _>(AllocError::NoPoolsAvailable) && *final(self) == *old(self),
            },
    {
        match self.find_free_slot() {
            Some(slot) => {
                proof { self.lemma_slot_in_range(slot as int); }
                let name: [u8; 7] = log_pool_name();
                let entry: PoolDirectoryEntry = PoolDirectoryEntry {
                    name: pad_name(name.as_slice()),
                    pool: None,
                };
                assert(log_pool.base_address >= self.base_address) by (nonlinear_arith)
                    requires
                        log_pool.base_address == self.slot_address(slot as int),
                ;
                self.metadata.log_pool_offset = log_pool.base_address - self.base_address;
                self.log_pool = Some(log_pool);
                self.set_bit(slot, true, true);
                self.set_bit(slot, false, true);
                self.pool_directory[slot] = entry;
                self.metadata.used_pools = self.metadata.used_pools.wrapping_add(1);
                self.metadata.initialized_pools = self.metadata.initialized_pools.wrapping_add(1);
                assert(self.pool_directory@ =~= old(self).pool_directory@.update(
                    slot as int,
                    entry,
                ));
                Ok(())
            },
            None => Err(AllocError::NoPoolsAvailable),
        }
    }

    /// Metadata of an NVDIMM without pools.
    pub open spec fn blank_metadata(nvdimm_size: usize, layout: MediaLayout) -> GlobalMetadata {
        GlobalMetadata {
            magic_number: ALLOCATOR_MAGIC,
            nvdimm_size,
            pool_size: FIXED_POOL_SIZE,
            total_pools: layout.max_pools as u32,
            used_pools: 0,
            initialized_pools: 0,
            bitmap_offset: layout.bitmap_offset as u64,
            pool_directory_offset: layout.directory_offset as u64,
            bitmap_words: layout.bitmap_words,
            log_pool_offset: 0,
            initialization_failures: 0,
            total_allocations: 0,
            total_deallocations: 0,
        }
    }

    /// Writes the metadata and the bitmaps of an NVDIMM without pools.
    fn initialize(&mut self, nvdimm_size: usize, layout: MediaLayout)
        requires
            nvdimm_size >= METADATA_SIZE,
            layout == MediaLayout::of(nvdimm_size),
            layout.bitmap_words == (layout.max_pools + 63) / 64,
            layout.max_pools <= u32::MAX,
            layout.bitmap_words * 2 <= usize::MAX,
        ensures
            final(self).base_address == old(self).base_address,
            final(self).pool_directory == old(self).pool_directory,
            final(self).log_pool == old(self).log_pool,
            final(self).metadata == Self::blank_metadata(nvdimm_size, layout),
            final(self).bitmap_wf(),
            final(self).used() == Seq::new(layout.max_pools as nat, |i: int| false),
            final(self).initialized() == Seq::new(layout.max_pools as nat, |i: int| false),
    {
        self.metadata =
        GlobalMetadata {
            magic_number: ALLOCATOR_MAGIC,
            nvdimm_size,
            pool_size: FIXED_POOL_SIZE,
            total_pools: layout.max_pools as u32,
            used_pools: 0,
            initialized_pools: 0,
            bitmap_offset: layout.bitmap_offset as u64,
            pool_directory_offset: layout.directory_offset as u64,
            bitmap_words: layout.bitmap_words,
            log_pool_offset: 0,
            initialization_failures: 0,
            total_allocations: 0,
            total_deallocations: 0,
        };
        let mut bitmap: Vec<u64> = Vec::new();
        let mut i: usize = 0;
        while i < layout.bitmap_words * 2
            invariant
                i <= layout.bitmap_words * 2 <= usize::MAX,
                bitmap@ == Seq::new(i as nat, |k: int| 0u64),
            decreases layout.bitmap_words * 2 - i,
        {
            bitmap.push(0);
            i = i + 1;
            assert(bitmap@ =~= Seq::new(i as nat, |k: int| 0u64));
        }
        self.bitmap = bitmap;
        proof {
            assert forall|i: int| 0 <= i < layout.max_pools implies !#[trigger] self.used()[i]
                && !self.initialized()[i] by {
                let b = (i % 64) as u64;
                assert(0u64 & (1u64 << b) == 0) by (bit_vector);
            }
            assert(self.used() =~= Seq::new(layout.max_pools as nat, |i: int| false));
            assert(self.initialized() =~= Seq::new(layout.max_pools as nat, |i: int| false));
        }
    }
}

impl Media {
    /// The bitmaps of an NVDIMM whose metadata counts have a bit for each pool.
    pub open spec fn bitmap_wf(self) -> bool {
        self.metadata.magic_number == ALLOCATOR_MAGIC ==> {
            &&& self.bitmap@.len() == 2 * self.metadata.bitmap_words
            &&& self.metadata.total_pools <= 64 * self.metadata.bitmap_words
        }
    }

    /// The NVDIMM is taken as it is found: its metadata is valid, and as many pools are in use as
    /// it says.
    pub open spec fn resumes(self) -> bool {
        &&& metadata_ok(self.metadata)
        &&& crate::search::count_true(
            bits(
                self.bitmap@,
                self.metadata.bitmap_words as int,
                self.metadata.total_pools as int,
            ),
        ) == self.metadata.used_pools
    }

    /// The metadata is that of an NVDIMM of `nvdimm_size` bytes with a log pool.
    pub open spec fn belongs_to(self, nvdimm_size: usize, layout: MediaLayout) -> bool {
        &&& self.metadata.log_pool_offset != 0
        &&& self.metadata.nvdimm_size == nvdimm_size
        &&& self.metadata.total_pools == layout.max_pools
        &&& self.metadata.bitmap_words == layout.bitmap_words
        &&& self.metadata.pool_directory_offset == layout.directory_offset
    }

    /// Whether the NVDIMM is taken as it is found.
    pub fn is_resumable(&self) -> (resumable: bool)
        requires
            self.bitmap_wf(),
        ensures
            resumable == self.resumes(),
    {
        is_metadata_ok(&self.metadata) && count_bits(
            &self.bitmap,
            self.metadata.bitmap_words,
            self.metadata.total_pools,
        ) == self.metadata.used_pools
    }

    /// Address of the log pool: where the metadata says, or else in the first slot.
    pub open spec fn log_address(self, base_address: u64, layout: MediaLayout) -> int {
        if self.resumes() {
            base_address + self.metadata.log_pool_offset
        } else {
            base_address + layout.pools_offset()
        }
    }

    /// Address of the log pool: where the metadata says, or else in the first slot.
    pub fn log_pool_address(&self, base_address: u64, nvdimm_size: usize) -> (address: u64)
        requires
            nvdimm_size >= METADATA_SIZE,
            self.bitmap_wf(),
            MediaLayout::of(nvdimm_size).fits_at(base_address),
            self.log_address(base_address, MediaLayout::of(nvdimm_size)) <= u64::MAX,
        ensures
            address == self.log_address(base_address, MediaLayout::of(nvdimm_size)),
    {
        let layout: MediaLayout = media_layout(nvdimm_size);
        if self.is_resumable() {
            base_address + self.metadata.log_pool_offset
        } else {
            base_address + layout.directory_offset as u64 + (layout.max_pools
                * DIRECTORY_ENTRY_SIZE) as u64
        }
    }
}

impl GlobalPersistentAllocator {
    /// What is found on the NVDIMM can be taken over: every pool is at its place, and where the
    /// NVDIMM is taken as it is found, its log can be undone.
    pub open spec fn acceptable(
        base_address: u64,
        nvdimm_size: usize,
        layout: MediaLayout,
        media: Media,
        log_pool: Pool,
    ) -> bool {
        &&& layout.fits_at(base_address)
        &&& media.bitmap_wf()
        &&& media.pool_directory@.len() == layout.max_pools
        &&& log_pool.wf()
        &&& log_pool.base_address == media.log_address(base_address, layout)
        &&& if media.resumes() {
            &&& media.belongs_to(nvdimm_size, layout)
            &&& log_pool@.readable()
        } else {
            layout.max_pools > 0
        }
        &&& forall|i: int| #![trigger media.pool_directory@[i]]
            0 <= i < layout.max_pools ==> match media.pool_directory@[i].pool {
                Some(pool) => {
                    &&& pool.wf()
                    &&& pool.base_address == base_address + layout.pools_offset() + i
                        * FIXED_POOL_SIZE
                    &&& pool.header.size == FIXED_POOL_SIZE
                    &&& media.resumes() ==> pool@.takes_from(log_pool@)
                },
                None => true,
            }
    }

    /// The directory after the log was undone in every pool.
    pub open spec fn rolled_back_directory(
        after: Seq<PoolDirectoryEntry>,
        before: Seq<PoolDirectoryEntry>,
        log: PoolView,
    ) -> bool {
        &&& after.len() == before.len()
        &&& forall|i: int| #![trigger after[i]]
            0 <= i < before.len() ==> after[i].name == before[i].name && match before[i].pool {
                Some(pool) => {
                    &&& after[i].pool is Some
                    &&& after[i].pool->Some_0@ == pool@.rolled_back(log.records())
                    &&& after[i].pool->Some_0.same_frame(pool)
                    &&& after[i].pool->Some_0.heap == pool.heap
                    &&& after[i].pool->Some_0.wf()
                },
                None => after[i].pool is None,
            }
    }

    /// What [`GlobalPersistentAllocator::new`] makes of what it finds.
    pub open spec fn opened(
        self,
        base_address: u64,
        nvdimm_size: usize,
        media: Media,
        log_pool: Pool,
    ) -> bool {
        let layout = MediaLayout::of(nvdimm_size);
        &&& self.base_address == base_address
        &&& self.log_pool is Some
        &&& if media.resumes() {
            &&& self.metadata == media.metadata
            &&& self.bitmap == media.bitmap
            &&& Self::rolled_back_directory(
                self.pool_directory@,
                media.pool_directory@,
                log_pool@,
            )
            &&& self.log_pool->Some_0@ == log_pool@.emptied()
            &&& self.log_pool->Some_0.same_frame(log_pool)
            &&& self.log_pool->Some_0.heap == log_pool.heap
        } else {
            &&& self.log_pool == Some(log_pool)
            &&& self.metadata == (GlobalMetadata {
                used_pools: 1,
                initialized_pools: 1,
                log_pool_offset: layout.pools_offset() as u64,
                ..Self::blank_metadata(nvdimm_size, layout)
            })
            &&& self.used() == Seq::new(layout.max_pools as nat, |i: int| i == 0)
            &&& self.initialized() == self.used()
            &&& self.pool_directory@.len() == media.pool_directory@.len()
            &&& self.pool_directory@[0].name@ == padded(crate::image::log_pool_id())
            &&& self.pool_directory@[0].pool is None
            &&& forall|i: int| #![trigger self.pool_directory@[i]]
                0 < i < media.pool_directory@.len() ==> self.pool_directory@[i]
                    == media.pool_directory@[i]
        }
    }

    /// Opens the NVDIMM at the address. Where its metadata and bitmaps are in order, what the log
    /// holds is undone in every pool and the log is emptied; otherwise the NVDIMM is initialised
    /// anew, with the log pool in the first slot. `log_pool` is the pool that was opened at
    /// [`Media::log_pool_address`].
    pub fn new(base_address: u64, nvdimm_size: usize, media: Media, log_pool: Pool) -> (allocator:
        Self)
        requires
            nvdimm_size >= METADATA_SIZE,
            Self::acceptable(
                base_address,
                nvdimm_size,
                MediaLayout::of(nvdimm_size),
                media,
                log_pool,
            ),
        ensures
            allocator.wf(),
            allocator.consistent(),
            allocator.opened(base_address, nvdimm_size, media, log_pool),
    {
        let layout: MediaLayout = media_layout(nvdimm_size);
        let resumable: bool = media.is_resumable();
        let mut allocator: Self = GlobalPersistentAllocator {
            base_address,
            metadata: media.metadata,
            bitmap: media.bitmap,
            pool_directory: media.pool_directory,
            log_pool: None,
        };
        if resumable {
            let mut log: Pool = log_pool;
            roll_back_directory(&mut allocator.pool_directory, &log);
            log.empty_pool();
            allocator.log_pool = Some(log);
        } else {
            allocator.initialize(nvdimm_size, layout);
            proof {
                crate::search::lemma_first_true_is(allocator.free_slots(), 0);
                crate::search::lemma_first_true_none(allocator.used());
                crate::search::lemma_count_update(allocator.used(), 0, true);
            }
            let created: Result<(), AllocError> = allocator.create_log_pool(log_pool);
            assert(created is Ok);
            assert(allocator.used() =~= Seq::new(layout.max_pools as nat, |i: int| i == 0));
        }
        allocator
    }
}

/// Undoes the operations that the log holds of each pool of the directory.
pub(crate) fn roll_back_directory(directory: &mut Vec<PoolDirectoryEntry>, log: &Pool)
    requires
        log.wf(),
        log@.readable(),
        forall|i: int| #![trigger old(directory)@[i]]
            0 <= i < old(directory)@.len() ==> match old(directory)@[i].pool {
                Some(pool) => pool.wf() && pool@.takes_from(log@),
                None => true,
            },
    ensures
        GlobalPersistentAllocator::rolled_back_directory(
            final(directory)@,
            old(directory)@,
            log@,
        ),
{
    let mut i: usize = 0;
    while i < directory.len()
        invariant
            i <= directory@.len() == old(directory)@.len(),
            log.wf(),
            log@.readable(),
            forall|k: int| #![trigger old(directory)@[k]]
                0 <= k < old(directory)@.len() ==> match old(directory)@[k].pool {
                    Some(pool) => pool.wf() && pool@.takes_from(log@),
                    None => true,
                },
            forall|k: int| #![trigger directory@[k]]
                i <= k < directory@.len() ==> directory@[k] == old(directory)@[k],
            forall|k: int| #![trigger directory@[k]]
                0 <= k < i ==> directory@[k].name == old(directory)@[k].name && match old(
                    directory,
                )@[k].pool {
                    Some(pool) => {
                        &&& directory@[k].pool is Some
                        &&& directory@[k].pool->Some_0@ == pool@.rolled_back(log@.records())
                        &&& directory@[k].pool->Some_0.same_frame(pool)
                        &&& directory@[k].pool->Some_0.heap == pool.heap
                        &&& directory@[k].pool->Some_0.wf()
                    },
                    None => directory@[k].pool is None,
                },
        decreases directory.len() - i,
    {
        assert(directory@[i as int] == old(directory)@[i as int]);
        match &mut directory[i].pool {
            Some(pool) => {
                pool.perform_rollback(log);
            },
            None => {},
        }
        i = i + 1;
    }
}

/// A pool that was made is found again under its name.
pub proof fn law_created_pool_is_found(
    before: GlobalPersistentAllocator,
    after: GlobalPersistentAllocator,
    slot: int,
    name: Seq<u8>,
    image: PoolImage,
    heap: Heap,
)
    requires
        before.wf(),
        GlobalPersistentAllocator::is_name(name),
        crate::search::first_true(before.matches(name)) is None,
        crate::search::first_true(before.free_slots()) == Some(slot),
        after.created(before, slot, name, image, heap),
    ensures
        crate::search::first_true(after.matches(name)) == Some(slot),
{
    crate::search::lemma_first_true(before.matches(name));
    crate::search::lemma_first_true(before.free_slots());
    assert(padded(name).take(name.len() as int) =~= name);
    assert forall|j: int| 0 <= j < slot implies !#[trigger] after.matches(name)[j] by {
        assert(!before.matches(name)[j]);
        assert(after.pool_directory@[j] == before.pool_directory@[j]);
    }
    assert(after.matches(name)[slot]);
    crate::search::lemma_first_true_is(after.matches(name), slot);
}

/// A pool that was released is in use no more, its slot is free, and the other slots stay.
pub proof fn law_released_slot_is_free(
    before: GlobalPersistentAllocator,
    after: GlobalPersistentAllocator,
    name: Seq<u8>,
    slot: int,
    pool: Option<Pool>,
)
    requires
        before.wf(),
        crate::search::first_true(before.named(name)) == Some(slot),
        after.released(before, slot, pool),
    ensures
        !after.matches(name)[slot],
        after.free_slots()[slot],
        forall|i: int| #![trigger after.pool_directory@[i]]
            0 <= i < before.metadata.total_pools && i != slot ==> {
                &&& after.used()[i] == before.used()[i]
                &&& after.initialized()[i] == before.initialized()[i]
                &&& after.pool_directory@[i] == before.pool_directory@[i]
            },
{
    crate::search::lemma_first_true(before.named(name));
}

/// A pool that was released holds nothing: its header is that of no pool, every slot is blank, and
/// its memory is zero.
pub proof fn law_released_pool_holds_nothing(pool: Pool, before: Pool, slot: int, x: int)
    requires
        before.wf(),
        wiped(pool, before),
        0 <= slot < pool@.table.len(),
        0 <= x < pool@.memory.len(),
    ensures
        pool.header.magic != crate::pool::POOL_MAGIC,
        pool@.table[slot] == crate::table::EntryView::blank(),
        pool@.memory[x] == 0,
{
}

/// Names without a zero byte tell pools apart: no directory entry answers to two of them.
pub proof fn law_names_tell_pools_apart(a: Seq<u8>, b: Seq<u8>, entry: Seq<u8>)
    requires
        entry.len() == 64,
        name_matches(a, entry),
        name_matches(b, entry),
        forall|i: int| 0 <= i < a.len() ==> a[i] != 0,
        forall|i: int| 0 <= i < b.len() ==> b[i] != 0,
    ensures
        a == b,
{
    if a.len() < b.len() {
        assert(b[a.len() as int] == entry.take(b.len() as int)[a.len() as int]);
    } else if b.len() < a.len() {
        assert(a[b.len() as int] == entry.take(a.len() as int)[b.len() as int]);
    }
}

/// The pools lie on the NVDIMM.
pub proof fn law_pools_lie_on_the_nvdimm(nvdimm_size: usize)
    requires
        nvdimm_size >= METADATA_SIZE,
    ensures
        MediaLayout::of(nvdimm_size).pools_offset() + MediaLayout::of(nvdimm_size).max_pools
            * FIXED_POOL_SIZE <= nvdimm_size,
{
    crate::layout::law_estimated_pools_fit(nvdimm_size as int);
}

/// Pools do not overlap, and lie behind the directory.
pub proof fn law_pools_are_apart(allocator: GlobalPersistentAllocator, i: int, j: int)
    requires
        allocator.wf(),
        0 <= i < j < allocator.metadata.total_pools,
    ensures
        allocator.slot_address(i) + FIXED_POOL_SIZE <= allocator.slot_address(j),
        allocator.base_address + allocator.metadata.pool_directory_offset
            + allocator.metadata.total_pools * DIRECTORY_ENTRY_SIZE <= allocator.slot_address(i),
{
    assert(i * FIXED_POOL_SIZE + FIXED_POOL_SIZE <= j * FIXED_POOL_SIZE) by (nonlinear_arith)
        requires
            i + 1 <= j,
    ;
    assert(i * FIXED_POOL_SIZE >= 0) by (nonlinear_arith)
        requires
            i >= 0,
    ;
}

/// As long as every slot is initialised exactly when it is in use, and the metadata counts the
/// slots in use, a pool can be made whenever the count says so.
pub proof fn law_free_slot_is_found(allocator: GlobalPersistentAllocator)
    requires
        allocator.wf(),
        allocator.consistent(),
        allocator.used() == allocator.initialized(),
        allocator.metadata.used_pools < allocator.metadata.total_pools,
    ensures
        crate::search::first_true(allocator.free_slots()) is Some,
{
    let used = allocator.used();
    crate::search::lemma_count_bound(used);
    let i = choose|i: int| 0 <= i < used.len() && !#[trigger] used[i];
    assert(allocator.free_slots()[i]);
    crate::search::lemma_first_true(allocator.free_slots());
}

/// Making and releasing pools keeps every slot initialised exactly when it is in use.
pub proof fn law_bitmaps_agree(
    before: GlobalPersistentAllocator,
    after: GlobalPersistentAllocator,
    slot: int,
    name: Seq<u8>,
    image: PoolImage,
    heap: Heap,
    pool: Option<Pool>,
)
    requires
        before.used() == before.initialized(),
        after.created(before, slot, name, image, heap) || after.released(before, slot, pool),
    ensures
        after.used() == after.initialized(),
{
}

/// A pool name is kept whole in its directory entry, with zeros behind it, and the entry answers
/// to it.
pub proof fn law_pool_name_is_kept(name: Seq<u8>, i: int)
    requires
        name.len() < 64,
        0 <= i < 64,
    ensures
        padded(name).len() == 64,
        i < name.len() ==> padded(name)[i] == name[i],
        i >= name.len() ==> padded(name)[i] == 0,
        name_matches(name, padded(name)),
{
    assert(padded(name).take(name.len() as int) =~= name);
}

/// The bits of a word are its binary digits, the lowest one first.
pub proof fn law_bits_are_binary_digits(word: u64, index: int)
    requires
        0 <= index < 64,
    ensures
        bit(word, index) == (word as int / vstd::arithmetic::power2::pow2(index as nat) as int % 2
            == 1),
{
    let b = index as u64;
    vstd::bits::lemma_u64_shr_is_div(word, b);
    assert((word & (1u64 << b) != 0) == ((word >> b) % 2 == 1)) by (bit_vector)
        requires
            b < 64,
    ;
}

/// Bits are counted from the given word on, 64 to a word.
pub proof fn law_bits_run_through_the_words(words: Seq<u64>, from: int, count: int, i: int)
    requires
        0 <= i < count,
    ensures
        bits(words, from, count).len() == count,
        bits(words, from, count)[i] == bit(words[from + i / 64], i % 64),
{
}

} // verus!
