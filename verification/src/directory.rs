//! What holds of the pools of an NVDIMM while others come and go, and when it is opened again.

use crate::allocator::{AllocError, GlobalMetadata, GlobalPersistentAllocator, Media, MediaLayout};
use crate::layout::{FIXED_POOL_SIZE, METADATA_SIZE};
use crate::pool::{Pool, PoolImage};
use linked_list_allocator::Heap;
use vstd::prelude::*;

verus! {

impl GlobalPersistentAllocator {
    /// The pool of this name is found in the slot.
    pub open spec fn finds(self, name: Seq<u8>, slot: int) -> bool {
        crate::search::first_true(self.matches(name)) == Some(slot)
    }
}

/// The name can be that of a pool, and has no zero byte.
pub open spec fn is_plain(name: Seq<u8>) -> bool {
    &&& GlobalPersistentAllocator::is_name(name)
    &&& forall|i: int| 0 <= i < name.len() ==> name[i] != 0
}

/// A pool that is found is handed out, and finding it changes nothing.
pub proof fn law_finding_changes_nothing<F: FnOnce(u64) -> (PoolImage, Heap)>(
    before: GlobalPersistentAllocator,
    after: GlobalPersistentAllocator,
    name: Seq<u8>,
    slot: int,
    open: F,
    result: Result<usize, AllocError>,
)
    requires
        before.finds(name, slot),
        GlobalPersistentAllocator::is_name(name),
        name != crate::image::log_pool_id(),
        after.got(before, name, open, result),
    ensures
        after == before,
        result matches Ok(found) && found == slot,
{
}

/// What happens to an allocator.
pub enum Step {
    /// A pool is made in the slot under the name.
    Make { name: Seq<u8>, slot: int, image: PoolImage, heap: Heap },
    /// The pool of the name, which is in the slot, is given up.
    Release { name: Seq<u8>, slot: int, pool: Option<Pool> },
    /// A transaction runs on the pool in the slot.
    Work { slot: int },
    /// No pool is made, for want of a free slot.
    Fail,
}

impl Step {
    /// The step led from one state of the allocator to the other.
    pub open spec fn led(
        self,
        before: GlobalPersistentAllocator,
        after: GlobalPersistentAllocator,
    ) -> bool {
        match self {
            Step::Make { name, slot, image, heap } => {
                &&& crate::search::first_true(before.free_slots()) == Some(slot)
                &&& after.created(before, slot, name, image, heap)
            },
            Step::Release { name, slot, pool } => {
                &&& crate::search::first_true(before.named(name)) == Some(slot)
                &&& after.released(before, slot, pool)
            },
            Step::Work { slot } => {
                &&& 0 <= slot < before.pool_directory@.len()
                &&& before.pool_directory@[slot].pool is Some
                &&& after.pool_directory@[slot].pool is Some
                &&& after.kept_beside(before, slot)
            },
            Step::Fail => {
                &&& after.base_address == before.base_address
                &&& after.bitmap == before.bitmap
                &&& after.pool_directory == before.pool_directory
                &&& after.log_pool == before.log_pool
                &&& after.metadata == (GlobalMetadata {
                    initialization_failures: after.metadata.initialization_failures,
                    ..before.metadata
                })
            },
        }
    }

    /// The step makes or gives up no pool of this name, and none whose name has a zero byte.
    pub open spec fn spares(self, name: Seq<u8>) -> bool {
        match self {
            Step::Make { name: other, .. } => is_plain(other) && other != name,
            Step::Release { name: other, .. } => is_plain(other) && other != name,
            Step::Work { .. } => true,
            Step::Fail => true,
        }
    }
}

/// A pool stays found in its slot, and so at its address, when another is made or given up, and
/// when a transaction runs.
pub proof fn law_step_keeps_pool(
    before: GlobalPersistentAllocator,
    after: GlobalPersistentAllocator,
    step: Step,
    name: Seq<u8>,
    slot: int,
)
    requires
        before.wf(),
        step.led(before, after),
        step.spares(name),
        is_plain(name),
        before.finds(name, slot),
    ensures
        after.finds(name, slot),
        after.slot_address(slot) == before.slot_address(slot),
{
    crate::search::lemma_first_true(before.matches(name));
    assert(before.matches(name)[slot]);
    assert forall|j: int| 0 <= j <= slot implies #[trigger] after.matches(name)[j]
        == before.matches(name)[j] by {
        match step {
            Step::Make { name: other, slot: changed, .. } => {
                crate::search::lemma_first_true(before.free_slots());
                assert(before.free_slots()[changed]);
                if j == changed {
                    let entry = after.pool_directory@[j].name@;
                    assert(entry.take(other.len() as int) =~= other);
                    if crate::allocator::name_matches(name, entry) {
                        crate::allocator::law_names_tell_pools_apart(name, other, entry);
                    }
                } else {
                    assert(after.pool_directory@[j] == before.pool_directory@[j]);
                }
            },
            Step::Release { name: other, slot: changed, .. } => {
                crate::search::lemma_first_true(before.named(other));
                assert(before.named(other)[changed]);
                if j == changed {
                    let entry = before.pool_directory@[j].name@;
                    if crate::allocator::name_matches(name, entry) {
                        crate::allocator::law_names_tell_pools_apart(name, other, entry);
                    }
                } else {
                    assert(after.pool_directory@[j] == before.pool_directory@[j]);
                }
            },
            Step::Work { slot: changed } => {
                assert(after.pool_directory@[j].name == before.pool_directory@[j].name);
            },
            Step::Fail => {},
        }
    }
    crate::search::lemma_first_true_is(after.matches(name), slot);
}

/// A pool stays found at its address while any number of others are made and given up and
/// transactions run.
pub proof fn law_pool_stays_found(
    states: Seq<GlobalPersistentAllocator>,
    steps: Seq<Step>,
    name: Seq<u8>,
    slot: int,
)
    requires
        states.len() == steps.len() + 1,
        forall|i: int| 0 <= i < states.len() ==> (#[trigger] states[i]).wf(),
        forall|i: int| #![trigger steps[i]]
            0 <= i < steps.len() ==> steps[i].led(states[i], states[i + 1]) && steps[i].spares(
                name,
            ),
        is_plain(name),
        states[0].finds(name, slot),
    ensures
        states.last().finds(name, slot),
        states.last().slot_address(slot) == states[0].slot_address(slot),
    decreases steps.len(),
{
    if steps.len() > 0 {
        let n = steps.len() - 1;
        let fewer = states.drop_last();
        assert forall|i: int| 0 <= i < fewer.len() implies (#[trigger] fewer[i]).wf() by {
            assert(fewer[i] == states[i]);
        }
        assert forall|i: int| #![trigger steps.drop_last()[i]] 0 <= i < n implies {
            &&& steps.drop_last()[i].led(fewer[i], fewer[i + 1])
            &&& steps.drop_last()[i].spares(name)
        } by {
            assert(steps.drop_last()[i] == steps[i]);
        }
        law_pool_stays_found(fewer, steps.drop_last(), name, slot);
        assert(states[n].wf());
        assert(steps[n].led(states[n], states[n + 1]));
        law_step_keeps_pool(states[n], states[n + 1], steps[n], name, slot);
    }
}

impl GlobalPersistentAllocator {
    /// Metadata, layout and log pool are those of an NVDIMM of `nvdimm_size` bytes.
    pub open spec fn belongs_to(self, nvdimm_size: usize) -> bool {
        let layout = MediaLayout::of(nvdimm_size);
        &&& crate::allocator::metadata_ok(self.metadata)
        &&& self.metadata.log_pool_offset != 0
        &&& self.metadata.nvdimm_size == nvdimm_size
        &&& self.metadata.total_pools == layout.max_pools
        &&& self.metadata.bitmap_words == layout.bitmap_words
        &&& self.metadata.pool_directory_offset == layout.directory_offset
    }
}

/// An allocator that was opened on an NVDIMM belongs to it.
pub proof fn law_opened_allocator_belongs(
    allocator: GlobalPersistentAllocator,
    base_address: u64,
    nvdimm_size: usize,
    media: Media,
    log_pool: Pool,
)
    requires
        nvdimm_size >= METADATA_SIZE,
        GlobalPersistentAllocator::acceptable(
            base_address,
            nvdimm_size,
            MediaLayout::of(nvdimm_size),
            media,
            log_pool,
        ),
        allocator.opened(base_address, nvdimm_size, media, log_pool),
    ensures
        allocator.belongs_to(nvdimm_size),
{
}

/// It belongs to the NVDIMM as long as pools are made and given up and transactions run.
pub proof fn law_step_keeps_belonging(
    before: GlobalPersistentAllocator,
    after: GlobalPersistentAllocator,
    step: Step,
    nvdimm_size: usize,
)
    requires
        step.led(before, after),
        before.belongs_to(nvdimm_size),
    ensures
        after.belongs_to(nvdimm_size),
{
}

impl Media {
    /// The NVDIMM holds what the allocator has in memory.
    pub open spec fn holds(self, allocator: GlobalPersistentAllocator) -> bool {
        &&& self.metadata == allocator.metadata
        &&& self.bitmap@ == allocator.bitmap@
        &&& self.pool_directory@.len() == allocator.pool_directory@.len()
        &&& forall|i: int| #![trigger self.pool_directory@[i]]
            0 <= i < self.pool_directory@.len() ==> {
                let written = self.pool_directory@[i];
                &&& written.name@ == allocator.pool_directory@[i].name@
                &&& match allocator.pool_directory@[i].pool {
                    Some(pool) => {
                        &&& written.pool matches Some(found)
                        &&& found.wf()
                        &&& found@ == pool@
                        &&& found.same_frame(pool)
                    },
                    None => written.pool is None,
                }
            }
    }
}

/// The allocator shows the same pools as the other: the same metadata, bitmaps and names, the same
/// pools under the same names and at the same addresses, with the same objects.
pub open spec fn shows_pools(
    allocator: GlobalPersistentAllocator,
    other: GlobalPersistentAllocator,
) -> bool {
    &&& allocator.base_address == other.base_address
    &&& allocator.metadata == other.metadata
    &&& allocator.bitmap@ == other.bitmap@
    &&& allocator.pool_directory@.len() == other.pool_directory@.len()
    &&& forall|i: int| #![trigger allocator.pool_directory@[i]]
        0 <= i < allocator.pool_directory@.len() ==> {
            let entry = allocator.pool_directory@[i];
            &&& entry.name@ == other.pool_directory@[i].name@
            &&& match other.pool_directory@[i].pool {
                Some(pool) => entry.pool matches Some(found) && found@ == pool@
                    && found.same_frame(pool),
                None => entry.pool is None,
            }
        }
    &&& forall|name: Seq<u8>| #[trigger] allocator.matches(name) == other.matches(name)
    &&& forall|slot: int| #[trigger] allocator.slot_address(slot) == other.slot_address(slot)
}

/// An NVDIMM that was written out can be opened again, where the log holds no operation: it is
/// taken as it is found.
pub proof fn law_written_nvdimm_can_be_opened(
    allocator: GlobalPersistentAllocator,
    nvdimm_size: usize,
    media: Media,
    log_pool: Pool,
)
    requires
        nvdimm_size >= METADATA_SIZE,
        allocator.wf(),
        allocator.consistent(),
        allocator.belongs_to(nvdimm_size),
        media.holds(allocator),
        log_pool.wf(),
        log_pool.base_address == allocator.base_address + allocator.metadata.log_pool_offset,
        !log_pool@.has_logs(),
    ensures
        media.resumes(),
        GlobalPersistentAllocator::acceptable(
            allocator.base_address,
            nvdimm_size,
            MediaLayout::of(nvdimm_size),
            media,
            log_pool,
        ),
{
    let layout = MediaLayout::of(nvdimm_size);
    crate::journal::lemma_no_record(log_pool@);
    assert forall|i: int| #![trigger media.pool_directory@[i]]
        0 <= i < layout.max_pools implies match media.pool_directory@[i].pool {
        Some(pool) => {
            &&& pool.wf()
            &&& pool.base_address == allocator.base_address + layout.pools_offset() + i
                * FIXED_POOL_SIZE
            &&& pool.header.size == FIXED_POOL_SIZE
            &&& pool@.takes_from(log_pool@)
        },
        None => true,
    } by {
        assert(media.pool_directory@[i].name@ == allocator.pool_directory@[i].name@);
    }
}

/// An NVDIMM that was written out and is opened again shows the same pools, found under the same
/// names at the same addresses and with the same objects, and its log is empty.
pub proof fn law_reopened_nvdimm_shows_the_same(
    allocator: GlobalPersistentAllocator,
    nvdimm_size: usize,
    media: Media,
    log_pool: Pool,
    reopened: GlobalPersistentAllocator,
)
    requires
        allocator.wf(),
        media.holds(allocator),
        media.resumes(),
        !log_pool@.has_logs(),
        reopened.opened(allocator.base_address, nvdimm_size, media, log_pool),
    ensures
        shows_pools(reopened, allocator),
        forall|name: Seq<u8>, slot: int|
            #[trigger] reopened.finds(name, slot) == allocator.finds(name, slot),
        reopened.log_pool matches Some(log) && forall|i: int|
            0 <= i < log@.table.len() ==> !(#[trigger] log@.table[i]).active,
{
    let log = log_pool@;
    crate::laws::lemma_no_records(log, log.table.len() as int);
    assert forall|i: int| #![trigger reopened.pool_directory@[i]]
        0 <= i < reopened.pool_directory@.len() implies {
        let entry = reopened.pool_directory@[i];
        &&& entry.name@ == allocator.pool_directory@[i].name@
        &&& match allocator.pool_directory@[i].pool {
            Some(pool) => entry.pool matches Some(found) && found@ == pool@ && found.same_frame(
                pool,
            ),
            None => entry.pool is None,
        }
    } by {
        assert(media.pool_directory@[i].name@ == allocator.pool_directory@[i].name@);
    }
    assert forall|name: Seq<u8>| #[trigger] reopened.matches(name) == allocator.matches(name) by {
        assert forall|i: int| 0 <= i < allocator.metadata.total_pools implies reopened.matches(
            name,
        )[i] == allocator.matches(name)[i] by {
            assert(reopened.pool_directory@[i].name@ == allocator.pool_directory@[i].name@);
        }
        assert(reopened.matches(name) =~= allocator.matches(name));
    }
}

/// The name in a directory entry is `name`: its bytes, and a zero behind them.
pub open spec fn bears(entry: Seq<u8>, name: Seq<u8>) -> bool {
    &&& name.len() < 64
    &&& forall|i: int| 0 <= i < name.len() ==> entry[i] == #[trigger] name[i]
    &&& entry[name.len() as int] == 0
}

/// The slot is in use under the name.
pub open spec fn is_used_by(allocator: GlobalPersistentAllocator, slot: int, name: Seq<u8>) -> bool {
    &&& 0 <= slot < allocator.metadata.total_pools
    &&& allocator.used()[slot]
    &&& bears(allocator.pool_directory@[slot].name@, name)
}

/// The slot is in use under the name, and holds a pool.
pub open spec fn holds_pool(allocator: GlobalPersistentAllocator, slot: int, name: Seq<u8>) -> bool {
    is_used_by(allocator, slot, name) && allocator.pool_directory@[slot].pool is Some
}

/// The other slots are what they were.
pub open spec fn same_but_slot(
    before: GlobalPersistentAllocator,
    after: GlobalPersistentAllocator,
    slot: int,
) -> bool {
    &&& after.metadata.total_pools == before.metadata.total_pools
    &&& after.base_address == before.base_address
    &&& after.log_pool == before.log_pool
    &&& forall|i: int| #![trigger after.pool_directory@[i]]
        0 <= i < before.metadata.total_pools && i != slot ==> {
            &&& after.pool_directory@[i] == before.pool_directory@[i]
            &&& after.used()[i] == before.used()[i]
            &&& after.initialized()[i] == before.initialized()[i]
        }
}

/// The metadata are those of the same NVDIMM, with everything in its place.
pub open spec fn same_places(before: GlobalMetadata, after: GlobalMetadata) -> bool {
    &&& after.magic_number == before.magic_number
    &&& after.nvdimm_size == before.nvdimm_size
    &&& after.pool_size == before.pool_size
    &&& after.total_pools == before.total_pools
    &&& after.bitmap_offset == before.bitmap_offset
    &&& after.bitmap_words == before.bitmap_words
    &&& after.pool_directory_offset == before.pool_directory_offset
    &&& after.log_pool_offset == before.log_pool_offset
}

proof fn lemma_bears(entry: Seq<u8>, name: Seq<u8>)
    requires
        entry.len() == 64,
    ensures
        crate::allocator::name_matches(name, entry) <==> bears(entry, name),
{
    if name.len() < 64 {
        let front = entry.take(name.len() as int);
        if bears(entry, name) {
            assert forall|i: int| 0 <= i < name.len() implies front[i] == name[i] by {}
            assert(front =~= name);
        }
        if crate::allocator::name_matches(name, entry) {
            assert forall|i: int| 0 <= i < name.len() implies entry[i] == #[trigger] name[i] by {
                assert(front[i] == entry[i]);
            }
        }
    }
}

pub proof fn lemma_matches(allocator: GlobalPersistentAllocator, name: Seq<u8>)
    requires
        allocator.wf(),
    ensures
        match crate::search::first_true(allocator.matches(name)) {
            Some(slot) => holds_pool(allocator, slot, name) && forall|j: int|
                0 <= j < slot ==> !#[trigger] holds_pool(allocator, j, name),
            None => forall|j: int| !#[trigger] holds_pool(allocator, j, name),
        },
        match crate::search::first_true(allocator.named(name)) {
            Some(slot) => is_used_by(allocator, slot, name) && forall|j: int|
                0 <= j < slot ==> !#[trigger] is_used_by(allocator, j, name),
            None => forall|j: int| !#[trigger] is_used_by(allocator, j, name),
        },
{
    let hits = allocator.matches(name);
    let named = allocator.named(name);
    crate::search::lemma_first_true(hits);
    crate::search::lemma_first_true(named);
    assert forall|j: int| 0 <= j < allocator.metadata.total_pools implies #[trigger] hits[j]
        == holds_pool(allocator, j, name) by {
        lemma_bears(allocator.pool_directory@[j].name@, name);
    }
    assert forall|j: int| 0 <= j < allocator.metadata.total_pools implies #[trigger] named[j]
        == is_used_by(allocator, j, name) by {
        lemma_bears(allocator.pool_directory@[j].name@, name);
    }
    match crate::search::first_true(hits) {
        Some(slot) => {
            assert(hits[slot]);
            assert forall|j: int| 0 <= j < slot implies !#[trigger] holds_pool(
                allocator,
                j,
                name,
            ) by {
                assert(!hits[j]);
            }
        },
        None => {
            assert forall|j: int| !#[trigger] holds_pool(allocator, j, name) by {
                if 0 <= j < allocator.metadata.total_pools {
                    assert(!hits[j]);
                }
            }
        },
    }
    match crate::search::first_true(named) {
        Some(slot) => {
            assert(named[slot]);
            assert forall|j: int| 0 <= j < slot implies !#[trigger] is_used_by(
                allocator,
                j,
                name,
            ) by {
                assert(!named[j]);
            }
        },
        None => {
            assert forall|j: int| !#[trigger] is_used_by(allocator, j, name) by {
                if 0 <= j < allocator.metadata.total_pools {
                    assert(!named[j]);
                }
            }
        },
    }
}

/// A pool is made whenever the name is allowed and no pool has it, and fewer slots are in use than
/// there are pools. It is in a slot that was free, under the name, at the address of the slot, and
/// is found from then on; the other slots stay.
pub proof fn law_pool_is_made<F: FnOnce(u64) -> (PoolImage, Heap)>(
    before: GlobalPersistentAllocator,
    after: GlobalPersistentAllocator,
    name: Seq<u8>,
    open: F,
    result: Result<usize, AllocError>,
)
    requires
        before.wf(),
        after.wf(),
        before.consistent(),
        before.used() == before.initialized(),
        before.metadata.used_pools < before.metadata.total_pools,
        0 < name.len() < 64,
        name != crate::outcomes::log_mark(),
        forall|i: int| !#[trigger] holds_pool(before, i, name),
        after.got(before, name, open, result),
    ensures
        result matches Ok(slot) && {
            &&& slot < before.metadata.total_pools
            &&& !before.used()[slot as int]
            &&& forall|j: int| 0 <= j < slot ==> #[trigger] before.used()[j]
            &&& holds_pool(after, slot as int, name)
            &&& after.initialized()[slot as int]
            &&& after.finds(name, slot as int)
            &&& after.pool_directory@[slot as int].pool matches Some(pool)
            &&& pool.base_address == before.slot_address(slot as int)
            &&& pool.header.magic == crate::pool::POOL_MAGIC
            &&& pool.header.size == FIXED_POOL_SIZE
            &&& exists|found: (PoolImage, Heap)| #[trigger]
                call_ensures(open, (before.slot_address(slot as int) as u64,), found)
                    && pool.object_table@ == found.0.object_table@ && pool.memory@
                    == found.0.memory@ && pool.heap == found.1
            &&& same_but_slot(before, after, slot as int)
        },
        after.metadata.used_pools == before.metadata.used_pools + 1,
        before.metadata.initialized_pools < u32::MAX ==> after.metadata.initialized_pools
            == before.metadata.initialized_pools + 1,
        before.metadata.total_allocations < usize::MAX ==> after.metadata.total_allocations
            == before.metadata.total_allocations + 1,
        after.metadata.total_deallocations == before.metadata.total_deallocations,
        after.metadata.initialization_failures == before.metadata.initialization_failures,
        same_places(before.metadata, after.metadata),
        after.consistent(),
        after.used() == after.initialized(),
{
    lemma_matches(before, name);
    assert(crate::outcomes::log_mark() =~= crate::image::log_pool_id());
    if let Some(slot) = crate::search::first_true(before.matches(name)) {
        assert(holds_pool(before, slot, name));
    }
    crate::allocator::law_free_slot_is_found(before);
    let slot = crate::search::first_true(before.free_slots())->Some_0;
    crate::search::lemma_first_true(before.free_slots());
    assert(before.free_slots()[slot]);
    assert forall|j: int| 0 <= j < slot implies #[trigger] before.used()[j] by {
        assert(!before.free_slots()[j]);
    }
    let found = choose|found: (PoolImage, Heap)|
        {
            &&& #[trigger] call_ensures(open, (before.slot_address(slot) as u64,), found)
            &&& after.created(before, slot, name, found.0, found.1)
        };
    crate::allocator::law_created_pool_is_found(before, after, slot, name, found.0, found.1);
    crate::search::lemma_count_update(before.used(), slot, true);
    assert(bears(after.pool_directory@[slot].name@, name));
}

/// The first pool of the name is handed out where there is one, and nothing is changed.
pub proof fn law_pool_is_found<F: FnOnce(u64) -> (PoolImage, Heap)>(
    before: GlobalPersistentAllocator,
    after: GlobalPersistentAllocator,
    name: Seq<u8>,
    open: F,
    result: Result<usize, AllocError>,
    slot: int,
)
    requires
        before.wf(),
        0 < name.len() < 64,
        name != crate::outcomes::log_mark(),
        holds_pool(before, slot, name),
        forall|j: int| 0 <= j < slot ==> !#[trigger] holds_pool(before, j, name),
        after.got(before, name, open, result),
    ensures
        result matches Ok(found) && found == slot,
        after == before,
{
    lemma_matches(before, name);
    assert(crate::outcomes::log_mark() =~= crate::image::log_pool_id());
    match crate::search::first_true(before.matches(name)) {
        Some(first) => {
            if first < slot {
                assert(!holds_pool(before, first, name));
            }
        },
        None => {
            assert(!holds_pool(before, slot, name));
        },
    }
}

/// No pool is handed out for these reasons only, and no pool, no bit and no name is changed then.
pub proof fn law_pool_is_refused<F: FnOnce(u64) -> (PoolImage, Heap)>(
    before: GlobalPersistentAllocator,
    after: GlobalPersistentAllocator,
    name: Seq<u8>,
    open: F,
    result: Result<usize, AllocError>,
)
    requires
        before.wf(),
        after.got(before, name, open, result),
    ensures
        result == Err::<usize, AllocError>(AllocError::NameTooLongOrShort) <==> name.len() == 0
            || name.len() >= 64,
        result == Err::<usize, AllocError>(AllocError::NameNotAllowed) <==> name
            == crate::outcomes::log_mark(),
        result == Err::<usize, AllocError>(AllocError::NoPoolsAvailable) ==> {
            &&& before.metadata.used_pools >= before.metadata.total_pools
            &&& forall|i: int| !#[trigger] holds_pool(before, i, name)
        },
        result == Err::<usize, AllocError>(AllocError::InconsistentState) ==> {
            &&& before.metadata.used_pools < before.metadata.total_pools
            &&& forall|i: int| #![trigger before.used()[i]]
                0 <= i < before.metadata.total_pools ==> before.used()[i]
                    || before.initialized()[i]
            &&& before.metadata.initialization_failures < u32::MAX
                ==> after.metadata.initialization_failures
                == before.metadata.initialization_failures + 1
        },
        result is Err && result != Err::<usize, AllocError>(AllocError::InconsistentState) ==> after
            == before,
        result is Err ==> {
            &&& after.bitmap@ == before.bitmap@
            &&& after.pool_directory@ == before.pool_directory@
            &&& after.log_pool == before.log_pool
            &&& after.metadata.used_pools == before.metadata.used_pools
            &&& after.metadata.initialized_pools == before.metadata.initialized_pools
            &&& after.metadata.total_allocations == before.metadata.total_allocations
            &&& after.metadata.total_deallocations == before.metadata.total_deallocations
            &&& same_places(before.metadata, after.metadata)
        },
{
    lemma_matches(before, name);
    assert(crate::outcomes::log_mark() =~= crate::image::log_pool_id());
    crate::search::lemma_first_true(before.free_slots());
    if result == Err::<usize, AllocError>(AllocError::InconsistentState) {
        assert forall|i: int| #![trigger before.used()[i]]
            0 <= i < before.metadata.total_pools implies before.used()[i]
            || before.initialized()[i] by {
            assert(!before.free_slots()[i]);
        }
    }
}

/// A pool is given up whenever the name is allowed and a slot is in use under it: the slot is free
/// then and has no name, the other slots stay, and what is handed out to be written holds nothing.
pub proof fn law_pool_is_given_up(
    before: GlobalPersistentAllocator,
    after: GlobalPersistentAllocator,
    name: Seq<u8>,
    result: (bool, Option<Pool>),
    slot: int,
)
    requires
        before.wf(),
        before.consistent(),
        0 < name.len() < 64,
        name != crate::outcomes::log_mark(),
        is_used_by(before, slot, name),
        forall|j: int| 0 <= j < slot ==> !#[trigger] is_used_by(before, j, name),
        after.gave_up(before, name, result),
    ensures
        result.0,
        !after.used()[slot] && !after.initialized()[slot],
        after.pool_directory@[slot].pool is None,
        forall|i: int| 0 <= i < 64 ==> #[trigger] after.pool_directory@[slot].name@[i] == 0,
        same_but_slot(before, after, slot),
        after.metadata.used_pools == before.metadata.used_pools - 1,
        before.metadata.total_deallocations < usize::MAX ==> after.metadata.total_deallocations
            == before.metadata.total_deallocations + 1,
        after.metadata.total_allocations == before.metadata.total_allocations,
        after.metadata.initialized_pools == before.metadata.initialized_pools,
        after.metadata.initialization_failures == before.metadata.initialization_failures,
        same_places(before.metadata, after.metadata),
        before.pool_directory@[slot].pool matches Some(pool) ==> {
            &&& result.1 matches Some(wiped)
            &&& wiped.base_address == pool.base_address
            &&& wiped.header.magic != crate::pool::POOL_MAGIC
            &&& forall|i: int| #![trigger wiped@.table[i]]
                0 <= i < wiped@.table.len() ==> !wiped@.table[i].active && !wiped@.table[i].valid
                    && !wiped@.table[i].done && wiped@.table[i].data is None
            &&& forall|i: int| 0 <= i < wiped@.memory.len() ==> #[trigger] wiped@.memory[i] == 0
            &&& wiped@.memory.len() == pool@.memory.len()
        },
{
    lemma_matches(before, name);
    assert(crate::outcomes::log_mark() =~= crate::image::log_pool_id());
    match crate::search::first_true(before.named(name)) {
        Some(first) => {
            if first < slot {
                assert(!is_used_by(before, first, name));
            } else if slot < first {
                assert(!is_used_by(before, slot, name));
            }
        },
        None => {
            assert(!is_used_by(before, slot, name));
        },
    }
    crate::search::lemma_count_positive(before.used(), slot);
}

/// No pool is given up exactly where the name is not allowed or no slot is in use under it, and
/// nothing is changed then.
pub proof fn law_giving_up_a_pool_is_refused(
    before: GlobalPersistentAllocator,
    after: GlobalPersistentAllocator,
    name: Seq<u8>,
    result: (bool, Option<Pool>),
)
    requires
        before.wf(),
        after.gave_up(before, name, result),
    ensures
        !result.0 <==> name.len() == 0 || name.len() >= 64 || name == crate::outcomes::log_mark()
            || forall|i: int| !#[trigger] is_used_by(before, i, name),
        !result.0 ==> after == before && result.1 is None,
{
    lemma_matches(before, name);
    assert(crate::outcomes::log_mark() =~= crate::image::log_pool_id());
}

/// Whether an NVDIMM is taken as it is found: its metadata has the mark, the size of a pool and
/// some pools, and counts the slots in use.
pub proof fn law_nvdimm_is_resumed_when_intact(media: Media)
    ensures
        media.resumes() <==> {
            &&& media.metadata.magic_number == 0x4433_4F53_4E56_4D4D
            &&& media.metadata.nvdimm_size >= 96
            &&& media.metadata.pool_size == 1048576
            &&& media.metadata.total_pools > 0
            &&& media.metadata.used_pools as nat == crate::search::count_true(
                Seq::new(
                    media.metadata.total_pools as nat,
                    |i: int|
                        crate::allocator::bit(
                            media.bitmap@[media.metadata.bitmap_words + i / 64],
                            i % 64,
                        ),
                ),
            )
        },
{
    let bits = crate::allocator::bits(
        media.bitmap@,
        media.metadata.bitmap_words as int,
        media.metadata.total_pools as int,
    );
    assert(bits =~= Seq::new(
        media.metadata.total_pools as nat,
        |i: int|
            crate::allocator::bit(media.bitmap@[media.metadata.bitmap_words + i / 64], i % 64),
    ));
}

/// An NVDIMM that is not taken as it is found has the log pool in its first slot and no other pool
/// in use: all other slots are free, and no name is found.
pub proof fn law_fresh_nvdimm_has_its_log_alone(
    allocator: GlobalPersistentAllocator,
    base_address: u64,
    nvdimm_size: usize,
    media: Media,
    log_pool: Pool,
    slot: int,
    name: Seq<u8>,
)
    requires
        nvdimm_size >= METADATA_SIZE,
        GlobalPersistentAllocator::acceptable(
            base_address,
            nvdimm_size,
            MediaLayout::of(nvdimm_size),
            media,
            log_pool,
        ),
        !media.resumes(),
        allocator.wf(),
        allocator.opened(base_address, nvdimm_size, media, log_pool),
        0 <= slot < allocator.metadata.total_pools,
    ensures
        allocator.metadata.total_pools == crate::layout::estimated_pools(nvdimm_size as int),
        allocator.metadata.used_pools == 1,
        allocator.metadata.magic_number == 0x4433_4F53_4E56_4D4D,
        allocator.metadata.nvdimm_size == nvdimm_size,
        allocator.metadata.pool_size == 1048576,
        allocator.metadata.initialized_pools == 1,
        allocator.metadata.initialization_failures == 0,
        allocator.metadata.total_allocations == 0,
        allocator.metadata.total_deallocations == 0,
        allocator.used()[slot] == (slot == 0),
        allocator.initialized()[slot] == (slot == 0),
        allocator.log_pool == Some(log_pool),
        log_pool.base_address == allocator.slot_address(0),
        allocator.base_address + allocator.metadata.log_pool_offset == log_pool.base_address,
        forall|i: int| !#[trigger] holds_pool(allocator, i, name),
{
    assert forall|i: int| !#[trigger] holds_pool(allocator, i, name) by {
        if 0 <= i < allocator.metadata.total_pools && i != 0 {
            assert(!allocator.used()[i]);
        }
    }
}

/// On an NVDIMM the bitmaps lie behind the metadata, the directory behind the bitmaps, and the
/// pools behind the directory, each with room for what it holds and no more, and all on the NVDIMM.
pub proof fn law_parts_of_an_nvdimm_are_apart(nvdimm_size: usize)
    requires
        nvdimm_size >= METADATA_SIZE,
    ensures
        ({
            let layout = MediaLayout::of(nvdimm_size);
            &&& 96 <= layout.bitmap_offset < 96 + 8 && layout.bitmap_offset % 8 == 0
            &&& layout.max_pools <= 64 * layout.bitmap_words < layout.max_pools + 64
            &&& layout.bitmap_offset + 16 * layout.bitmap_words <= layout.directory_offset
            &&& layout.directory_offset < layout.bitmap_offset + 16 * layout.bitmap_words + 8
            &&& layout.directory_offset % 8 == 0
            &&& layout.pools_offset() == layout.directory_offset + layout.max_pools * 160
            &&& layout.pools_offset() + layout.max_pools * 1048576 <= nvdimm_size
            &&& layout.max_pools % 64 == 0
            &&& nvdimm_size < 96 + (layout.max_pools + 64) * 1048737
        }),
{
    crate::layout::law_estimated_pools_fit(nvdimm_size as int);
    let pools = crate::layout::estimated_pools(nvdimm_size as int);
    let estimate = (nvdimm_size - 96) / 1048737;
    assert(estimate < pools + 64);
    assert(nvdimm_size - 96 < (estimate + 1) * 1048737);
}

/// The pools lie one behind the other from the end of the directory on, in the order of their slots.
pub proof fn law_pools_lie_in_slot_order(allocator: GlobalPersistentAllocator, slot: int)
    ensures
        allocator.slot_address(0) == allocator.base_address
            + allocator.metadata.pool_directory_offset + allocator.metadata.total_pools * 160,
        allocator.slot_address(slot + 1) == allocator.slot_address(slot) + 1048576,
{
    assert((slot + 1) * FIXED_POOL_SIZE == slot * FIXED_POOL_SIZE + FIXED_POOL_SIZE)
        by (nonlinear_arith);
}

/// The count in the metadata is right exactly where it is the number of slots in use.
pub proof fn law_count_is_that_of_the_slots(allocator: GlobalPersistentAllocator)
    ensures
        allocator.consistent() <==> allocator.metadata.used_pools as nat
            == crate::search::count_true(allocator.used()),
        allocator.used() == Seq::new(
            allocator.metadata.total_pools as nat,
            |i: int| allocator.bit_set(i, true),
        ),
        allocator.initialized() == Seq::new(
            allocator.metadata.total_pools as nat,
            |i: int| allocator.bit_set(i, false),
        ),
{
    assert(allocator.used() =~= Seq::new(
        allocator.metadata.total_pools as nat,
        |i: int| allocator.bit_set(i, true),
    ));
    assert(allocator.initialized() =~= Seq::new(
        allocator.metadata.total_pools as nat,
        |i: int| allocator.bit_set(i, false),
    ));
}

/// Setting one bit changes the number of slots in use by it.
pub proof fn law_slots_in_use_are_counted(used: Seq<bool>, slot: int, value: bool)
    requires
        0 <= slot < used.len(),
        used[slot] != value,
    ensures
        value ==> crate::search::count_true(used.update(slot, value)) == crate::search::count_true(
            used,
        ) + 1,
        !value ==> crate::search::count_true(used.update(slot, value)) + 1
            == crate::search::count_true(used),
        (forall|i: int| 0 <= i < used.len() ==> !#[trigger] used[i]) ==> crate::search::count_true(
            used,
        ) == 0,
{
    crate::search::lemma_count_update(used, slot, value);
    if forall|i: int| 0 <= i < used.len() ==> !#[trigger] used[i] {
        crate::search::lemma_first_true_none(used);
    }
}

/// What a crash left in the log is undone in every pool when the NVDIMM is opened, and the log is
/// empty then.
pub proof fn law_opening_undoes_the_log_everywhere(
    allocator: GlobalPersistentAllocator,
    base_address: u64,
    nvdimm_size: usize,
    media: Media,
    log_pool: Pool,
    slot: int,
)
    requires
        media.resumes(),
        allocator.opened(base_address, nvdimm_size, media, log_pool),
        0 <= slot < media.pool_directory@.len(),
    ensures
        allocator.metadata == media.metadata,
        allocator.bitmap@ == media.bitmap@,
        allocator.pool_directory@.len() == media.pool_directory@.len(),
        allocator.pool_directory@[slot].name@ == media.pool_directory@[slot].name@,
        media.pool_directory@[slot].pool is Some <==> allocator.pool_directory@[slot].pool is Some,
        media.pool_directory@[slot].pool matches Some(pool) ==> {
            &&& allocator.pool_directory@[slot].pool->Some_0@ == pool@.rolled_back(
                log_pool@.records(),
            )
            &&& allocator.pool_directory@[slot].pool->Some_0.base_address == pool.base_address
        },
        allocator.log_pool matches Some(log) && log.base_address == log_pool.base_address
            && is_void(log),
{
    assert(allocator.pool_directory@[slot].name == media.pool_directory@[slot].name);
}

/// No slot of the pool is in use or was given up, and its memory is zero.
pub open spec fn is_void(pool: Pool) -> bool {
    &&& forall|i: int| #![trigger pool@.table[i]]
        0 <= i < pool@.table.len() ==> !pool@.table[i].active && !pool@.table[i].valid
            && !pool@.table[i].done && pool@.table[i].data is None
    &&& forall|i: int| 0 <= i < pool@.memory.len() ==> #[trigger] pool@.memory[i] == 0
}

/// What a crash left in the log is undone in every other pool too when a transaction begins.
pub proof fn law_beginning_undoes_the_log_everywhere(
    before: GlobalPersistentAllocator,
    after: GlobalPersistentAllocator,
    slot: int,
    other: int,
)
    requires
        after.kept_beside(before, slot),
        before.pool_directory@[slot].pool is Some,
        !(before.pool_directory@[slot].pool->Some_0@.table[0].active
            && before.pool_directory@[slot].pool->Some_0@.table[0].id == crate::outcomes::log_mark()),
        before.log_pool matches Some(log) && exists|i: int|
            0 <= i < log@.table.len() && (#[trigger] log@.table[i]).active && log@.table[i].valid,
        0 <= other < before.pool_directory@.len(),
        other != slot,
    ensures
        before.pool_directory@[other].pool is Some <==> after.pool_directory@[other].pool is Some,
        before.pool_directory@[other].pool matches Some(pool)
            ==> after.pool_directory@[other].pool->Some_0@ == pool@.rolled_back(
            before.log_pool->Some_0@.records(),
        ),
        after.pool_directory@[other].name == before.pool_directory@[other].name,
{
    assert(crate::outcomes::log_mark() =~= crate::image::log_pool_id());
    let log = before.log_pool->Some_0@;
    let i = choose|i: int|
        0 <= i < log.table.len() && (#[trigger] log.table[i]).active && log.table[i].valid;
    assert(log.table[i].live());
    assert(after.pool_directory@[other].name == before.pool_directory@[other].name);
}

/// Without anything in the log, the other pools stay when a transaction begins or has run.
pub proof fn law_other_pools_stay(
    before: GlobalPersistentAllocator,
    after: GlobalPersistentAllocator,
    slot: int,
    other: int,
)
    requires
        after.kept_beside(before, slot),
        before.log_pool matches Some(log) ==> forall|i: int| #![trigger log@.table[i]]
            0 <= i < log@.table.len() ==> !log@.table[i].active || !log@.table[i].valid,
        0 <= other < before.pool_directory@.len(),
        other != slot,
    ensures
        before.pool_directory@[other].pool is Some <==> after.pool_directory@[other].pool is Some,
        before.pool_directory@[other].pool matches Some(pool)
            ==> after.pool_directory@[other].pool->Some_0@ == pool@,
        after.metadata == before.metadata,
        after.bitmap == before.bitmap,
{
    assert(after.pool_directory@[other].name == before.pool_directory@[other].name);
    if before.log_pool is Some {
        assert(!before.log_pool->Some_0@.has_logs());
    }
}

/// What is told of an NVDIMM is right: whether its metadata has the mark, the size of a pool and
/// some pools, whether it counts the slots in use, and the counts themselves.
pub proof fn law_status_is_right(allocator: GlobalPersistentAllocator)
    ensures
        ({
            let status = allocator.status();
            &&& status.metadata_valid <==> {
                &&& allocator.metadata.magic_number == 0x4433_4F53_4E56_4D4D
                &&& allocator.metadata.nvdimm_size >= 96
                &&& allocator.metadata.pool_size == 1048576
                &&& allocator.metadata.total_pools > 0
            }
            &&& status.bitmap_consistent <==> allocator.metadata.used_pools as nat
                == crate::search::count_true(allocator.used())
            &&& status.used_pools == allocator.metadata.used_pools
            &&& status.total_pools == allocator.metadata.total_pools
            &&& status.initialization_failures == allocator.metadata.initialization_failures
        }),
{
}

} // verus!
