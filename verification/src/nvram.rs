//! The NVRAM of the machine: the allocator over it, and the boot times kept in it.

use crate::allocator::{GlobalPersistentAllocator, Media, MediaLayout};
use crate::boot::FrameRange;
use crate::layout::METADATA_SIZE;
use crate::pool::Pool;
use vstd::prelude::*;

verus! {

/// How many boot times are kept.
pub const BOOT_TIMES: usize = 5;

/// The allocator over the NVRAM, once there is one.
pub struct NvramAllocator {
    pub global_allocator: Option<GlobalPersistentAllocator>,
}

impl NvramAllocator {
    /// No NVRAM is known yet.
    pub fn new() -> (nvram: Self)
        ensures
            nvram.global_allocator is None,
    {
        NvramAllocator { global_allocator: None }
    }

    /// Opens the NVRAM in a range of page frames, unless some is open. `media` is what it holds,
    /// `log_pool` the pool that was opened at [`Media::log_pool_address`].
    pub fn init(&mut self, range: FrameRange, media: Media, log_pool: Pool)
        requires
            old(self).global_allocator is None ==> {
                &&& range.start + METADATA_SIZE <= range.end <= usize::MAX
                &&& GlobalPersistentAllocator::acceptable(
                    range.start,
                    (range.end - range.start) as usize,
                    MediaLayout::of((range.end - range.start) as usize),
                    media,
                    log_pool,
                )
            },
        ensures
            old(self).global_allocator is Some ==> *final(self) == *old(self),
            old(self).global_allocator is None ==> {
                &&& final(self).global_allocator matches Some(allocator)
                &&& allocator.wf()
                &&& allocator.consistent()
                &&& allocator.opened(
                    range.start,
                    (range.end - range.start) as usize,
                    media,
                    log_pool,
                )
            },
    {
        if self.global_allocator.is_none() {
            let base_address: u64 = range.start;
            let size: usize = (range.end - base_address) as usize;
            self.global_allocator =
            Some(GlobalPersistentAllocator::new(base_address, size, media, log_pool));
        }
    }
}

/// The boot times with the newest in front; the oldest is dropped where there are too many.
pub open spec fn shifted<T>(dates: Seq<Option<T>>, time: T) -> Seq<Option<T>> {
    seq![Some(time)] + dates.take(4)
}

/// Puts the newest boot time in front of those that were kept, if any were.
pub fn push_boot_time<T: Copy>(kept: Option<[Option<T>; 5]>, time: T) -> (dates: [Option<T>; 5])
    ensures
        dates@ == shifted(
            match kept {
                Some(dates) => dates@,
                None => Seq::new(5, |i: int| None::<T>),
            },
            time,
        ),
{
    let mut dates: [Option<T>; 5] = match kept {
        Some(dates) => dates,
        None => [None, None, None, None, None],
    };
    let ghost before = dates@;
    assert(kept is None ==> before =~= Seq::new(5, |i: int| None::<T>));
    let mut idx: usize = 4;
    while idx > 0
        invariant
            idx <= 4,
            before.len() == 5,
            forall|i: int| 0 <= i <= idx ==> dates@[i] == before[i],
            forall|i: int| idx < i < 5 ==> dates@[i] == before[i - 1],
        decreases idx,
    {
        dates[idx] = dates[idx - 1];
        idx = idx - 1;
    }
    dates[0] = Some(time);
    assert(dates@ =~= shifted(before, time));
    dates
}

/// Of the last five boot times each is found behind those that came after it.
pub proof fn law_boot_times_keep_their_order<T>(dates: Seq<Option<T>>, time: T, i: int)
    requires
        dates.len() == 5,
        0 <= i < 4,
    ensures
        shifted(dates, time).len() == 5,
        shifted(dates, time)[0] == Some(time),
        shifted(dates, time)[i + 1] == dates[i],
{
}

} // verus!
