//! Transactions on the pools of an allocator.

use crate::allocator::{roll_back_directory, GlobalPersistentAllocator};
use crate::pool::{is_recoverable, Pool, PoolError};
use crate::transaction::{Begun, Finished, TransactionContext};
use vstd::prelude::*;

verus! {

impl GlobalPersistentAllocator {
    /// A transaction on the pool in a slot can begin: what a crash left in the log can be undone
    /// in every pool, and recovery of the pool knows the blocks that it gives back.
    pub open spec fn can_begin(self, slot: int) -> bool {
        &&& 0 <= slot < self.metadata.total_pools
        &&& self.pool_directory@[slot].pool matches Some(pool)
        &&& pool.served()
        &&& crate::transaction::log_wf(self.log_pool)
        &&& crate::transaction::left_over(pool, self.log_pool) ==> {
            &&& self.log_pool->Some_0@.readable()
            &&& forall|i: int| #![trigger self.pool_directory@[i]]
                0 <= i < self.pool_directory@.len() ==> match self.pool_directory@[i].pool {
                    Some(pool) => pool@.takes_from(self.log_pool->Some_0@),
                    None => true,
                }
        }
        &&& crate::transaction::cleared(pool, self.log_pool).recoverable()
    }

    /// Tests whether a transaction on the pool in a slot can begin.
    pub fn is_ready(&self, slot: usize) -> (ready: bool)
        requires
            self.wf(),
            crate::transaction::log_wf(self.log_pool),
        ensures
            ready == self.can_begin(slot as int),
    {
        if slot >= self.metadata.total_pools as usize {
            return false;
        }
        match &self.pool_directory[slot].pool {
            Some(pool) => {
                if !pool.is_served() {
                    return false;
                }
                match &self.log_pool {
                    Some(log) => {
                        if pool.is_log_pool() || !log.has_logs() {
                            is_recoverable(&pool.object_table)
                        } else {
                            self.is_undoable(log) && is_recoverable(&pool.rolled_back_table(log))
                        }
                    },
                    None => is_recoverable(&pool.object_table),
                }
            },
            None => false,
        }
    }

    fn is_undoable(&self, log: &Pool) -> (ok: bool)
        requires
            self.wf(),
            log.wf(),
        ensures
            ok == {
                &&& log@.readable()
                &&& forall|i: int| #![trigger self.pool_directory@[i]]
                    0 <= i < self.pool_directory@.len() ==> match self.pool_directory@[i].pool {
                        Some(pool) => pool@.takes_from(log@),
                        None => true,
                    }
            },
    {
        if !log.is_readable() {
            return false;
        }
        let mut i: usize = 0;
        while i < self.pool_directory.len()
            invariant
                self.wf(),
                log.wf(),
                log@.readable(),
                i <= self.pool_directory@.len(),
                forall|j: int| #![trigger self.pool_directory@[j]]
                    0 <= j < i ==> match self.pool_directory@[j].pool {
                        Some(pool) => pool@.takes_from(log@),
                        None => true,
                    },
            decreases self.pool_directory.len() - i,
        {
            if let Some(pool) = &self.pool_directory[i].pool {
                if !pool.is_taking_from(log) {
                    return false;
                }
            }
            i = i + 1;
        }
        true
    }

    /// The allocator but for the log pool and the pool in a slot: what a crash left in the log is
    /// undone in the other pools, and all else is the same.
    pub open spec fn kept_beside(self, before: Self, slot: int) -> bool {
        let pool = before.pool_directory@[slot].pool->Some_0;
        &&& self.base_address == before.base_address
        &&& self.metadata == before.metadata
        &&& self.bitmap == before.bitmap
        &&& self.pool_directory@.len() == before.pool_directory@.len()
        &&& self.pool_directory@[slot].name == before.pool_directory@[slot].name
        &&& forall|i: int| #![trigger self.pool_directory@[i]]
            0 <= i < before.pool_directory@.len() && i != slot ==> {
                &&& self.pool_directory@[i].name == before.pool_directory@[i].name
                &&& match before.pool_directory@[i].pool {
                    Some(other) => {
                        &&& self.pool_directory@[i].pool matches Some(now)
                        &&& now.wf()
                        &&& now.same_frame(other)
                        &&& now.heap == other.heap
                        &&& now@ == if crate::transaction::left_over(pool, before.log_pool) {
                            other@.rolled_back(before.log_pool->Some_0@.records())
                        } else {
                            other@
                        }
                    },
                    None => self.pool_directory@[i].pool is None,
                }
            }
    }

    /// The allocator while a transaction runs: pool and log pool are with the transaction.
    pub open spec fn lent(self, before: Self, slot: int) -> bool {
        &&& self.kept_beside(before, slot)
        &&& self.log_pool is None
        &&& self.pool_directory@[slot].pool is None
    }

    /// What beginning a transaction on the pool in a slot of this allocator gives: the recovered
    /// pool, nothing pending, and a log that holds nothing of a crash.
    pub open spec fn began(self, slot: int, begun: Begun) -> bool {
        let pool = self.pool_directory@[slot].pool->Some_0;
        let cleared = crate::transaction::cleared(pool, self.log_pool);
        &&& begun.context.wf()
        &&& begun.context.pool@ == cleared.recovered()
        &&& begun.context.pool.same_frame(pool)
        &&& begun.context.pool.heap == pool.heap
        &&& begun.context.started@ == begun.context.pool@
        &&& begun.context.pending_changes@.len() == 0
        &&& begun.freed@ == cleared.released()
        &&& begun.log_emptied == crate::transaction::left_over(pool, self.log_pool)
        &&& crate::transaction::log_after(
            self.log_pool,
            begun.context.log_pool,
            begun.log_emptied,
        )
        &&& cleared.ids_unique() ==> begun.context.ids_unique()
        &&& pool@.tidy(crate::heap::heap_free(pool.heap)) ==> begun.context.pool@.tidy(
            crate::heap::heap_free(pool.heap).union(crate::blocks::returned(begun.freed@)),
        )
    }

    /// Begins a transaction on the pool in a slot.
    pub fn begin_transaction(&mut self, slot: usize) -> (begun: Begun)
        requires
            old(self).wf(),
            old(self).can_begin(slot as int),
        ensures
            final(self).wf(),
            final(self).lent(*old(self), slot as int),
            old(self).began(slot as int, begun),
    {
        let ghost before = *self;
        let pool: Pool = self.pool_directory[slot].pool.take().unwrap();
        let ghost directory = self.pool_directory@;
        let log_pool: Option<Pool> = self.log_pool.take();
        let marked: bool = pool.is_log_pool();
        if let Some(log) = &log_pool {
            if !marked && log.has_logs() {
                assert forall|i: int| #![trigger self.pool_directory@[i]]
                    0 <= i < self.pool_directory@.len() implies match self.pool_directory@[i].pool {
                    Some(pool) => pool.wf() && pool@.takes_from(log@),
                    None => true,
                } by {
                    if i != slot {
                        assert(self.pool_directory@[i] == before.pool_directory@[i]);
                    }
                }
                roll_back_directory(&mut self.pool_directory, log);
            }
        }
        let mut others: Vec<Pool> = Vec::new();
        let begun: Begun = pool.transaction(log_pool, &mut others);
        assert forall|i: int| #![trigger self.pool_directory@[i]]
            0 <= i < self.pool_directory@.len() implies match self.pool_directory@[i].pool {
            Some(pool) => self.pool_wf(i, pool),
            None => true,
        } by {
            assert(directory[i] == if i == slot { directory[i] } else { before.pool_directory@[i] });
        }
        begun
    }

    /// Takes pool and log pool back from a transaction that has ended.
    pub fn end_transaction(&mut self, slot: usize, ended: Finished)
        requires
            old(self).wf(),
            slot < old(self).metadata.total_pools,
            old(self).pool_wf(slot as int, ended.pool),
        ensures
            final(self).wf(),
            final(self).base_address == old(self).base_address,
            final(self).metadata == old(self).metadata,
            final(self).bitmap == old(self).bitmap,
            final(self).log_pool == ended.log_pool,
            final(self).pool_directory@.len() == old(self).pool_directory@.len(),
            final(self).pool_directory@[slot as int].name == old(self).pool_directory@[slot as int].name,
            final(self).pool_directory@[slot as int].pool == Some(ended.pool),
            forall|i: int| #![trigger final(self).pool_directory@[i]]
                0 <= i < old(self).pool_directory@.len() && i != slot ==> final(self).pool_directory@[i] == old(self).pool_directory@[i],
    {
        let Finished { pool, log_pool, log_emptied: _ } = ended;
        self.pool_directory[slot].pool = Some(pool);
        self.log_pool = log_pool;
    }
}

/// The context of a transaction that has begun, with heaps that were brought up to date.
pub open spec fn settled(begun: Begun, context: TransactionContext) -> bool {
    &&& context.wf()
    &&& context.pool@ == begun.context.pool@
    &&& context.pool.same_frame(begun.context.pool)
    &&& context.pending_changes == begun.context.pending_changes
    &&& context.started == begun.context.started
    &&& match begun.context.log_pool {
        Some(log) => {
            &&& context.log_pool matches Some(now)
            &&& now@ == log@
            &&& now.same_frame(log)
        },
        None => context.log_pool is None,
    }
}

/// The work of a transaction, which has left the pool where it is, and can be undone where it
/// failed.
pub open spec fn worked<R>(
    context: TransactionContext,
    ended: TransactionContext,
    result: Result<R, PoolError>,
) -> bool {
    &&& ended.wf()
    &&& ended.pool.same_frame(context.pool)
    &&& result is Err && ended.logging() ==> ended.abortable()
}

impl GlobalPersistentAllocator {
    /// What a transaction on the pool in a slot did, whose work led from `context` to `ended`: all
    /// of its changes were made where it succeeded, and undone where it failed.
    pub open spec fn ran<R>(
        self,
        before: Self,
        slot: int,
        begun: Begun,
        context: TransactionContext,
        ended: TransactionContext,
        result: Result<R, PoolError>,
        log_emptied: bool,
    ) -> bool {
        &&& before.began(slot, begun)
        &&& settled(begun, context)
        &&& self.kept_beside(before, slot)
        &&& self.pool_directory@[slot].pool matches Some(now)
        &&& now@ == ended.left_by(result)
        &&& now.heap == ended.pool.heap
        &&& log_emptied == ended.logging()
        &&& crate::transaction::log_after(ended.log_pool, self.log_pool, log_emptied)
        &&& result is Err && ended.can_roll_back() ==> now@.recovered().same_objects(
            ended.started@,
        )
    }

    /// Runs a transaction on the pool in a slot. `settle` gives the blocks that were freed back to
    /// the heap of the pool, and a log pool that was emptied a heap in which nothing is
    /// allocated; then `f` does the work. Says what came of it, and whether the log pool was
    /// emptied at the end and needs a heap in which nothing is allocated once more.
    pub fn transaction<
        R,
        S: FnOnce(Begun) -> TransactionContext,
        F: FnOnce(TransactionContext) -> (TransactionContext, Result<R, PoolError>),
    >(&mut self, slot: usize, settle: S, f: F) -> (outcome: (Result<R, PoolError>, bool))
        requires
            old(self).wf(),
            old(self).can_begin(slot as int),
            forall|begun: Begun|
                old(self).began(slot as int, begun) ==> #[trigger] call_requires(settle, (begun,)),
            forall|begun: Begun, context: TransactionContext|
                old(self).began(slot as int, begun) && #[trigger] call_ensures(
                    settle,
                    (begun,),
                    context,
                ) ==> settled(begun, context),
            forall|begun: Begun, context: TransactionContext|
                old(self).began(slot as int, begun) && #[trigger] settled(begun, context)
                    ==> call_requires(f, (context,)),
            forall|
                begun: Begun,
                context: TransactionContext,
                ended: (TransactionContext, Result<R, PoolError>),
            |
                old(self).began(slot as int, begun) && #[trigger] settled(begun, context)
                    && #[trigger] call_ensures(f, (context,), ended) ==> worked(
                    context,
                    ended.0,
                    ended.1,
                ),
        ensures
            final(self).wf(),
            exists|begun: Begun, context: TransactionContext, ended: TransactionContext|
                {
                    &&& call_ensures(settle, (begun,), context)
                    &&& call_ensures(f, (context,), (ended, outcome.0))
                    &&& #[trigger] final(self).ran(
                        *old(self),
                        slot as int,
                        begun,
                        context,
                        ended,
                        outcome.0,
                        outcome.1,
                    )
                },
    {
        let begun: Begun = self.begin_transaction(slot);
        let ghost started = begun;
        let context: TransactionContext = settle(begun);
        let ghost ready = context;
        assert(settled(started, ready));
        let (ended, result) = f(context);
        let ghost done = ended;
        assert(call_ensures(f, (ready,), (done, result)));
        let (finished, result) = ended.finish(result);
        let log_emptied: bool = finished.log_emptied;
        self.end_transaction(slot, finished);
        let outcome: (Result<R, PoolError>, bool) = (result, log_emptied);
        assert(call_ensures(f, (ready,), (done, outcome.0)));
        assert(self.ran(
            *old(self),
            slot as int,
            started,
            ready,
            done,
            outcome.0,
            outcome.1,
        ));
        outcome
    }
}

/// A transaction can begin on every pool whose memory is in order, unless a crash left something
/// in the log.
pub proof fn law_tidy_pool_can_begin(allocator: GlobalPersistentAllocator, slot: int)
    requires
        allocator.wf(),
        0 <= slot < allocator.metadata.total_pools,
        allocator.pool_directory@[slot].pool matches Some(pool) && pool.served() && pool@.tidy(
            crate::heap::heap_free(pool.heap),
        ),
        crate::transaction::log_wf(allocator.log_pool),
        allocator.log_pool matches Some(log) ==> !log@.has_logs(),
    ensures
        allocator.can_begin(slot),
{
    let pool = allocator.pool_directory@[slot].pool->Some_0;
    crate::blocks::law_tidy_pool_is_sound(pool@, crate::heap::heap_free(pool.heap));
    crate::undo::law_rollback_keeps_sound(pool@, Seq::empty());
}

/// Work that succeeded is kept: readers see what they saw, and with it every object that the work
/// stored. The log is empty then.
pub proof fn law_successful_work_is_kept<R>(
    before: GlobalPersistentAllocator,
    after: GlobalPersistentAllocator,
    slot: int,
    begun: Begun,
    context: TransactionContext,
    ended: TransactionContext,
    result: R,
    log_emptied: bool,
    at: int,
)
    requires
        after.ran(
            before,
            slot,
            begun,
            context,
            ended,
            Ok::<R, PoolError>(result),
            log_emptied,
        ),
        0 <= at < ended.pool@.table.len(),
    ensures
        after.pool_directory@[slot].pool matches Some(now) && {
            &&& now@.memory == ended.pool@.memory
            &&& now@.table.len() == ended.pool@.table.len()
            &&& now@.table[at].active == ended.pool@.table[at].active
            &&& now@.table[at].done == ended.pool@.table[at].done
            &&& now@.table[at].same_object(ended.pool@.table[at])
            &&& now@.table[at].valid == (ended.pool@.table[at].valid || exists|k: int|
                0 <= k < ended.pending_changes@.len() && (
                #[trigger] ended.pending_changes@[k]).entry == at)
            &&& crate::heap::heap_free(now.heap) == crate::heap::heap_free(ended.pool.heap)
        },
        ended.log_pool is Some && !crate::outcomes::is_marked(ended) ==> log_emptied
            && after.log_pool is Some && crate::directory::is_void(after.log_pool->Some_0),
{
    assert(crate::outcomes::log_mark() =~= crate::image::log_pool_id());
    crate::outcomes::law_commit_makes_the_pending_visible(
        ended.pool@,
        ended.pending_changes@,
        at,
    );
}

/// Work that failed is undone: what the log holds is taken back, the last of it first, and the log
/// is empty then. Nothing that was pending becomes visible.
pub proof fn law_failed_work_is_undone<R>(
    before: GlobalPersistentAllocator,
    after: GlobalPersistentAllocator,
    slot: int,
    begun: Begun,
    context: TransactionContext,
    ended: TransactionContext,
    error: PoolError,
    log_emptied: bool,
)
    requires
        after.ran(
            before,
            slot,
            begun,
            context,
            ended,
            Err::<R, PoolError>(error),
            log_emptied,
        ),
        ended.log_pool is Some,
        !crate::outcomes::is_marked(ended),
    ensures
        after.pool_directory@[slot].pool matches Some(now) && now@ == ended.pool@.rolled_back(
            ended.log_pool->Some_0@.records(),
        ),
        log_emptied,
        after.log_pool is Some && crate::directory::is_void(after.log_pool->Some_0),
{
    assert(crate::outcomes::log_mark() =~= crate::image::log_pool_id());
}

/// A transaction begins with the recovered pool, with nothing pending, and with the log as it was,
/// where the log holds nothing.
pub proof fn law_transaction_begins_with_the_recovered_pool(
    before: GlobalPersistentAllocator,
    slot: int,
    begun: Begun,
)
    requires
        before.began(slot, begun),
        before.pool_directory@[slot].pool is Some,
        before.log_pool matches Some(log) ==> forall|i: int| #![trigger log@.table[i]]
            0 <= i < log@.table.len() ==> !log@.table[i].active || !log@.table[i].valid,
    ensures
        ({
            let pool = before.pool_directory@[slot].pool->Some_0;
            &&& begun.context.pool@ == pool@.recovered()
            &&& begun.context.pool.base_address == pool.base_address
            &&& begun.context.pool.heap == pool.heap
            &&& begun.context.pending_changes@.len() == 0
            &&& begun.context.log_pool == before.log_pool
            &&& !begun.log_emptied
            &&& begun.freed@ == pool@.released()
        }),
{
    if before.log_pool is Some {
        assert(!before.log_pool->Some_0@.has_logs());
    }
}

/// Where a crash left something in the log, it is undone in the pool of the transaction before the
/// pool is recovered, and the log is empty then.
pub proof fn law_transaction_begins_by_undoing_the_log(
    before: GlobalPersistentAllocator,
    slot: int,
    begun: Begun,
)
    requires
        before.began(slot, begun),
        before.pool_directory@[slot].pool matches Some(pool) && !(pool@.table[0].active
            && pool@.table[0].id == crate::outcomes::log_mark()),
        before.log_pool matches Some(log) && exists|i: int|
            0 <= i < log@.table.len() && (#[trigger] log@.table[i]).active && log@.table[i].valid,
    ensures
        ({
            let pool = before.pool_directory@[slot].pool->Some_0;
            &&& begun.context.pool@ == pool@.rolled_back(
                before.log_pool->Some_0@.records(),
            ).recovered()
            &&& begun.context.pending_changes@.len() == 0
            &&& begun.log_emptied
            &&& begun.context.log_pool is Some && crate::directory::is_void(
                begun.context.log_pool->Some_0,
            )
        }),
{
    assert(crate::outcomes::log_mark() =~= crate::image::log_pool_id());
    let log = before.log_pool->Some_0@;
    let i = choose|i: int|
        0 <= i < log.table.len() && (#[trigger] log.table[i]).active && log.table[i].valid;
    assert(log.table[i].live());
}

} // verus!
