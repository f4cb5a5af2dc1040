//! Threads that wait for something to become true.

use std::collections::VecDeque;
use vstd::prelude::*;

verus! {

/// Threads that wait, the one that has waited longest first: process and thread of each.
pub struct WaitQueue {
    pub queue: VecDeque<(u128, usize)>,
}

/// Where a thread is in waiting.
#[derive(Clone, Copy, PartialEq, Eq, Structural, Debug)]
pub enum WaitState {
    /// About to look at the predicate.
    Polling,
    /// About to look at the predicate again, with the queue locked.
    Locked,
}

/// What a waiting thread does next.
#[derive(Clone, Copy, PartialEq, Eq, Structural, Debug)]
pub enum WaitAction {
    /// The wait is over.
    Return,
    /// Lock the queue.
    Lock,
    /// Mark the thread as parking, enter it in the queue, unlock the queue and block, unless the
    /// predicate has become true meanwhile.
    Park,
}

/// What a waiting thread does next, and where it is then.
pub open spec fn next_step(state: WaitState, ready: bool) -> (WaitState, WaitAction) {
    if ready {
        (WaitState::Polling, WaitAction::Return)
    } else {
        match state {
            WaitState::Polling => (WaitState::Locked, WaitAction::Lock),
            WaitState::Locked => (WaitState::Polling, WaitAction::Park),
        }
    }
}

/// What a waiting thread does next, and where it is then, once it knows the predicate.
pub fn wait_step(state: WaitState, ready: bool) -> (next: (WaitState, WaitAction))
    ensures
        next == next_step(state, ready),
{
    if ready {
        return (WaitState::Polling, WaitAction::Return);
    }
    match state {
        WaitState::Polling => (WaitState::Locked, WaitAction::Lock),
        WaitState::Locked => (WaitState::Polling, WaitAction::Park),
    }
}

/// The first waiters were passed to the scheduler, one after the other and each once: the
/// scheduler before each of them and after the last, and whether each was woken.
pub open spec fn asked<S, F: Fn(S, u128, usize) -> (S, bool)>(
    unblock: F,
    waiters: Seq<(u128, usize)>,
    states: Seq<S>,
    woken: Seq<bool>,
) -> bool {
    &&& woken.len() <= waiters.len()
    &&& states.len() == woken.len() + 1
    &&& forall|i: int| #![trigger woken[i]]
        0 <= i < woken.len() ==> call_ensures(
            unblock,
            (states[i], waiters[i].0, waiters[i].1),
            (states[i + 1], woken[i]),
        )
}

/// None of them was woken.
pub open spec fn none_woken(woken: Seq<bool>) -> bool {
    forall|i: int| 0 <= i < woken.len() ==> !#[trigger] woken[i]
}

/// The scheduler accepts the next waiter.
pub open spec fn accepts_next<S, F: Fn(S, u128, usize) -> (S, bool)>(
    unblock: F,
    waiters: Seq<(u128, usize)>,
    states: Seq<S>,
    woken: Seq<bool>,
) -> bool {
    let next = waiters[woken.len() as int];
    woken.len() < waiters.len() ==> call_requires(unblock, (states.last(), next.0, next.1))
}

/// What [`WaitQueue::notify_one`] does.
pub open spec fn woke_one<S, F: Fn(S, u128, usize) -> (S, bool)>(
    before: Seq<(u128, usize)>,
    after: Seq<(u128, usize)>,
    scheduler: S,
    unblock: F,
    result: (bool, S),
) -> bool {
    exists|states: Seq<S>, woken: Seq<bool>| #[trigger]
        asked(unblock, before, states, woken) && {
            &&& states[0] == scheduler
            &&& states.last() == result.1
            &&& result.0 == (woken.len() > 0 && woken.last())
            &&& if result.0 {
                none_woken(woken.drop_last())
            } else {
                none_woken(woken) && woken.len() == before.len()
            }
            &&& after == before.skip(woken.len() as int)
        }
}

/// What [`WaitQueue::notify_all`] does.
pub open spec fn woke_all<S, F: Fn(S, u128, usize) -> (S, bool)>(
    before: Seq<(u128, usize)>,
    scheduler: S,
    unblock: F,
    result: (usize, S),
) -> bool {
    exists|states: Seq<S>, woken: Seq<bool>| #[trigger]
        asked(unblock, before, states, woken) && {
            &&& states[0] == scheduler
            &&& states.last() == result.1
            &&& woken.len() == before.len()
            &&& result.0 == crate::search::count_true(woken)
        }
}

/// Asking the scheduler once more.
proof fn lemma_asked<S, F: Fn(S, u128, usize) -> (S, bool)>(
    unblock: F,
    waiters: Seq<(u128, usize)>,
    states: Seq<S>,
    woken: Seq<bool>,
    state: S,
    woke: bool,
)
    requires
        asked(unblock, waiters, states, woken),
        woken.len() < waiters.len(),
        call_ensures(
            unblock,
            (
                states.last(),
                waiters[woken.len() as int].0,
                waiters[woken.len() as int].1,
            ),
            (state, woke),
        ),
    ensures
        asked(unblock, waiters, states.push(state), woken.push(woke)),
{
    let all = woken.push(woke);
    let through = states.push(state);
    assert forall|i: int| #![trigger all[i]] 0 <= i < all.len() implies call_ensures(
        unblock,
        (through[i], waiters[i].0, waiters[i].1),
        (through[i + 1], all[i]),
    ) by {
        if i < woken.len() {
            assert(all[i] == woken[i]);
        }
    }
}

impl WaitQueue {
    /// The threads that wait.
    pub open spec fn waiters(self) -> Seq<(u128, usize)> {
        self.queue@
    }

    /// The queue in which no thread waits.
    pub fn new() -> (queue: WaitQueue)
        ensures
            queue.waiters() == Seq::<(u128, usize)>::empty(),
    {
        WaitQueue { queue: VecDeque::new() }
    }

    /// Enters a thread at the end.
    pub fn enter(&mut self, process: u128, thread: usize)
        ensures
            final(self).waiters() == old(self).waiters().push((process, thread)),
    {
        self.queue.push_back((process, thread));
    }

    /// Wakes exactly one waiter, the first that can be woken; those before it are gone, and those
    /// behind it stay. `unblock` asks the scheduler to wake a thread, and hands the scheduler on
    /// together with whether it did. Says whether there was one to wake.
    pub fn notify_one<S, F: Fn(S, u128, usize) -> (S, bool)>(&mut self, scheduler: S, unblock: F)
        -> (result: (bool, S))
        requires
            forall|states: Seq<S>, woken: Seq<bool>|
                #[trigger] asked(unblock, old(self).waiters(), states, woken) && states[0]
                    == scheduler && none_woken(woken) ==> accepts_next(
                    unblock,
                    old(self).waiters(),
                    states,
                    woken,
                ),
        ensures
            woke_one(old(self).waiters(), final(self).waiters(), scheduler, unblock, result),
    {
        let ghost all = self.waiters();
        let ghost mut states: Seq<S> = seq![scheduler];
        let ghost mut woken: Seq<bool> = Seq::empty();
        let mut current: S = scheduler;
        assert(asked(unblock, all, states, woken));
        while self.queue.len() > 0
            invariant
                forall|states: Seq<S>, woken: Seq<bool>|
                    #[trigger] asked(unblock, all, states, woken) && states[0] == scheduler
                        && none_woken(woken) ==> accepts_next(unblock, all, states, woken),
                all == old(self).waiters(),
                asked(unblock, all, states, woken),
                states[0] == scheduler,
                states.last() == current,
                none_woken(woken),
                self.queue@ == all.skip(woken.len() as int),
            decreases self.queue@.len(),
        {
            let (process, thread) = self.queue.pop_front().unwrap();
            assert((process, thread) == all[woken.len() as int]);
            assert(self.queue@ =~= all.skip(woken.len() as int + 1));
            assert(accepts_next(unblock, all, states, woken));
            let (next, woke) = unblock(current, process, thread);
            proof {
                lemma_asked(unblock, all, states, woken, next, woke);
                assert(woken.push(woke).drop_last() =~= woken);
                states = states.push(next);
                woken = woken.push(woke);
            }
            if woke {
                assert(asked(unblock, all, states, woken));
                return (true, next);
            }
            current = next;
        }
        assert(asked(unblock, all, states, woken));
        (false, current)
    }

    /// Wakes every waiter, the first one first, and says how many could be woken. `unblock` is
    /// that of [`WaitQueue::notify_one`].
    pub fn notify_all<S, F: Fn(S, u128, usize) -> (S, bool)>(&mut self, scheduler: S, unblock: F)
        -> (result: (usize, S))
        requires
            forall|states: Seq<S>, woken: Seq<bool>|
                #[trigger] asked(unblock, old(self).waiters(), states, woken) && states[0]
                    == scheduler ==> accepts_next(unblock, old(self).waiters(), states, woken),
        ensures
            final(self).waiters() == Seq::<(u128, usize)>::empty(),
            woke_all(old(self).waiters(), scheduler, unblock, result),
    {
        let ghost all = self.waiters();
        let ghost mut states: Seq<S> = seq![scheduler];
        let ghost mut woken: Seq<bool> = Seq::empty();
        let mut current: S = scheduler;
        let mut woke: usize = 0;
        let len: usize = self.queue.len();
        assert(asked(unblock, all, states, woken));
        while self.queue.len() > 0
            invariant
                forall|states: Seq<S>, woken: Seq<bool>|
                    #[trigger] asked(unblock, all, states, woken) && states[0] == scheduler
                        ==> accepts_next(unblock, all, states, woken),
                all == old(self).waiters(),
                all.len() == len,
                asked(unblock, all, states, woken),
                states[0] == scheduler,
                states.last() == current,
                self.queue@ == all.skip(woken.len() as int),
                woke <= woken.len(),
                woke == crate::search::count_true(woken),
            decreases self.queue@.len(),
        {
            let (process, thread) = self.queue.pop_front().unwrap();
            assert((process, thread) == all[woken.len() as int]);
            assert(self.queue@ =~= all.skip(woken.len() as int + 1));
            assert(accepts_next(unblock, all, states, woken));
            let (next, unblocked) = unblock(current, process, thread);
            proof {
                lemma_asked(unblock, all, states, woken, next, unblocked);
                assert(woken.push(unblocked).drop_last() =~= woken);
                states = states.push(next);
                woken = woken.push(unblocked);
            }
            if unblocked {
                woke = woke + 1;
            }
            current = next;
        }
        assert(asked(unblock, all, states, woken));
        (woke, current)
    }
}

/// A wait ends exactly when the predicate is true. A thread parks only once it has found the
/// predicate false with the queue locked, and looks at it again afterwards.
pub proof fn law_wait_ends_when_ready(state: WaitState, ready: bool)
    ensures
        next_step(state, ready).1 is Return <==> ready,
        next_step(state, ready).1 is Park ==> state is Locked && next_step(state, ready).0
            is Polling,
        !ready && state is Polling ==> next_step(state, ready).0 is Locked && next_step(
            state,
            ready,
        ).1 is Lock,
        !ready && state is Locked ==> next_step(state, ready).1 is Park,
{
}

/// Where every waiter can be woken, the one that has waited longest is, and the others go on
/// waiting; where none can be, none is left and none was woken.
pub proof fn law_first_waiter_is_woken<S, F: Fn(S, u128, usize) -> (S, bool)>(
    before: Seq<(u128, usize)>,
    after: Seq<(u128, usize)>,
    scheduler: S,
    unblock: F,
    result: (bool, S),
)
    requires
        woke_one(before, after, scheduler, unblock, result),
    ensures
        before.len() > 0 && (forall|s: S, p: u128, t: usize, r: (S, bool)|
            #[trigger] call_ensures(unblock, (s, p, t), r) ==> r.1) ==> {
            &&& result.0
            &&& after == before.skip(1)
            &&& call_ensures(unblock, (scheduler, before[0].0, before[0].1), (result.1, true))
        },
        (forall|s: S, p: u128, t: usize, r: (S, bool)|
            #[trigger] call_ensures(unblock, (s, p, t), r) ==> !r.1) ==> !result.0 && after.len()
            == 0,
        before.len() == 0 ==> !result.0 && result.1 == scheduler,
{
    let (states, woken) = choose|states: Seq<S>, woken: Seq<bool>| #[trigger]
        asked(unblock, before, states, woken) && {
            &&& states[0] == scheduler
            &&& states.last() == result.1
            &&& result.0 == (woken.len() > 0 && woken.last())
            &&& if result.0 {
                none_woken(woken.drop_last())
            } else {
                none_woken(woken) && woken.len() == before.len()
            }
            &&& after == before.skip(woken.len() as int)
        };
    assert forall|i: int| #![trigger woken[i]] 0 <= i < woken.len() implies call_ensures(
        unblock,
        (states[i], before[i].0, before[i].1),
        (states[i + 1], woken[i]),
    ) by {}
    if woken.len() > 0 {
        let first = woken[0];
        let last = woken[woken.len() - 1];
        assert(call_ensures(
            unblock,
            (states[0], before[0].0, before[0].1),
            (states[1], woken[0]),
        ));
        assert(call_ensures(
            unblock,
            (
                states[woken.len() - 1],
                before[woken.len() - 1].0,
                before[woken.len() - 1].1,
            ),
            (states[woken.len() as int], woken[woken.len() - 1]),
        ));
        if result.0 && woken.len() > 1 {
            assert(woken.drop_last()[0] == woken[0]);
        }
    }
}

/// Where every waiter can be woken, all of them are counted; where none can be, none is.
pub proof fn law_all_waiters_are_woken<S, F: Fn(S, u128, usize) -> (S, bool)>(
    before: Seq<(u128, usize)>,
    scheduler: S,
    unblock: F,
    result: (usize, S),
)
    requires
        woke_all(before, scheduler, unblock, result),
    ensures
        result.0 <= before.len(),
        (forall|s: S, p: u128, t: usize, r: (S, bool)|
            #[trigger] call_ensures(unblock, (s, p, t), r) ==> r.1) ==> result.0 == before.len(),
        (forall|s: S, p: u128, t: usize, r: (S, bool)|
            #[trigger] call_ensures(unblock, (s, p, t), r) ==> !r.1) ==> result.0 == 0,
{
    let (states, woken) = choose|states: Seq<S>, woken: Seq<bool>| #[trigger]
        asked(unblock, before, states, woken) && {
            &&& states[0] == scheduler
            &&& states.last() == result.1
            &&& woken.len() == before.len()
            &&& result.0 == crate::search::count_true(woken)
        };
    lemma_count(woken);
    assert forall|i: int| #![trigger woken[i]] 0 <= i < woken.len() implies call_ensures(
        unblock,
        (states[i], before[i].0, before[i].1),
        (states[i + 1], woken[i]),
    ) by {}
}

proof fn lemma_count(hits: Seq<bool>)
    ensures
        crate::search::count_true(hits) <= hits.len(),
        (forall|i: int| 0 <= i < hits.len() ==> #[trigger] hits[i]) ==> crate::search::count_true(
            hits,
        ) == hits.len(),
        (forall|i: int| 0 <= i < hits.len() ==> !#[trigger] hits[i]) ==> crate::search::count_true(
            hits,
        ) == 0,
    decreases hits.len(),
{
    if hits.len() > 0 {
        let rest = hits.drop_last();
        lemma_count(rest);
        assert forall|i: int| 0 <= i < rest.len() implies #[trigger] rest[i] == hits[i] by {}
        if forall|i: int| 0 <= i < hits.len() ==> #[trigger] hits[i] {
            assert(hits[hits.len() - 1]);
            assert forall|i: int| 0 <= i < rest.len() implies #[trigger] rest[i] by {
                assert(hits[i]);
            }
        }
        if forall|i: int| 0 <= i < hits.len() ==> !#[trigger] hits[i] {
            assert(!hits[hits.len() - 1]);
            assert forall|i: int| 0 <= i < rest.len() implies !#[trigger] rest[i] by {
                assert(!hits[i]);
            }
        }
    }
}

} // verus!
