//! Decisions of the tracer: rate limiting of traced threads, and the PID
//! namespace the tracer runs in.

pub mod assembler;
pub mod decode;
pub mod pid_namespace;

use crate::events::{EventData, TraceEvent};
use crate::utils::{find_key, lemma_find_key, DispatchKey, Dispatcher};
use vstd::prelude::*;

verus! {

/// What the rate limiter decides for an event.
#[derive(PartialEq, Eq, Clone, Copy, Debug, Structural)]
pub enum RateLimiterResult {
    /// The event can be processed.
    Allowed,
    /// The thread is already throttled.
    Throttled,
    /// The event exhausts the thread budget.
    Throttling,
    /// The first event after a throttled period.
    ThrottleRelease,
}

/// The events to forward for an event, given the decision of the rate
/// limiter: a throttling is announced after the event, a release before it.
pub open spec fn spec_events_to_send(r: RateLimiterResult, event: TraceEvent) -> Seq<TraceEvent> {
    match r {
        RateLimiterResult::Allowed => seq![event],
        RateLimiterResult::Throttled => Seq::empty(),
        RateLimiterResult::ThrottleRelease => seq![
            TraceEvent { ev: EventData::LimeThrottleRelease, ..event },
            event,
        ],
        RateLimiterResult::Throttling => seq![
            event,
            TraceEvent { ev: EventData::LimeThrottle, ..event },
        ],
    }
}

impl RateLimiterResult {
    /// The events to forward for `event`.
    pub fn events_to_send(&self, event: &TraceEvent) -> (r: Vec<TraceEvent>)
        ensures
            r@ == spec_events_to_send(*self, *event),
    {
        let mut ret: Vec<TraceEvent> = Vec::new();
        match self {
            RateLimiterResult::Allowed => ret.push(*event),
            RateLimiterResult::Throttled => {},
            RateLimiterResult::ThrottleRelease => {
                let mut e2 = *event;
                e2.ev = EventData::LimeThrottleRelease;
                ret.push(e2);
                ret.push(*event);
            },
            RateLimiterResult::Throttling => {
                let mut e2 = *event;
                e2.ev = EventData::LimeThrottle;
                ret.push(*event);
                ret.push(e2);
            },
        }
        proof {
            assert(ret@ =~= spec_events_to_send(*self, *event));
        }
        ret
    }
}

/// The event budget of one thread.
#[derive(PartialEq, Eq, Clone, Copy, Debug, Structural)]
pub struct InnerRateLimiter {
    pub budget: usize,
    pub curr_budget: usize,
    pub remaining_throttled_period: usize,
    pub replenished: bool,
    pub throttled: bool,
}

/// A fresh budget of `budget` events.
pub open spec fn spec_inner_new(budget: usize) -> InnerRateLimiter {
    InnerRateLimiter {
        budget,
        curr_budget: budget,
        remaining_throttled_period: 0,
        replenished: false,
        throttled: false,
    }
}

/// The state after a refresh, and whether the thread leaves the throttled
/// state (its entry in the kernel's throttle map is then deleted).
pub open spec fn spec_refresh(l: InnerRateLimiter) -> (InnerRateLimiter, bool) {
    if l.throttled {
        if l.remaining_throttled_period == 0 {
            (
                InnerRateLimiter {
                    curr_budget: l.budget,
                    replenished: true,
                    throttled: false,
                    ..l
                },
                true,
            )
        } else {
            (
                InnerRateLimiter {
                    remaining_throttled_period: (l.remaining_throttled_period - 1) as usize,
                    ..l
                },
                false,
            )
        }
    } else {
        (l, false)
    }
}

/// The state after taking a token, and the decision.
pub open spec fn spec_get_token(l: InnerRateLimiter) -> (InnerRateLimiter, RateLimiterResult) {
    if l.curr_budget == 0 {
        if !l.throttled {
            (
                InnerRateLimiter { throttled: true, remaining_throttled_period: 1, ..l },
                RateLimiterResult::Throttling,
            )
        } else {
            (l, RateLimiterResult::Throttled)
        }
    } else {
        let l1 = InnerRateLimiter { curr_budget: (l.curr_budget - 1) as usize, ..l };
        if l1.replenished {
            (InnerRateLimiter { replenished: false, ..l1 }, RateLimiterResult::ThrottleRelease)
        } else {
            (l1, RateLimiterResult::Allowed)
        }
    }
}

impl InnerRateLimiter {
    pub fn new(budget: usize) -> (r: Self)
        ensures
            r == spec_inner_new(budget),
    {
        Self {
            budget,
            curr_budget: budget,
            remaining_throttled_period: 0,
            replenished: false,
            throttled: false,
        }
    }

    /// Starts a new period; returns true when the thread leaves the
    /// throttled state.
    pub fn refresh(&mut self) -> (r: bool)
        ensures
            (*final(self), r) == spec_refresh(*old(self)),
    {
        if self.throttled {
            if self.remaining_throttled_period == 0 {
                self.curr_budget = self.budget;
                self.replenished = true;
                self.throttled = false;
                return true;
            } else {
                self.remaining_throttled_period -= 1;
            }
        }
        false
    }

    /// Takes a token for an event.
    pub fn get_token(&mut self) -> (r: RateLimiterResult)
        ensures
            (*final(self), r) == spec_get_token(*old(self)),
    {
        if self.curr_budget == 0 {
            if !self.throttled {
                self.throttled = true;
                self.remaining_throttled_period = 1;
                return RateLimiterResult::Throttling;
            }
            return RateLimiterResult::Throttled;
        }
        self.curr_budget -= 1;
        if self.replenished {
            self.replenished = false;
            return RateLimiterResult::ThrottleRelease;
        }
        RateLimiterResult::Allowed
    }
}

impl DispatchKey for u32 {
    fn same_key(&self, other: &Self) -> (r: bool) {
        *self == *other
    }
}

/// The event budgets of the traced threads, by thread id.
pub struct RateLimiter {
    budget: usize,
    buckets: Dispatcher<u32, InnerRateLimiter>,
}

impl RateLimiter {
    pub closed spec fn spec_budget(&self) -> usize {
        self.budget
    }

    /// The budget of each thread seen, in the order they came.
    pub closed spec fn buckets(&self) -> Seq<(u32, InnerRateLimiter)> {
        self.buckets.entries()
    }

    pub closed spec fn wf(&self) -> bool {
        self.buckets.wf()
    }

    pub fn new(budget: usize) -> (r: Self)
        ensures
            r.wf(),
            r.spec_budget() == budget,
            r.buckets() == Seq::<(u32, InnerRateLimiter)>::empty(),
    {
        Self { budget, buckets: Dispatcher::new() }
    }

    /// Starts a new period for every thread; returns the threads that leave
    /// the throttled state, in the order of their budgets.
    pub fn refresh(&mut self) -> (r: Vec<u32>)
        requires
            old(self).wf(),
        ensures
            final(self).wf(),
            final(self).spec_budget() == old(self).spec_budget(),
            final(self).buckets().len() == old(self).buckets().len(),
            forall|i: int|
                0 <= i < old(self).buckets().len() ==> (#[trigger] final(self).buckets()[i]) == (
                    old(self).buckets()[i].0,
                    spec_refresh(old(self).buckets()[i].1).0,
                ),
            r@ == old(self).buckets().filter(|e: (u32, InnerRateLimiter)| spec_refresh(e.1).1).map_values(
                |e: (u32, InnerRateLimiter)| e.0,
            ),
    {
        let ghost b0 = self.buckets.entries();
        let n = self.buckets.len();
        let mut released: Vec<u32> = Vec::new();
        let mut i: usize = 0;
        proof {
            assert(b0.take(0).filter(|e: (u32, InnerRateLimiter)| spec_refresh(e.1).1) =~= Seq::<(u32, InnerRateLimiter)>::empty());
        }
        while i < n
            invariant
                n == b0.len(),
                0 <= i <= n,
                self.budget == old(self).budget,
                self.buckets.wf(),
                self.buckets.entries().len() == n,
                forall|j: int| 0 <= j < i ==> (#[trigger] self.buckets.entries()[j]) == (
                    b0[j].0,
                    spec_refresh(b0[j].1).0,
                ),
                forall|j: int| i <= j < n ==> (#[trigger] self.buckets.entries()[j]) == b0[j],
                released@ == b0.take(i as int).filter(|e: (u32, InnerRateLimiter)| spec_refresh(e.1).1).map_values(
                    |e: (u32, InnerRateLimiter)| e.0,
                ),
            decreases n - i,
        {
            let pid = self.buckets.items()[i].0;
            let ghost before = self.buckets.entries();
            let l = self.buckets.value_at_mut(i);
            let release = l.refresh();
            proof {
                let t = b0.take(i + 1);
                assert(t.drop_last() == b0.take(i as int));
                assert(t.last() == b0[i as int]);
                assert(self.buckets.entries() == before.update(i as int, (before[i as int].0, spec_refresh(b0[i as int].1).0)));
            }
            if release {
                released.push(pid);
            }
            proof {
                let f = |e: (u32, InnerRateLimiter)| spec_refresh(e.1).1;
                let t = b0.take(i + 1);
                b0.take(i as int).lemma_filter_push(b0[i as int], f);
                assert(t =~= b0.take(i as int).push(b0[i as int]));
                if release {
                    assert(released@ =~= t.filter(f).map_values(|e: (u32, InnerRateLimiter)| e.0));
                } else {
                    assert(released@ =~= t.filter(f).map_values(|e: (u32, InnerRateLimiter)| e.0));
                }
            }
            i += 1;
        }
        proof {
            assert(b0.take(n as int) =~= b0);
        }
        released
    }

    /// Forgets the budget of thread `pid`.
    pub fn remove(&mut self, pid: u32)
        requires
            old(self).wf(),
        ensures
            final(self).wf(),
            final(self).spec_budget() == old(self).spec_budget(),
            find_key(old(self).buckets(), pid) < 0 ==> final(self).buckets() == old(self).buckets(),
            find_key(old(self).buckets(), pid) >= 0 ==> final(self).buckets() == old(
                self,
            ).buckets().remove(find_key(old(self).buckets(), pid)),
    {
        self.buckets.remove(&pid);
    }

    /// Takes a token of thread `pid`, starting with a full budget for a
    /// thread not seen yet.
    pub fn get_token(&mut self, pid: u32) -> (r: RateLimiterResult)
        requires
            old(self).wf(),
        ensures
            final(self).wf(),
            final(self).spec_budget() == old(self).spec_budget(),
            ({
                let i = find_key(old(self).buckets(), pid);
                let l = if i >= 0 {
                    old(self).buckets()[i].1
                } else {
                    spec_inner_new(old(self).spec_budget())
                };
                let (l2, res) = spec_get_token(l);
                &&& r == res
                &&& i >= 0 ==> final(self).buckets() == old(self).buckets().update(i, (pid, l2))
                &&& i < 0 ==> final(self).buckets() == old(self).buckets().push((pid, l2))
            }),
    {
        proof {
            lemma_find_key(self.buckets.entries(), pid);
        }
        match self.buckets.get_mut(&pid) {
            Some(l) => l.get_token(),
            None => {
                let mut l = InnerRateLimiter::new(self.budget);
                let r = l.get_token();
                self.buckets.insert_new(pid, l);
                r
            },
        }
    }

    /// The decision for `event`: the exit of a thread forgets its budget
    /// and lets the event through; other events take a token.
    pub fn is_block_listed(&mut self, event: &TraceEvent) -> (r: RateLimiterResult)
        requires
            old(self).wf(),
        ensures
            final(self).wf(),
            final(self).spec_budget() == old(self).spec_budget(),
            event.ev is SchedProcessExit ==> r == RateLimiterResult::Allowed && ({
                let i = find_key(old(self).buckets(), event.id.pid);
                &&& i < 0 ==> final(self).buckets() == old(self).buckets()
                &&& i >= 0 ==> final(self).buckets() == old(self).buckets().remove(i)
            }),
            !(event.ev is SchedProcessExit) ==> ({
                let i = find_key(old(self).buckets(), event.id.pid);
                let l = if i >= 0 {
                    old(self).buckets()[i].1
                } else {
                    spec_inner_new(old(self).spec_budget())
                };
                let (l2, res) = spec_get_token(l);
                &&& r == res
                &&& i >= 0 ==> final(self).buckets() == old(self).buckets().update(i, (event.id.pid, l2))
                &&& i < 0 ==> final(self).buckets() == old(self).buckets().push((event.id.pid, l2))
            }),
    {
        let pid = event.id.pid;
        if event.is_process_exit() {
            self.remove(pid);
            return RateLimiterResult::Allowed;
        }
        self.get_token(pid)
    }
}

/// Scheduling policies, as the kernel numbers them.
#[derive(PartialEq, Eq, Clone, Copy, Debug, Structural)]
pub enum SchedPolicy {
    SchedNormal,
    SchedFifo,
    SchedRr,
    SchedBatch,
    SchedIso,
    SchedIdle,
    SchedDeadline,
}

pub open spec fn spec_sched_policy_num(p: SchedPolicy) -> i32 {
    match p {
        SchedPolicy::SchedNormal => 0,
        SchedPolicy::SchedFifo => 1,
        SchedPolicy::SchedRr => 2,
        SchedPolicy::SchedBatch => 3,
        SchedPolicy::SchedIso => 4,
        SchedPolicy::SchedIdle => 5,
        SchedPolicy::SchedDeadline => 6,
    }
}

impl SchedPolicy {
    /// The kernel number of the policy.
    pub fn num(&self) -> (r: i32)
        ensures
            r == spec_sched_policy_num(*self),
    {
        match self {
            SchedPolicy::SchedNormal => 0,
            SchedPolicy::SchedFifo => 1,
            SchedPolicy::SchedRr => 2,
            SchedPolicy::SchedBatch => 3,
            SchedPolicy::SchedIso => 4,
            SchedPolicy::SchedIdle => 5,
            SchedPolicy::SchedDeadline => 6,
        }
    }
}

} // verus!
