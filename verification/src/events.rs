//! Traced events.

use crate::utils::ThreadId;
use vstd::prelude::*;

verus! {

/// Clock identifiers of `clock_nanosleep` and friends.
#[derive(PartialEq, Eq, Debug, Clone, Copy, Hash, Structural)]
pub enum ClockId {
    ClockRealtime,
    ClockMonotonic,
    ClockProcessCputimeId,
    ClockThreadCputimeId,
    ClockMonotonicRaw,
    ClockRealtimeCoarse,
    ClockMonotonicCoarse,
    ClockBoottime,
    ClockRealtimeAlarm,
    ClockBoottimeAlarm,
    ClockSgiCycle,
    ClockTai,
}

/// The clock that the kernel numbers `n`; unknown numbers map to the
/// real-time clock.
pub open spec fn clock_of_num(n: i32) -> ClockId {
    if n == 1 {
        ClockId::ClockMonotonic
    } else if n == 2 {
        ClockId::ClockProcessCputimeId
    } else if n == 3 {
        ClockId::ClockThreadCputimeId
    } else if n == 4 {
        ClockId::ClockMonotonicRaw
    } else if n == 5 {
        ClockId::ClockRealtimeCoarse
    } else if n == 6 {
        ClockId::ClockMonotonicCoarse
    } else if n == 7 {
        ClockId::ClockBoottime
    } else if n == 8 {
        ClockId::ClockRealtimeAlarm
    } else if n == 9 {
        ClockId::ClockBoottimeAlarm
    } else if n == 10 {
        ClockId::ClockSgiCycle
    } else if n == 11 {
        ClockId::ClockTai
    } else {
        ClockId::ClockRealtime
    }
}

/// The kernel number of a clock.
pub open spec fn num_of_clock(c: ClockId) -> i32 {
    match c {
        ClockId::ClockRealtime => 0,
        ClockId::ClockMonotonic => 1,
        ClockId::ClockProcessCputimeId => 2,
        ClockId::ClockThreadCputimeId => 3,
        ClockId::ClockMonotonicRaw => 4,
        ClockId::ClockRealtimeCoarse => 5,
        ClockId::ClockMonotonicCoarse => 6,
        ClockId::ClockBoottime => 7,
        ClockId::ClockRealtimeAlarm => 8,
        ClockId::ClockBoottimeAlarm => 9,
        ClockId::ClockSgiCycle => 10,
        ClockId::ClockTai => 11,
    }
}

/// The name of a clock, as its variant is written.
pub open spec fn spec_clock_name(c: ClockId) -> Seq<char> {
    match c {
        ClockId::ClockRealtime => "ClockRealtime"@,
        ClockId::ClockMonotonic => "ClockMonotonic"@,
        ClockId::ClockProcessCputimeId => "ClockProcessCputimeId"@,
        ClockId::ClockThreadCputimeId => "ClockThreadCputimeId"@,
        ClockId::ClockMonotonicRaw => "ClockMonotonicRaw"@,
        ClockId::ClockRealtimeCoarse => "ClockRealtimeCoarse"@,
        ClockId::ClockMonotonicCoarse => "ClockMonotonicCoarse"@,
        ClockId::ClockBoottime => "ClockBoottime"@,
        ClockId::ClockRealtimeAlarm => "ClockRealtimeAlarm"@,
        ClockId::ClockBoottimeAlarm => "ClockBoottimeAlarm"@,
        ClockId::ClockSgiCycle => "ClockSgiCycle"@,
        ClockId::ClockTai => "ClockTai"@,
    }
}

impl ClockId {
    /// The name of the clock, as its variant is written.
    pub fn name(&self) -> (r: &'static str)
        ensures
            r@ == spec_clock_name(*self),
    {
        match self {
            ClockId::ClockRealtime => "ClockRealtime",
            ClockId::ClockMonotonic => "ClockMonotonic",
            ClockId::ClockProcessCputimeId => "ClockProcessCputimeId",
            ClockId::ClockThreadCputimeId => "ClockThreadCputimeId",
            ClockId::ClockMonotonicRaw => "ClockMonotonicRaw",
            ClockId::ClockRealtimeCoarse => "ClockRealtimeCoarse",
            ClockId::ClockMonotonicCoarse => "ClockMonotonicCoarse",
            ClockId::ClockBoottime => "ClockBoottime",
            ClockId::ClockRealtimeAlarm => "ClockRealtimeAlarm",
            ClockId::ClockBoottimeAlarm => "ClockBoottimeAlarm",
            ClockId::ClockSgiCycle => "ClockSgiCycle",
            ClockId::ClockTai => "ClockTai",
        }
    }

    /// The clock numbered `value` by the kernel.
    pub fn from_num(value: i32) -> (r: ClockId)
        ensures
            r == clock_of_num(value),
    {
        match value {
            1 => ClockId::ClockMonotonic,
            2 => ClockId::ClockProcessCputimeId,
            3 => ClockId::ClockThreadCputimeId,
            4 => ClockId::ClockMonotonicRaw,
            5 => ClockId::ClockRealtimeCoarse,
            6 => ClockId::ClockMonotonicCoarse,
            7 => ClockId::ClockBoottime,
            8 => ClockId::ClockRealtimeAlarm,
            9 => ClockId::ClockBoottimeAlarm,
            10 => ClockId::ClockSgiCycle,
            11 => ClockId::ClockTai,
            _ => ClockId::ClockRealtime,
        }
    }

    /// The kernel number of the clock.
    pub fn num(&self) -> (r: i32)
        ensures
            r == num_of_clock(*self),
    {
        match self {
            ClockId::ClockRealtime => 0,
            ClockId::ClockMonotonic => 1,
            ClockId::ClockProcessCputimeId => 2,
            ClockId::ClockThreadCputimeId => 3,
            ClockId::ClockMonotonicRaw => 4,
            ClockId::ClockRealtimeCoarse => 5,
            ClockId::ClockMonotonicCoarse => 6,
            ClockId::ClockBoottime => 7,
            ClockId::ClockRealtimeAlarm => 8,
            ClockId::ClockBoottimeAlarm => 9,
            ClockId::ClockSgiCycle => 10,
            ClockId::ClockTai => 11,
        }
    }
}

/// Numbering a clock and reading the number back gives the same clock; a
/// number in `0..=11` survives the way back.
pub proof fn lemma_clock_num_roundtrip(c: ClockId, n: i32)
    ensures
        clock_of_num(num_of_clock(c)) == c,
        0 <= n <= 11 ==> num_of_clock(clock_of_num(n)) == n,
{
}

impl From<i32> for ClockId {
    fn from(value: i32) -> (r: ClockId) {
        ClockId::from_num(value)
    }
}

impl vstd::std_specs::convert::FromSpecImpl<i32> for ClockId {
    open spec fn obeys_from_spec() -> bool {
        true
    }

    open spec fn from_spec(value: i32) -> ClockId {
        clock_of_num(value)
    }
}

/// A scheduling policy with its parameters.
#[derive(PartialEq, Eq, Debug, Clone, Copy, Structural)]
pub enum SchedulingPolicy {
    Fifo { prio: u32 },
    RoundRobin { prio: u32 },
    Deadline { runtime: u64, period: u64, deadline: u64 },
    Other,
    Unknown,
}

pub const SCHED_FIFO: i32 = 1;

pub const SCHED_RR: i32 = 2;

pub const SCHED_DEADLINE: i32 = 6;

pub const SCHED_OTHER: i32 = 0;

pub const SCHED_UNKNOWN: i32 = -1;

pub open spec fn spec_policy_num(p: SchedulingPolicy) -> i32 {
    match p {
        SchedulingPolicy::Fifo { .. } => SCHED_FIFO,
        SchedulingPolicy::RoundRobin { .. } => SCHED_RR,
        SchedulingPolicy::Deadline { .. } => SCHED_DEADLINE,
        SchedulingPolicy::Other => SCHED_OTHER,
        SchedulingPolicy::Unknown => SCHED_UNKNOWN,
    }
}

/// The policy described by the fields of a kernel `sched_attr`.
pub open spec fn spec_policy_from_attr(
    policy: i32,
    priority: u32,
    runtime: u64,
    period: u64,
    deadline: u64,
) -> SchedulingPolicy {
    if policy == SCHED_FIFO {
        SchedulingPolicy::Fifo { prio: priority }
    } else if policy == SCHED_RR {
        SchedulingPolicy::RoundRobin { prio: priority }
    } else if policy == SCHED_DEADLINE {
        SchedulingPolicy::Deadline { runtime, period, deadline }
    } else {
        SchedulingPolicy::Other
    }
}

impl SchedulingPolicy {
    /// The kernel number of the policy, `-1` when it is unknown.
    pub fn policy_num(&self) -> (r: i32)
        ensures
            r == spec_policy_num(*self),
    {
        match self {
            SchedulingPolicy::Fifo { .. } => SCHED_FIFO,
            SchedulingPolicy::RoundRobin { .. } => SCHED_RR,
            SchedulingPolicy::Deadline { .. } => SCHED_DEADLINE,
            SchedulingPolicy::Other => SCHED_OTHER,
            SchedulingPolicy::Unknown => SCHED_UNKNOWN,
        }
    }

    /// True for the real-time policies: FIFO, round-robin and deadline.
    pub fn is_rt_policy(&self) -> (r: bool)
        ensures
            r == (*self is Fifo || *self is RoundRobin || *self is Deadline),
    {
        match self {
            SchedulingPolicy::Fifo { .. } => true,
            SchedulingPolicy::RoundRobin { .. } => true,
            SchedulingPolicy::Deadline { .. } => true,
            _ => false,
        }
    }

    /// True if both policies are of the same kind; the parameters of the
    /// real-time policies are not compared.
    pub fn same_policy(&self, other: &SchedulingPolicy) -> (r: bool)
        ensures
            r == (spec_policy_num(*self) == spec_policy_num(*other)),
    {
        match self {
            SchedulingPolicy::Fifo { .. } => matches!(other, SchedulingPolicy::Fifo { .. }),
            SchedulingPolicy::RoundRobin { .. } => matches!(other, SchedulingPolicy::RoundRobin { .. }),
            SchedulingPolicy::Deadline { .. } => matches!(other, SchedulingPolicy::Deadline { .. }),
            _ => *self == *other,
        }
    }

    /// Builds a policy from the fields of a kernel `sched_attr`.
    pub fn from_attr(policy: i32, priority: u32, runtime: u64, period: u64, deadline: u64) -> (r:
        SchedulingPolicy)
        ensures
            r == spec_policy_from_attr(policy, priority, runtime, period, deadline),
    {
        if policy == SCHED_FIFO {
            SchedulingPolicy::Fifo { prio: priority }
        } else if policy == SCHED_RR {
            SchedulingPolicy::RoundRobin { prio: priority }
        } else if policy == SCHED_DEADLINE {
            SchedulingPolicy::Deadline { runtime, period, deadline }
        } else {
            SchedulingPolicy::Other
        }
    }
}

/// A traced event.
#[derive(Debug, Eq, PartialEq, Clone, Copy)]
pub struct TraceEvent {
    pub ts: u64,
    pub id: ThreadId,
    pub ev: EventData,
}

/// Event-specific data.
#[allow(inconsistent_fields)]
#[derive(Debug, Eq, PartialEq, Clone, Copy, Structural)]
pub enum EventData {
    SchedWakeUp { cpu: u32 },
    SchedWakeUpNew { cpu: u32 },
    SchedWaking { cpu: u32 },
    SchedSwitchedIn { cpu: u32, prio: u32, preempt: bool },
    SchedSwitchedOut { cpu: u32, prio: u32, state: u32 },
    SchedMigrateTask { dest_cpu: u32 },
    /// Emitted on blocking system call exit. Always paired with a preceding
    /// system call entry.
    ExitArrivalSite { ret: i32 },
    EnterClockNanoSleep { clock_id: ClockId, abs_time: bool, required_ns: i64 },
    EnterSelect { inp: u64, timeout_usec: i64, tvp_null: bool },
    EnterPselect6 { inp: u64, timeout_nsec: i64, tsp_null: bool },
    EnterPoll { pfds: u64, timeout_nsec: i64 },
    EnterEpollPWait { epfd: u32 },
    SchedSetScheduler { policy: u32, prio: u32 },
    EnterReadSock { fd: u32 },
    EnterReadFifo { fd: u32 },
    EnterReadBlk { fd: u32 },
    EnterReadChr { fd: u32 },
    EnterAccept { sock_fd: u32 },
    EnterFutex { uaddr: u64, op: u32 },
    EnterSigTimedWait {},
    EnterRtSigreturn {},
    EnterNanosleep { required_ns: i64 },
    EnterPause {},
    EnterRtSigsuspend {},
    EnterMqTimedreceive { mqd: i32 },
    RtSigDelivered { signo: i32, si_code: i32 },
    EnterRecv { sock_fd: i32 },
    EnterRecvfrom { sock_fd: i32 },
    EnterRecvmsg { sock_fd: i32 },
    EnterRecvmmsg { sock_fd: i32 },
    EnterMsgrcv { msqid: i32 },
    EnterSchedYield {},
    EnterDlTimer { expires: u64 },
    EnterSetScheduler { old_policy_num: i32, sched_policy: SchedulingPolicy },
    EnterSemop { sem_id: i32, timeout: u64 },
    /// Emitted when exiting a scheduler change system call.
    RawSchedulerChange,
    /// Last event emitted by a task on scheduler change.
    SchedulerChange { sched_policy: SchedulingPolicy },
    /// Emitted on scheduler change failure.
    SchedulerChangeFailed,
    /// First event emitted by a task created after a successful scheduler change.
    SchedulerChanged { sched_policy: SchedulingPolicy },
    SchedParamsChange { sched_policy: SchedulingPolicy },
    SchedParamsChanged { sched_policy: SchedulingPolicy },
    SchedProcessExit,
    SchedProcessFork { sched_policy: SchedulingPolicy },
    SchedProcessExec,
    EnterSchedSetAffinity,
    /// Last event emitted by a task on processor affinity change.
    AffinityChange,
    AffinityChangeFailed,
    /// First event emitted by a task created after a successful affinity change.
    AffinityChanged,
    LimeThrottle,
    LimeThrottleRelease,
    LimeStartOfTrace,
    LimeEndOfTrace,
}

/// The events that open a blocking system call.
pub open spec fn spec_is_syscall_entry(ev: EventData) -> bool {
    ||| ev is EnterAccept
    ||| ev is EnterClockNanoSleep
    ||| ev is EnterFutex
    ||| ev is EnterPoll
    ||| ev is EnterReadBlk
    ||| ev is EnterReadChr
    ||| ev is EnterReadFifo
    ||| ev is EnterReadSock
    ||| ev is EnterSelect
    ||| ev is EnterPselect6
    ||| ev is EnterEpollPWait
    ||| ev is EnterSigTimedWait
    ||| ev is EnterNanosleep
    ||| ev is EnterPause
    ||| ev is EnterRtSigsuspend
    ||| ev is EnterMqTimedreceive
    ||| ev is EnterRecv
    ||| ev is EnterRecvfrom
    ||| ev is EnterRecvmsg
    ||| ev is EnterRecvmmsg
    ||| ev is EnterMsgrcv
    ||| ev is EnterSemop
}

/// A switch-out with a non-zero task state: the thread suspends itself.
pub open spec fn spec_is_suspension(ev: EventData) -> bool {
    match ev {
        EventData::SchedSwitchedOut { state, .. } => state != 0,
        _ => false,
    }
}

impl TraceEvent {
    /// The pseudo-event opening a trace.
    pub open spec fn spec_start_of_trace() -> Self {
        TraceEvent { ts: 0, id: ThreadId { pid: 0, tgid: 0 }, ev: EventData::LimeStartOfTrace }
    }

    pub fn start_of_trace() -> (r: Self)
        ensures
            r == Self::spec_start_of_trace(),
    {
        Self { ts: 0, id: ThreadId { pid: 0, tgid: 0 }, ev: EventData::LimeStartOfTrace }
    }

    pub fn is_syscall_entry(&self) -> (r: bool)
        ensures
            r == spec_is_syscall_entry(self.ev),
    {
        match self.ev {
            EventData::EnterAccept { .. } | EventData::EnterClockNanoSleep { .. }
            | EventData::EnterFutex { .. } | EventData::EnterPoll { .. }
            | EventData::EnterReadBlk { .. } | EventData::EnterReadChr { .. }
            | EventData::EnterReadFifo { .. } | EventData::EnterReadSock { .. }
            | EventData::EnterSelect { .. } | EventData::EnterPselect6 { .. }
            | EventData::EnterEpollPWait { .. } | EventData::EnterSigTimedWait { .. }
            | EventData::EnterNanosleep { .. } | EventData::EnterPause {}
            | EventData::EnterRtSigsuspend {} | EventData::EnterMqTimedreceive { .. }
            | EventData::EnterRecv { .. } | EventData::EnterRecvfrom { .. }
            | EventData::EnterRecvmsg { .. } | EventData::EnterRecvmmsg { .. }
            | EventData::EnterMsgrcv { .. } | EventData::EnterSemop { .. } => true,
            _ => false,
        }
    }

    pub fn is_suspension(&self) -> (r: bool)
        ensures
            r == spec_is_suspension(self.ev),
    {
        match self.ev {
            EventData::SchedSwitchedOut { state, .. } => state != 0,
            _ => false,
        }
    }

    pub fn is_wakeup(&self) -> (r: bool)
        ensures
            r == (self.ev is SchedWakeUp),
    {
        match self.ev {
            EventData::SchedWakeUp { .. } => true,
            _ => false,
        }
    }

    pub fn is_rt_sigreturn(&self) -> (r: bool)
        ensures
            r == (self.ev is EnterRtSigreturn),
    {
        match self.ev {
            EventData::EnterRtSigreturn {} => true,
            _ => false,
        }
    }

    pub fn is_dl_timer(&self) -> (r: bool)
        ensures
            r == (self.ev is EnterDlTimer),
    {
        match self.ev {
            EventData::EnterDlTimer { .. } => true,
            _ => false,
        }
    }

    pub fn is_process_exit(&self) -> (r: bool)
        ensures
            r == (self.ev is SchedProcessExit),
    {
        match self.ev {
            EventData::SchedProcessExit => true,
            _ => false,
        }
    }
}

} // verus!
