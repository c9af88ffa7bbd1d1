//! Decoding of the records that the kernel side of the tracer emits into
//! trace events.

use crate::events::{
    clock_of_num, spec_policy_from_attr, ClockId, EventData, SchedulingPolicy, TraceEvent,
};
use crate::utils::ThreadId;
use vstd::prelude::*;

verus! {

/// The scheduling attributes a record carries: the previous policy, the
/// new one, and its real-time priority and deadline parameters.
#[derive(Debug, Clone, Copy, PartialEq, Eq, Structural)]
pub struct RawSchedAttr {
    pub old_policy: i32,
    pub policy: i32,
    pub rt_prio: u32,
    pub dl_runtime: u64,
    pub dl_period: u64,
    pub dl_deadline: u64,
}

/// A record of the kernel side, one variant per kind, with the integers it
/// carries. Times are split in seconds and a sub-second part, as the system
/// calls take them.
#[derive(Debug, Clone, Copy, PartialEq, Eq, Structural)]
pub enum RawEventRecord {
    ExitArrivalSite { ret: i32 },
    EnterClockNanosleep { clock_id: i32, abs_time: bool, rq_sec: i64, rq_nsec: i64 },
    EnterSelect { inp: u64, tv_sec: i64, tv_usec: i64, tvp_null: bool },
    EnterPselect6 { inp: u64, tv_sec: i64, tv_nsec: i64, tsp_null: bool },
    SchedWakeup { cpu: u32 },
    SchedWakeupNew { cpu: u32 },
    SchedWaking { cpu: u32 },
    SchedSchedule { cpu: u32, prio: u32, preempt: u32 },
    SchedDeschedule { cpu: u32, prio: u32, state: u32 },
    SchedMigrateTask { dest_cpu: u32 },
    EnterPoll { pfds: u64, timeout_msecs: i32 },
    EnterPpoll { pfds: u64, tv_sec: i64, tv_nsec: i64 },
    EnterEpollPwait { epfd: i32 },
    EnterReadSock { fd: i32 },
    EnterReadFifo { fd: i32 },
    EnterReadBlk { fd: i32 },
    EnterReadChr { fd: i32 },
    EnterAccept { sock_fd: i32 },
    EnterFutex { word_addr: u64, op: u32 },
    EnterRtSigtimedwait,
    EnterRtSigreturn,
    DeliverRtSignal { signo: i32, si_code: i32 },
    EnterNanosleep { rq_sec: i64, rq_nsec: i64 },
    EnterPause,
    EnterRtSigsuspend,
    EnterMqTimedreceive { mqd: i32 },
    EnterRecv { sock_fd: i32 },
    EnterRecvfrom { sock_fd: i32 },
    EnterRecvmsg { sock_fd: i32 },
    EnterRecvmmsg { sock_fd: i32 },
    EnterMsgrcv { msqid: i32 },
    EnterSchedSetattr { attr: RawSchedAttr },
    EnterSchedSetscheduler { attr: RawSchedAttr },
    EnterSchedYield,
    EnterDlTimer { expires: u64 },
    EnterSemop { sem_id: i32, timeout: u64 },
    SchedProcessFork { attr: RawSchedAttr },
    SchedProcessExit,
    SchedProcessExec,
    EnterSchedSetaffinity,
    SchedAffinityChange,
    SchedAffinityChangeFailed,
    SchedSchedulerChange,
    SchedSchedulerChangeFailed,
}

/// Whether `x` fits in an `i64`.
pub open spec fn fits_i64(x: int) -> bool {
    i64::MIN <= x <= i64::MAX
}

/// The length of `x` in bits: 0 for 0.
pub open spec fn bit_len(x: nat) -> nat
    decreases x,
{
    if x == 0 {
        0
    } else {
        1 + bit_len(x / 2)
    }
}

/// The index of a task state among the kernel's state bits, counted from
/// 1: the position of its highest bit among the low seven, or 8 for an
/// idle task (`0x402`), and 0 when none is set.
pub open spec fn spec_task_state_index(state: u32) -> u32 {
    let s: u32 = if state == 0x402 {
        0x80
    } else {
        state & 0x7f
    };
    bit_len(s as nat) as u32
}

/// The state a switch-out reports: the single bit of the state's index, or
/// the state itself when it has no index.
pub open spec fn spec_switch_prev_state(state: u32) -> u32 {
    let idx = spec_task_state_index(state);
    if idx == 0 {
        state
    } else {
        1u32 << ((idx - 1) as u32)
    }
}

/// A time given in seconds and a sub-second part, in units of which a
/// second holds `per_sec`.
pub open spec fn split_time(sec: i64, sub: i64, per_sec: int) -> int {
    sec * per_sec + sub
}

/// A split time that fits in `i64`, on the way and at the end.
pub open spec fn split_time_fits(sec: i64, sub: i64, per_sec: int) -> bool {
    fits_i64(sec * per_sec) && fits_i64(split_time(sec, sub, per_sec))
}

/// What decoding needs of a record: its times fit in `i64`, its clock is
/// one the kernel numbers, and an epoll descriptor is not negative.
pub open spec fn spec_decodable(raw: RawEventRecord) -> bool {
    match raw {
        RawEventRecord::EnterClockNanosleep { clock_id, rq_sec, rq_nsec, .. } => 0 <= clock_id <= 11
            && split_time_fits(rq_sec, rq_nsec, 1_000_000_000),
        RawEventRecord::EnterNanosleep { rq_sec, rq_nsec } => split_time_fits(rq_sec, rq_nsec, 1_000_000_000),
        RawEventRecord::EnterSelect { tv_sec, tv_usec, .. } => split_time_fits(tv_sec, tv_usec, 1_000_000),
        RawEventRecord::EnterPselect6 { tv_sec, tv_nsec, .. } => split_time_fits(tv_sec, tv_nsec, 1_000_000_000),
        RawEventRecord::EnterPpoll { tv_sec, tv_nsec, .. } => split_time_fits(tv_sec, tv_nsec, 1_000_000_000),
        RawEventRecord::EnterEpollPwait { epfd } => epfd >= 0,
        _ => true,
    }
}

/// The policy that scheduling attributes describe.
pub open spec fn spec_policy_of(attr: RawSchedAttr) -> SchedulingPolicy {
    spec_policy_from_attr(attr.policy, attr.rt_prio, attr.dl_runtime, attr.dl_period, attr.dl_deadline)
}

/// The event data of a record: times joined in nanoseconds (microseconds
/// for `select`), a poll timeout in milliseconds turned into nanoseconds
/// unless negative, the switch-out state through `spec_switch_prev_state`,
/// descriptors read as unsigned, and policies from their attributes.
pub open spec fn spec_event_data_of(raw: RawEventRecord) -> EventData {
    match raw {
        RawEventRecord::ExitArrivalSite { ret } => EventData::ExitArrivalSite { ret },
        RawEventRecord::EnterClockNanosleep { clock_id, abs_time, rq_sec, rq_nsec } => EventData::EnterClockNanoSleep {
            clock_id: clock_of_num(clock_id),
            abs_time,
            required_ns: split_time(rq_sec, rq_nsec, 1_000_000_000) as i64,
        },
        RawEventRecord::EnterSelect { inp, tv_sec, tv_usec, tvp_null } => EventData::EnterSelect {
            inp,
            timeout_usec: split_time(tv_sec, tv_usec, 1_000_000) as i64,
            tvp_null,
        },
        RawEventRecord::EnterPselect6 { inp, tv_sec, tv_nsec, tsp_null } => EventData::EnterPselect6 {
            inp,
            timeout_nsec: split_time(tv_sec, tv_nsec, 1_000_000_000) as i64,
            tsp_null,
        },
        RawEventRecord::SchedWakeup { cpu } => EventData::SchedWakeUp { cpu },
        RawEventRecord::SchedWakeupNew { cpu } => EventData::SchedWakeUpNew { cpu },
        RawEventRecord::SchedWaking { cpu } => EventData::SchedWaking { cpu },
        RawEventRecord::SchedSchedule { cpu, prio, preempt } => EventData::SchedSwitchedIn {
            cpu,
            prio,
            preempt: preempt != 0,
        },
        RawEventRecord::SchedDeschedule { cpu, prio, state } => EventData::SchedSwitchedOut {
            cpu,
            prio,
            state: spec_switch_prev_state(state),
        },
        RawEventRecord::SchedMigrateTask { dest_cpu } => EventData::SchedMigrateTask { dest_cpu },
        RawEventRecord::EnterPoll { pfds, timeout_msecs } => EventData::EnterPoll {
            pfds,
            timeout_nsec: if timeout_msecs < 0 {
                timeout_msecs as i64
            } else {
                (timeout_msecs * 1_000_000) as i64
            },
        },
        RawEventRecord::EnterPpoll { pfds, tv_sec, tv_nsec } => EventData::EnterPoll {
            pfds,
            timeout_nsec: split_time(tv_sec, tv_nsec, 1_000_000_000) as i64,
        },
        RawEventRecord::EnterEpollPwait { epfd } => EventData::EnterEpollPWait { epfd: epfd as u32 },
        RawEventRecord::EnterReadSock { fd } => EventData::EnterReadSock { fd: fd as u32 },
        RawEventRecord::EnterReadFifo { fd } => EventData::EnterReadFifo { fd: fd as u32 },
        RawEventRecord::EnterReadBlk { fd } => EventData::EnterReadBlk { fd: fd as u32 },
        RawEventRecord::EnterReadChr { fd } => EventData::EnterReadChr { fd: fd as u32 },
        RawEventRecord::EnterAccept { sock_fd } => EventData::EnterAccept { sock_fd: sock_fd as u32 },
        RawEventRecord::EnterFutex { word_addr, op } => EventData::EnterFutex { uaddr: word_addr, op },
        RawEventRecord::EnterRtSigtimedwait => EventData::EnterSigTimedWait {  },
        RawEventRecord::EnterRtSigreturn => EventData::EnterRtSigreturn {  },
        RawEventRecord::DeliverRtSignal { signo, si_code } => EventData::RtSigDelivered { signo, si_code },
        RawEventRecord::EnterNanosleep { rq_sec, rq_nsec } => EventData::EnterNanosleep {
            required_ns: split_time(rq_sec, rq_nsec, 1_000_000_000) as i64,
        },
        RawEventRecord::EnterPause => EventData::EnterPause {  },
        RawEventRecord::EnterRtSigsuspend => EventData::EnterRtSigsuspend {  },
        RawEventRecord::EnterMqTimedreceive { mqd } => EventData::EnterMqTimedreceive { mqd },
        RawEventRecord::EnterRecv { sock_fd } => EventData::EnterRecv { sock_fd },
        RawEventRecord::EnterRecvfrom { sock_fd } => EventData::EnterRecvfrom { sock_fd },
        RawEventRecord::EnterRecvmsg { sock_fd } => EventData::EnterRecvmsg { sock_fd },
        RawEventRecord::EnterRecvmmsg { sock_fd } => EventData::EnterRecvmmsg { sock_fd },
        RawEventRecord::EnterMsgrcv { msqid } => EventData::EnterMsgrcv { msqid },
        RawEventRecord::EnterSchedSetattr { attr } | RawEventRecord::EnterSchedSetscheduler { attr } =>
            EventData::EnterSetScheduler { old_policy_num: attr.old_policy, sched_policy: spec_policy_of(attr) },
        RawEventRecord::EnterSchedYield => EventData::EnterSchedYield {  },
        RawEventRecord::EnterDlTimer { expires } => EventData::EnterDlTimer { expires },
        RawEventRecord::EnterSemop { sem_id, timeout } => EventData::EnterSemop { sem_id, timeout },
        RawEventRecord::SchedProcessFork { attr } => EventData::SchedProcessFork { sched_policy: spec_policy_of(attr) },
        RawEventRecord::SchedProcessExit => EventData::SchedProcessExit,
        RawEventRecord::SchedProcessExec => EventData::SchedProcessExec,
        RawEventRecord::EnterSchedSetaffinity => EventData::EnterSchedSetAffinity,
        RawEventRecord::SchedAffinityChange => EventData::AffinityChange,
        RawEventRecord::SchedAffinityChangeFailed => EventData::AffinityChangeFailed,
        RawEventRecord::SchedSchedulerChange => EventData::RawSchedulerChange,
        RawEventRecord::SchedSchedulerChangeFailed => EventData::SchedulerChangeFailed,
    }
}

proof fn lemma_bit_len_mono(x: nat, m: nat)
    requires
        x <= m,
    ensures
        bit_len(x) <= bit_len(m),
    decreases m,
{
    if x > 0 {
        lemma_bit_len_mono(x / 2, m / 2);
    }
}

/// The index of a task state among the kernel's state bits: see
/// `spec_task_state_index`.
pub fn task_state_index(state: u32) -> (r: u32)
    ensures
        r == spec_task_state_index(state),
        r <= 8,
{
    let s: u32 = if state == 0x402 {
        0x80
    } else {
        state & 0x7f
    };
    proof {
        assert(state & 0x7f <= 0x7f) by (bit_vector);
        lemma_bit_len_mono(s as nat, 0x80);
        reveal_with_fuel(bit_len, 9);
        assert(bit_len(0x80) == 8);
    }
    let mut x: u32 = s;
    let mut n: u32 = 0;
    while x > 0
        invariant
            n + bit_len(x as nat) == bit_len(s as nat),
            bit_len(s as nat) <= 8,
        decreases x,
    {
        x = x / 2;
        n += 1;
    }
    n
}

/// The state a switch-out reports: see `spec_switch_prev_state`.
pub fn switch_prev_state(state: u32) -> (r: u32)
    ensures
        r == spec_switch_prev_state(state),
        r == (if spec_task_state_index(state) == 0 {
            state
        } else {
            1u32 << ((spec_task_state_index(state) - 1) as u32)
        }),
{
    let idx = task_state_index(state);
    if idx == 0 {
        return state;
    }
    1u32 << (idx - 1)
}

/// Whether a record can be decoded: see `spec_decodable`.
pub fn decodable(raw: &RawEventRecord) -> (r: bool)
    ensures
        r == spec_decodable(*raw),
{
    match *raw {
        RawEventRecord::EnterClockNanosleep { clock_id, rq_sec, rq_nsec, .. } => 0 <= clock_id && clock_id
            <= 11 && split_time_ok(rq_sec, rq_nsec, 1_000_000_000),
        RawEventRecord::EnterNanosleep { rq_sec, rq_nsec } => split_time_ok(rq_sec, rq_nsec, 1_000_000_000),
        RawEventRecord::EnterSelect { tv_sec, tv_usec, .. } => split_time_ok(tv_sec, tv_usec, 1_000_000),
        RawEventRecord::EnterPselect6 { tv_sec, tv_nsec, .. } => split_time_ok(tv_sec, tv_nsec, 1_000_000_000),
        RawEventRecord::EnterPpoll { tv_sec, tv_nsec, .. } => split_time_ok(tv_sec, tv_nsec, 1_000_000_000),
        RawEventRecord::EnterEpollPwait { epfd } => epfd >= 0,
        _ => true,
    }
}

fn split_time_ok(sec: i64, sub: i64, per_sec: i64) -> (r: bool)
    ensures
        r == split_time_fits(sec, sub, per_sec as int),
{
    match sec.checked_mul(per_sec) {
        Some(p) => p.checked_add(sub).is_some(),
        None => false,
    }
}

fn join_time(sec: i64, sub: i64, per_sec: i64) -> (r: i64)
    requires
        split_time_fits(sec, sub, per_sec as int),
    ensures
        r == split_time(sec, sub, per_sec as int),
{
    let mut t: i64 = 0;
    t += sec * per_sec;
    t += sub;
    t
}

fn policy_of(attr: &RawSchedAttr) -> (r: SchedulingPolicy)
    ensures
        r == spec_policy_of(*attr),
{
    SchedulingPolicy::from_attr(attr.policy, attr.rt_prio, attr.dl_runtime, attr.dl_period, attr.dl_deadline)
}

/// The event data of a record: see `spec_event_data_of`.
pub fn event_data_of(raw: &RawEventRecord) -> (r: EventData)
    requires
        spec_decodable(*raw),
    ensures
        r == spec_event_data_of(*raw),
{
    match *raw {
        RawEventRecord::ExitArrivalSite { ret } => EventData::ExitArrivalSite { ret },
        RawEventRecord::EnterClockNanosleep { clock_id, abs_time, rq_sec, rq_nsec } => EventData::EnterClockNanoSleep {
            clock_id: ClockId::from_num(clock_id),
            abs_time,
            required_ns: join_time(rq_sec, rq_nsec, 1_000_000_000),
        },
        RawEventRecord::EnterSelect { inp, tv_sec, tv_usec, tvp_null } => EventData::EnterSelect {
            inp,
            timeout_usec: join_time(tv_sec, tv_usec, 1_000_000),
            tvp_null,
        },
        RawEventRecord::EnterPselect6 { inp, tv_sec, tv_nsec, tsp_null } => EventData::EnterPselect6 {
            inp,
            timeout_nsec: join_time(tv_sec, tv_nsec, 1_000_000_000),
            tsp_null,
        },
        RawEventRecord::SchedWakeup { cpu } => EventData::SchedWakeUp { cpu },
        RawEventRecord::SchedWakeupNew { cpu } => EventData::SchedWakeUpNew { cpu },
        RawEventRecord::SchedWaking { cpu } => EventData::SchedWaking { cpu },
        RawEventRecord::SchedSchedule { cpu, prio, preempt } => EventData::SchedSwitchedIn {
            cpu,
            prio,
            preempt: preempt != 0,
        },
        RawEventRecord::SchedDeschedule { cpu, prio, state } => EventData::SchedSwitchedOut {
            cpu,
            prio,
            state: switch_prev_state(state),
        },
        RawEventRecord::SchedMigrateTask { dest_cpu } => EventData::SchedMigrateTask { dest_cpu },
        RawEventRecord::EnterPoll { pfds, timeout_msecs } => {
            let t = timeout_msecs as i64;
            EventData::EnterPoll { pfds, timeout_nsec: if t < 0 { t } else { t * 1_000_000 } }
        },
        RawEventRecord::EnterPpoll { pfds, tv_sec, tv_nsec } => EventData::EnterPoll {
            pfds,
            timeout_nsec: join_time(tv_sec, tv_nsec, 1_000_000_000),
        },
        RawEventRecord::EnterEpollPwait { epfd } => EventData::EnterEpollPWait { epfd: epfd as u32 },
        RawEventRecord::EnterReadSock { fd } => EventData::EnterReadSock { fd: fd as u32 },
        RawEventRecord::EnterReadFifo { fd } => EventData::EnterReadFifo { fd: fd as u32 },
        RawEventRecord::EnterReadBlk { fd } => EventData::EnterReadBlk { fd: fd as u32 },
        RawEventRecord::EnterReadChr { fd } => EventData::EnterReadChr { fd: fd as u32 },
        RawEventRecord::EnterAccept { sock_fd } => EventData::EnterAccept { sock_fd: sock_fd as u32 },
        RawEventRecord::EnterFutex { word_addr, op } => EventData::EnterFutex { uaddr: word_addr, op },
        RawEventRecord::EnterRtSigtimedwait => EventData::EnterSigTimedWait {  },
        RawEventRecord::EnterRtSigreturn => EventData::EnterRtSigreturn {  },
        RawEventRecord::DeliverRtSignal { signo, si_code } => EventData::RtSigDelivered { signo, si_code },
        RawEventRecord::EnterNanosleep { rq_sec, rq_nsec } => EventData::EnterNanosleep {
            required_ns: join_time(rq_sec, rq_nsec, 1_000_000_000),
        },
        RawEventRecord::EnterPause => EventData::EnterPause {  },
        RawEventRecord::EnterRtSigsuspend => EventData::EnterRtSigsuspend {  },
        RawEventRecord::EnterMqTimedreceive { mqd } => EventData::EnterMqTimedreceive { mqd },
        RawEventRecord::EnterRecv { sock_fd } => EventData::EnterRecv { sock_fd },
        RawEventRecord::EnterRecvfrom { sock_fd } => EventData::EnterRecvfrom { sock_fd },
        RawEventRecord::EnterRecvmsg { sock_fd } => EventData::EnterRecvmsg { sock_fd },
        RawEventRecord::EnterRecvmmsg { sock_fd } => EventData::EnterRecvmmsg { sock_fd },
        RawEventRecord::EnterMsgrcv { msqid } => EventData::EnterMsgrcv { msqid },
        RawEventRecord::EnterSchedSetattr { attr } | RawEventRecord::EnterSchedSetscheduler { attr } =>
            EventData::EnterSetScheduler { old_policy_num: attr.old_policy, sched_policy: policy_of(&attr) },
        RawEventRecord::EnterSchedYield => EventData::EnterSchedYield {  },
        RawEventRecord::EnterDlTimer { expires } => EventData::EnterDlTimer { expires },
        RawEventRecord::EnterSemop { sem_id, timeout } => EventData::EnterSemop { sem_id, timeout },
        RawEventRecord::SchedProcessFork { attr } => EventData::SchedProcessFork { sched_policy: policy_of(&attr) },
        RawEventRecord::SchedProcessExit => EventData::SchedProcessExit,
        RawEventRecord::SchedProcessExec => EventData::SchedProcessExec,
        RawEventRecord::EnterSchedSetaffinity => EventData::EnterSchedSetAffinity,
        RawEventRecord::SchedAffinityChange => EventData::AffinityChange,
        RawEventRecord::SchedAffinityChangeFailed => EventData::AffinityChangeFailed,
        RawEventRecord::SchedSchedulerChange => EventData::RawSchedulerChange,
        RawEventRecord::SchedSchedulerChangeFailed => EventData::SchedulerChangeFailed,
    }
}

/// The trace event of a record emitted at `ts` by thread `pid_tgid`.
pub fn trace_event_of(ts: u64, pid_tgid: u64, raw: &RawEventRecord) -> (r: TraceEvent)
    requires
        spec_decodable(*raw),
    ensures
        r.ts == ts,
        r.id.pid == pid_tgid % 0x1_0000_0000,
        r.id.tgid == pid_tgid / 0x1_0000_0000,
        r.ev == spec_event_data_of(*raw),
{
    TraceEvent { ts, id: ThreadId::from_pid_tgid(pid_tgid), ev: event_data_of(raw) }
}

} // verus!
