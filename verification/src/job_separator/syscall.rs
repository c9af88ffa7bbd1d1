//! Signature of blocking-syscall-separated jobs: a job ends when the thread
//! enters a blocking system call and the next one starts when the call
//! returns.

use crate::events::{ClockId, EventData, TraceEvent, spec_is_suspension, spec_is_syscall_entry};
use vstd::prelude::*;

use super::{JobSeparation, JobSeparator, Signature};

verus! {

/// States of the blocking-syscall automaton.
#[derive(PartialEq, Eq, Debug, Clone, Copy, Structural)]
pub enum BlockingSyscall {
    Init,
    Body,
    Exit,
    Reject,
}

pub open spec fn spec_end_of_syscall(ev: EventData) -> bool {
    ev is LimeEndOfTrace || ev is ExitArrivalSite
}

/// Futex operations without their private and real-time-clock flags.
pub open spec fn futex_base_op(op: u32) -> u32 {
    op & !384u32
}

/// Only futex wait operations are of interest; other events pass.
pub open spec fn spec_valid_futex_op(ev: EventData) -> bool {
    match ev {
        EventData::EnterFutex { op, .. } => futex_base_op(op) == 0 || futex_base_op(op) == 9,
        _ => true,
    }
}

fn end_of_syscall(event: &TraceEvent) -> (r: bool)
    ensures
        r == spec_end_of_syscall(event.ev),
{
    match event.ev {
        EventData::LimeEndOfTrace | EventData::ExitArrivalSite { .. } => true,
        _ => false,
    }
}

fn filter_invalid_futex_ops(event: &TraceEvent) -> (r: bool)
    ensures
        r == spec_valid_futex_op(event.ev),
{
    match event.ev {
        EventData::EnterFutex { op, .. } => {
            let base = op & !384u32;
            base == 0 || base == 9
        },
        _ => true,
    }
}

pub open spec fn spec_syscall_next(s: BlockingSyscall, e: TraceEvent) -> BlockingSyscall {
    match s {
        BlockingSyscall::Init => if spec_is_syscall_entry(e.ev) && spec_valid_futex_op(e.ev) {
            BlockingSyscall::Body
        } else {
            BlockingSyscall::Reject
        },
        BlockingSyscall::Body => if spec_end_of_syscall(e.ev) {
            BlockingSyscall::Exit
        } else {
            BlockingSyscall::Body
        },
        _ => BlockingSyscall::Reject,
    }
}

/// The clock a futex operation waits on.
pub open spec fn spec_futex_clock(op: u32) -> ClockId {
    if op & 256u32 == 0 {
        ClockId::ClockMonotonic
    } else {
        ClockId::ClockRealtime
    }
}

pub open spec fn spec_futex_separator(op: u32, uaddr: u64) -> JobSeparator {
    if futex_base_op(op) == 0 {
        JobSeparator::FutexWait { uaddr, clock_id: spec_futex_clock(op) }
    } else {
        JobSeparator::FutexWaitBitSet { uaddr, clock_id: spec_futex_clock(op) }
    }
}

/// The separator identifying the system call that opens `matched`.
pub open spec fn spec_syscall_separator(ev: EventData) -> JobSeparator {
    match ev {
        EventData::EnterClockNanoSleep { clock_id, abs_time, .. } => JobSeparator::ClockNanosleep {
            clock_id,
            abs_time,
        },
        EventData::EnterSelect { inp, .. } => JobSeparator::Select { inp },
        EventData::EnterPoll { pfds, .. } => JobSeparator::Poll { pfds },
        EventData::EnterReadSock { fd } => JobSeparator::ReadSock { fd },
        EventData::EnterReadFifo { fd } => JobSeparator::ReadFifo { fd },
        EventData::EnterReadBlk { fd } => JobSeparator::ReadBlk { fd },
        EventData::EnterReadChr { fd } => JobSeparator::ReadChr { fd },
        EventData::EnterAccept { sock_fd } => JobSeparator::Accept { sock_fd },
        EventData::EnterFutex { uaddr, op } => spec_futex_separator(op, uaddr),
        EventData::EnterSigTimedWait {} => JobSeparator::SigTimedWait,
        EventData::EnterEpollPWait { epfd } => JobSeparator::EpollPwait { epfd },
        EventData::EnterPselect6 { inp, .. } => JobSeparator::PSelect6 { inp },
        EventData::EnterNanosleep { .. } => JobSeparator::Nanosleep {},
        EventData::EnterPause {} => JobSeparator::Pause,
        EventData::EnterRtSigsuspend {} => JobSeparator::RtSigsuspend,
        EventData::EnterMqTimedreceive { mqd } => JobSeparator::MqTimedReceive { mqd },
        EventData::EnterRecv { sock_fd } => JobSeparator::Recv { sock_fd },
        EventData::EnterRecvfrom { sock_fd } => JobSeparator::Recvfrom { sock_fd },
        EventData::EnterRecvmsg { sock_fd } => JobSeparator::Recvmsg { sock_fd },
        EventData::EnterRecvmmsg { sock_fd } => JobSeparator::Recvmmsg { sock_fd },
        EventData::EnterMsgrcv { msqid } => JobSeparator::Msgrcv { msqid },
        EventData::EnterSemop { sem_id, timeout } => JobSeparator::Semop { sem_id, timeout },
        _ => JobSeparator::SigTimedWait,
    }
}

/// Expected arrival of the next job: the wake-up time of a monotonic
/// `clock_nanosleep`, absolute or relative to the call (with wrap-around).
pub open spec fn spec_curr_arrival(events: Seq<TraceEvent>) -> Option<u64> {
    if events.len() == 0 {
        None
    } else {
        match events[0].ev {
            EventData::EnterClockNanoSleep { abs_time, required_ns, clock_id } => if clock_id
                == ClockId::ClockMonotonic {
                if abs_time {
                    Some(required_ns as u64)
                } else {
                    Some(events[0].ts.wrapping_add(required_ns as u64))
                }
            } else {
                None
            },
            _ => None,
        }
    }
}

/// Index of the first suspension at or after `i`, or the length of `events`.
pub open spec fn first_suspension_from(events: Seq<TraceEvent>, i: int) -> int
    decreases events.len() - i,
{
    if i >= events.len() {
        events.len() as int
    } else if spec_is_suspension(events[i].ev) {
        i
    } else {
        first_suspension_from(events, i + 1)
    }
}

/// Index of the first suspension or end of trace at or after `i`, or the
/// length of `events`.
pub open spec fn first_stop_from(events: Seq<TraceEvent>, i: int) -> int
    decreases events.len() - i,
{
    if i >= events.len() {
        events.len() as int
    } else if spec_is_suspension(events[i].ev) || events[i].ev is LimeEndOfTrace {
        i
    } else {
        first_stop_from(events, i + 1)
    }
}

/// The wake-up following the first suspension at or after `i` (or `slept`
/// if a suspension was seen before), `0` if the trace ends first, `None`
/// if neither happens.
pub open spec fn release_scan(events: Seq<TraceEvent>, i: int, slept: bool) -> Option<u64>
    decreases events.len() - i,
{
    if i < 0 || i >= events.len() {
        None
    } else {
        let e = events[i];
        if e.ev is SchedSwitchedOut && spec_is_suspension(e.ev) {
            release_scan(events, i + 1, true)
        } else if e.ev is SchedWakeUp && slept {
            Some(e.ts)
        } else if e.ev is LimeEndOfTrace {
            Some(0)
        } else {
            release_scan(events, i + 1, slept)
        }
    }
}

/// No waiting time between the two jobs: the arrival precedes the call, or
/// the thread does not suspend before the arrival.
pub open spec fn spec_is_back_to_back(events: Seq<TraceEvent>, arrival: Option<u64>) -> bool {
    let k = first_suspension_from(events, 1);
    ||| (arrival matches Some(a) && a <= events[0].ts)
    ||| if k < events.len() {
        arrival matches Some(a) && events[k].ts >= a
    } else {
        true
    }
}

pub open spec fn spec_curr_release(events: Seq<TraceEvent>, b2b: bool, arrival: Option<u64>) -> u64 {
    if !b2b {
        match release_scan(events, 0, false) {
            Some(t) => t,
            None => events[0].ts,
        }
    } else {
        match arrival {
            Some(a) => if a > events[0].ts {
                a
            } else {
                events[0].ts
            },
            None => events[0].ts,
        }
    }
}

pub open spec fn spec_prev_end(events: Seq<TraceEvent>, arrival: Option<u64>) -> u64 {
    let first = events[0].ts;
    let k = first_stop_from(events, 1);
    if arrival matches Some(a) && first > a {
        first
    } else if k < events.len() {
        if spec_is_suspension(events[k].ev) {
            match arrival {
                Some(a) => if events[k].ts > a {
                    a
                } else {
                    events[k].ts
                },
                None => events[k].ts,
            }
        } else {
            first
        }
    } else {
        match arrival {
            Some(a) => if first < a {
                a
            } else {
                first
            },
            None => first,
        }
    }
}

pub open spec fn spec_curr_first_cycle(
    b2b: bool,
    prev_end: u64,
    release: u64,
    arrival: Option<u64>,
) -> u64 {
    if b2b {
        prev_end
    } else {
        match arrival {
            Some(a) => if a >= prev_end {
                a
            } else {
                release
            },
            None => release,
        }
    }
}

pub open spec fn spec_syscall_separation(events: Seq<TraceEvent>) -> JobSeparation {
    let arrival = spec_curr_arrival(events);
    let b2b = spec_is_back_to_back(events, arrival);
    let release = spec_curr_release(events, b2b, arrival);
    let prev_end = spec_prev_end(events, arrival);
    let first_cycle = spec_curr_first_cycle(b2b, prev_end, release, arrival);
    JobSeparation {
        prev_end,
        curr_release: if b2b {
            match arrival {
                Some(a) => a,
                None => release,
            }
        } else {
            release
        },
        curr_arrival: arrival,
        curr_first_cycle: first_cycle,
    }
}

/// The arrival of the job a blocking `clock_nanosleep` on the monotonic
/// clock separates: for an absolute sleep, the requested wake-up time; for
/// a relative one, the time of the call plus the requested duration, so
/// never before the call. Other calls give no arrival.
pub proof fn law_sleep_arrival(events: Seq<TraceEvent>)
    requires
        events.len() > 0,
    ensures
        match events[0].ev {
            EventData::EnterClockNanoSleep { clock_id, abs_time, required_ns } => if clock_id
                != ClockId::ClockMonotonic {
                <BlockingSyscall as Signature>::spec_separation(events).curr_arrival is None
            } else if abs_time {
                required_ns >= 0 ==> <BlockingSyscall as Signature>::spec_separation(events).curr_arrival
                    == Some(required_ns as u64)
            } else {
                required_ns >= 0 && events[0].ts + required_ns <= u64::MAX ==> {
                    &&& <BlockingSyscall as Signature>::spec_separation(events).curr_arrival == Some(
                        (events[0].ts + required_ns) as u64,
                    )
                    &&& <BlockingSyscall as Signature>::spec_separation(events).curr_arrival->0 >= events[0].ts
                }
            },
            _ => <BlockingSyscall as Signature>::spec_separation(events).curr_arrival is None,
        },
{
}

impl BlockingSyscall {
    fn get_curr_first_cycle(
        &self,
        is_back_to_back: bool,
        prev_end: u64,
        release: u64,
        arrival: &Option<u64>,
    ) -> (r: u64)
        ensures
            r == spec_curr_first_cycle(is_back_to_back, prev_end, release, *arrival),
    {
        if is_back_to_back {
            return prev_end;
        }
        if let Some(a) = arrival {
            if *a >= prev_end {
                return *a;
            }
        }
        release
    }

    fn get_curr_arrival(&self, events: &[TraceEvent]) -> (r: Option<u64>)
        ensures
            r == spec_curr_arrival(events@),
    {
        if events.len() == 0 {
            return None;
        }
        let event = &events[0];
        match event.ev {
            EventData::EnterClockNanoSleep { abs_time, required_ns, clock_id: ClockId::ClockMonotonic } => {
                if abs_time {
                    Some(required_ns as u64)
                } else {
                    Some(event.ts.wrapping_add(required_ns as u64))
                }
            },
            _ => None,
        }
    }

    fn futex_separator(op: u32, uaddr: u64) -> (r: JobSeparator)
        requires
            futex_base_op(op) == 0 || futex_base_op(op) == 9,
        ensures
            r == spec_futex_separator(op, uaddr),
    {
        let clock_id = if op & 256u32 == 0 {
            ClockId::ClockMonotonic
        } else {
            ClockId::ClockRealtime
        };

        if op & !384u32 == 0 {
            JobSeparator::FutexWait { uaddr, clock_id }
        } else {
            JobSeparator::FutexWaitBitSet { uaddr, clock_id }
        }
    }

    fn get_curr_release(
        &self,
        matched_events: &[TraceEvent],
        is_back_to_back: bool,
        arrival: &Option<u64>,
    ) -> (r: u64)
        requires
            matched_events@.len() > 0,
        ensures
            r == spec_curr_release(matched_events@, is_back_to_back, *arrival),
    {
        let ghost s = matched_events@;
        let ret = matched_events[0].ts;

        if !is_back_to_back {
            let mut first_sleep = false;
            let mut i: usize = 0;
            while i < matched_events.len()
                invariant
                    s == matched_events@,
                    !is_back_to_back,
                    0 <= i <= s.len(),
                    release_scan(s, 0, false) == release_scan(s, i as int, first_sleep),
                decreases s.len() - i,
            {
                let event = &matched_events[i];
                proof {
                    assert(*event == s[i as int]);
                    assert(release_scan(s, i as int, first_sleep) == (
                    if event.ev is SchedSwitchedOut && spec_is_suspension(event.ev) {
                        release_scan(s, i + 1, true)
                    } else if event.ev is SchedWakeUp && first_sleep {
                        Some(event.ts)
                    } else if event.ev is LimeEndOfTrace {
                        Some(0u64)
                    } else {
                        release_scan(s, i + 1, first_sleep)
                    }));
                }
                match event.ev {
                    EventData::SchedSwitchedOut { .. } if event.is_suspension() => first_sleep = true,
                    EventData::SchedWakeUp { .. } if first_sleep => return event.ts,
                    EventData::LimeEndOfTrace => return 0,
                    _ => {},
                }
                i += 1;
            }
        } else if let Some(a) = arrival {
            if *a > ret {
                return *a;
            }
        }

        ret
    }

    fn get_prev_end(&self, matched_events: &[TraceEvent], arrival: &Option<u64>) -> (r: u64)
        requires
            matched_events@.len() > 0,
        ensures
            r == spec_prev_end(matched_events@, *arrival),
    {
        let ghost s = matched_events@;
        let mut job_end = matched_events[0].ts;

        if let Some(a) = arrival {
            if job_end > *a {
                return job_end;
            }
        }

        let mut i: usize = 1;
        while i < matched_events.len()
            invariant
                s == matched_events@,
                1 <= i <= s.len(),
                job_end == s[0].ts,
                !(*arrival matches Some(a) && s[0].ts > a),
                first_stop_from(s, 1) == first_stop_from(s, i as int),
            decreases s.len() - i,
        {
            let event = &matched_events[i];
            proof {
                assert(*event == s[i as int]);
                assert(first_stop_from(s, i as int) == (
                if spec_is_suspension(event.ev) || event.ev is LimeEndOfTrace {
                    i as int
                } else {
                    first_stop_from(s, i + 1)
                }));
            }
            match event.ev {
                EventData::SchedSwitchedOut { .. } if event.is_suspension() => {
                    job_end = event.ts;
                    if let Some(a) = arrival {
                        if job_end > *a {
                            job_end = *a;
                        }
                    }
                    return job_end;
                },
                EventData::LimeEndOfTrace => return job_end,
                _ => {},
            }
            i += 1;
        }

        if let Some(a) = arrival {
            if job_end < *a {
                return *a;
            }
        }

        job_end
    }

    fn is_back_to_back(&self, matched_events: &[TraceEvent], arrival: &Option<u64>) -> (r: bool)
        requires
            matched_events@.len() > 0,
        ensures
            r == spec_is_back_to_back(matched_events@, *arrival),
    {
        let ghost s = matched_events@;
        let first = matched_events[0].ts;

        if let Some(a) = arrival {
            if *a <= first {
                return true;
            }
        }

        let mut i: usize = 1;
        while i < matched_events.len()
            invariant
                s == matched_events@,
                1 <= i <= s.len(),
                !(*arrival matches Some(a) && a <= s[0].ts),
                first_suspension_from(s, 1) == first_suspension_from(s, i as int),
            decreases s.len() - i,
        {
            let e = &matched_events[i];
            proof {
                assert(*e == s[i as int]);
                assert(first_suspension_from(s, i as int) == (if spec_is_suspension(e.ev) {
                    i as int
                } else {
                    first_suspension_from(s, i + 1)
                }));
            }
            if e.is_suspension() {
                if let Some(a) = arrival {
                    if e.ts >= *a {
                        return true;
                    }
                }
                return false;
            }
            i += 1;
        }

        true
    }
}

impl Signature for BlockingSyscall {
    open spec fn spec_initial() -> Self {
        BlockingSyscall::Init
    }

    open spec fn spec_next(self, event: TraceEvent) -> Self {
        spec_syscall_next(self, event)
    }

    open spec fn spec_is_terminal(self) -> bool {
        self is Exit
    }

    open spec fn spec_is_rejection(self) -> bool {
        self is Reject
    }

    open spec fn spec_extractable(matched: Seq<TraceEvent>) -> bool {
        &&& matched.len() > 0
        &&& spec_is_syscall_entry(matched[0].ev)
        &&& spec_valid_futex_op(matched[0].ev)
    }

    open spec fn spec_separator(matched: Seq<TraceEvent>) -> JobSeparator {
        spec_syscall_separator(matched[0].ev)
    }

    open spec fn spec_separation(matched: Seq<TraceEvent>) -> JobSeparation {
        spec_syscall_separation(matched)
    }

    open spec fn spec_history_inv(self, history: Seq<TraceEvent>) -> bool {
        match self {
            BlockingSyscall::Init => history.len() == 0,
            BlockingSyscall::Reject => true,
            _ => {
                &&& history.len() > 0
                &&& spec_is_syscall_entry(history[0].ev)
                &&& spec_valid_futex_op(history[0].ev)
            },
        }
    }

    proof fn lemma_initial_inv() {
    }

    proof fn lemma_step_inv(s: Self, history: Seq<TraceEvent>, e: TraceEvent) {
        if history.len() > 0 {
            assert(history.push(e)[0] == history[0]);
        }
    }

    proof fn lemma_terminal_extractable(s: Self, history: Seq<TraceEvent>) {
    }

    fn initial_state() -> (r: Self) {
        Self::Init
    }

    fn next(&self, event: &TraceEvent) -> (r: Self) {
        match self {
            Self::Init => {
                if event.is_syscall_entry() && filter_invalid_futex_ops(event) {
                    Self::Body
                } else {
                    Self::Reject
                }
            },
            Self::Body => {
                if end_of_syscall(event) {
                    Self::Exit
                } else {
                    Self::Body
                }
            },
            _ => Self::Reject,
        }
    }

    fn is_terminal_state(&self) -> (r: bool) {
        matches!(self, Self::Exit)
    }

    fn is_rejection_state(&self) -> (r: bool) {
        matches!(self, Self::Reject)
    }

    fn job_separator(&self, matched_events: &[TraceEvent]) -> (r: JobSeparator) {
        match matched_events[0].ev {
            EventData::EnterClockNanoSleep { clock_id, abs_time, .. } => JobSeparator::ClockNanosleep {
                clock_id,
                abs_time,
            },
            EventData::EnterSelect { inp, .. } => JobSeparator::Select { inp },
            EventData::EnterPoll { pfds, .. } => JobSeparator::Poll { pfds },
            EventData::EnterReadSock { fd } => JobSeparator::ReadSock { fd },
            EventData::EnterReadFifo { fd } => JobSeparator::ReadFifo { fd },
            EventData::EnterReadBlk { fd } => JobSeparator::ReadBlk { fd },
            EventData::EnterReadChr { fd } => JobSeparator::ReadChr { fd },
            EventData::EnterAccept { sock_fd } => JobSeparator::Accept { sock_fd },
            EventData::EnterFutex { uaddr, op } => Self::futex_separator(op, uaddr),
            EventData::EnterSigTimedWait {} => JobSeparator::SigTimedWait,
            EventData::EnterEpollPWait { epfd } => JobSeparator::EpollPwait { epfd },
            EventData::EnterPselect6 { inp, .. } => JobSeparator::PSelect6 { inp },
            EventData::EnterNanosleep { .. } => JobSeparator::Nanosleep {},
            EventData::EnterPause {} => JobSeparator::Pause,
            EventData::EnterRtSigsuspend {} => JobSeparator::RtSigsuspend,
            EventData::EnterMqTimedreceive { mqd } => JobSeparator::MqTimedReceive { mqd },
            EventData::EnterRecv { sock_fd } => JobSeparator::Recv { sock_fd },
            EventData::EnterRecvfrom { sock_fd } => JobSeparator::Recvfrom { sock_fd },
            EventData::EnterRecvmsg { sock_fd } => JobSeparator::Recvmsg { sock_fd },
            EventData::EnterRecvmmsg { sock_fd } => JobSeparator::Recvmmsg { sock_fd },
            EventData::EnterMsgrcv { msqid } => JobSeparator::Msgrcv { msqid },
            EventData::EnterSemop { sem_id, timeout } => JobSeparator::Semop { sem_id, timeout },
            _ => JobSeparator::SigTimedWait,
        }
    }

    fn job_separation(&self, matched_events: &[TraceEvent]) -> (r: JobSeparation) {
        let curr_arrival = self.get_curr_arrival(matched_events);
        let is_back_to_back = self.is_back_to_back(matched_events, &curr_arrival);
        let mut curr_release = self.get_curr_release(matched_events, is_back_to_back, &curr_arrival);
        let prev_end = self.get_prev_end(matched_events, &curr_arrival);
        let curr_first_cycle = self.get_curr_first_cycle(
            is_back_to_back,
            prev_end,
            curr_release,
            &curr_arrival,
        );

        if is_back_to_back {
            curr_release = match curr_arrival {
                Some(a) => a,
                None => curr_release,
            };
        }

        JobSeparation { prev_end, curr_release, curr_arrival, curr_first_cycle }
    }
}

} // verus!
