//! Job separator detection.
//!
//! Job extraction has two consecutive steps:
//! 1. The stream of events is analysed to detect job separations. Each type of
//!    job separation is characterised by a __signature__.
//! 2. Event sequences matching a signature are analysed to extract a job
//!    separator (a job type identifier) and a job separation (timing
//!    information).
//!
//! Signature matching is implemented with deterministic finite automata: a
//! signature is a type whose values are the states of the automaton.

use crate::events::{spec_clock_name, ClockId, TraceEvent};
use crate::text::{
    dec_chars, hex_chars, push_dec, push_hex, push_signed, push_str, signed_chars, string_of,
};
use crate::job::Job;
use crate::utils::DispatchKey;
use vstd::prelude::*;

use self::dfa::{AResult, Dfa};
use self::sched_yield::SchedYieldDeadline;
use self::suspension::SelfSuspension;
use self::syscall::BlockingSyscall;


pub mod dfa;
pub mod sched_yield;
pub mod suspension;
pub mod syscall;

verus! {

/// The state of a signature automaton.
pub trait Signature: Sized {
    spec fn spec_initial() -> Self;

    spec fn spec_next(self, event: TraceEvent) -> Self;

    spec fn spec_is_terminal(self) -> bool;

    spec fn spec_is_rejection(self) -> bool;

    /// What the extraction of a separator and a separation needs of a
    /// matched sequence.
    spec fn spec_extractable(matched: Seq<TraceEvent>) -> bool;

    spec fn spec_separator(matched: Seq<TraceEvent>) -> JobSeparator;

    spec fn spec_separation(matched: Seq<TraceEvent>) -> JobSeparation;

    /// What a state says of the events that led to it from the initial
    /// state.
    spec fn spec_history_inv(self, history: Seq<TraceEvent>) -> bool;

    proof fn lemma_initial_inv()
        ensures
            Self::spec_initial().spec_history_inv(Seq::empty()),
            !Self::spec_initial().spec_is_rejection(),
    ;

    proof fn lemma_step_inv(s: Self, history: Seq<TraceEvent>, e: TraceEvent)
        requires
            s.spec_history_inv(history),
            !s.spec_next(e).spec_is_rejection(),
        ensures
            s.spec_next(e).spec_history_inv(history.push(e)),
    ;

    /// The events that drove the automaton to a terminal state can be
    /// extracted.
    proof fn lemma_terminal_extractable(s: Self, history: Seq<TraceEvent>)
        requires
            s.spec_history_inv(history),
            s.spec_is_terminal(),
        ensures
            Self::spec_extractable(history),
    ;

    /// Constructs an initial state.
    fn initial_state() -> (r: Self)
        ensures
            r == Self::spec_initial(),
    ;

    /// Inspects an event and constructs the next state.
    fn next(&self, event: &TraceEvent) -> (r: Self)
        ensures
            r == self.spec_next(*event),
    ;

    /// Returns true if the state is terminal, i.e., if the signature has been
    /// matched.
    fn is_terminal_state(&self) -> (r: bool)
        ensures
            r == self.spec_is_terminal(),
    ;

    /// Returns true if the state is a rejection state indicating that the
    /// automaton should be reset.
    fn is_rejection_state(&self) -> (r: bool)
        ensures
            r == self.spec_is_rejection(),
    ;

    /// Extracts a job separator from a sequence of events matching this signature.
    fn job_separator(&self, matched_events: &[TraceEvent]) -> (r: JobSeparator)
        requires
            Self::spec_extractable(matched_events@),
        ensures
            r == Self::spec_separator(matched_events@),
    ;

    /// Extracts a job separation from a sequence of events matching this signature.
    fn job_separation(&self, matched_events: &[TraceEvent]) -> (r: JobSeparation)
        requires
            Self::spec_extractable(matched_events@),
        ensures
            r == Self::spec_separation(matched_events@),
    ;
}

/// The state reached from the initial state by feeding `events`, resetting
/// to the initial state after each rejection.
pub open spec fn spec_check_seq<S: Signature>(events: Seq<TraceEvent>) -> S
    decreases events.len(),
{
    if events.len() == 0 {
        S::spec_initial()
    } else {
        let t = spec_check_seq::<S>(events.drop_last()).spec_next(events.last());
        if t.spec_is_rejection() {
            S::spec_initial()
        } else {
            t
        }
    }
}

/// Consumes a sequence of events and returns the last state.
/// Transitioning to the rejection state causes a reset to the initial state.
pub fn check_seq<S: Signature>(events: &[TraceEvent]) -> (r: S)
    ensures
        r == spec_check_seq::<S>(events@),
{
    let mut s = S::initial_state();
    let mut i: usize = 0;
    while i < events.len()
        invariant
            0 <= i <= events@.len(),
            s == spec_check_seq::<S>(events@.take(i as int)),
        decreases events@.len() - i,
    {
        proof {
            assert(events@.take(i + 1).drop_last() == events@.take(i as int));
            assert(events@.take(i + 1).last() == events@[i as int]);
        }
        s = s.next(&events[i]);
        if s.is_rejection_state() {
            s = S::initial_state();
        }
        i += 1;
    }
    proof {
        assert(events@.take(events@.len() as int) == events@);
    }
    s
}


/// What an automaton extracts when fed the last event of `buf`.
pub open spec fn spec_extracted<S: Signature>(d: Dfa<S>, buf: Seq<TraceEvent>) -> Seq<
    (JobSeparator, JobSeparation),
> {
    let pos = (buf.len() - 1) as usize;
    match d.spec_step_result(buf.last(), pos) {
        AResult::Accept { start, end } => seq![
            (
                S::spec_separator(buf.subrange(start as int, end as int)),
                S::spec_separation(buf.subrange(start as int, end as int)),
            ),
        ],
        _ => Seq::empty(),
    }
}

/// The buffered events from the start of the automaton's match are those it
/// has matched.
pub open spec fn spec_dfa_in_buffer<S: Signature>(d: Dfa<S>, buf: Seq<TraceEvent>) -> bool {
    &&& d.wf()
    &&& d.start_pos() matches Some(s) ==> s < buf.len() && buf.subrange(s as int, buf.len() as int)
        == d.matched()
}

/// Runs all supported signatures over a stream of events.
pub struct SignatureMatcher {
    syscall: Dfa<BlockingSyscall>,
    suspension: Dfa<SelfSuspension>,
    sched_yield: Dfa<SchedYieldDeadline>,
    in_progress: usize,
    buffer: Vec<TraceEvent>,
}

impl SignatureMatcher {
    pub closed spec fn syscall_dfa(&self) -> Dfa<BlockingSyscall> {
        self.syscall
    }

    pub closed spec fn suspension_dfa(&self) -> Dfa<SelfSuspension> {
        self.suspension
    }

    pub closed spec fn yield_dfa(&self) -> Dfa<SchedYieldDeadline> {
        self.sched_yield
    }

    /// The separations the automata extract, in turn, when `event` arrives.
    pub open spec fn extracted_on(&self, event: TraceEvent) -> Seq<(JobSeparator, JobSeparation)> {
        let b = self.buffered().push(event);
        spec_extracted(self.syscall_dfa(), b) + spec_extracted(self.suspension_dfa(), b)
            + spec_extracted(self.yield_dfa(), b)
    }

    /// The events kept while a match is in progress.
    pub closed spec fn buffered(&self) -> Seq<TraceEvent> {
        self.buffer@
    }

    pub open spec fn wf(&self) -> bool {
        &&& spec_dfa_in_buffer(self.syscall_dfa(), self.buffered())
        &&& spec_dfa_in_buffer(self.suspension_dfa(), self.buffered())
        &&& spec_dfa_in_buffer(self.yield_dfa(), self.buffered())
    }

    /// No event buffered, and every automaton fresh.
    pub open spec fn is_fresh(&self) -> bool {
        &&& self.buffered() == Seq::<TraceEvent>::empty()
        &&& self.syscall_dfa().is_fresh()
        &&& self.suspension_dfa().is_fresh()
        &&& self.yield_dfa().is_fresh()
    }

    /// The start of the trace is all that was fed to the matcher.
    pub open spec fn started(&self) -> bool {
        &&& self.buffered() == seq![TraceEvent::spec_start_of_trace()]
        &&& self.syscall_dfa().fed_first(TraceEvent::spec_start_of_trace())
        &&& self.suspension_dfa().fed_first(TraceEvent::spec_start_of_trace())
        &&& self.yield_dfa().fed_first(TraceEvent::spec_start_of_trace())
    }

    pub open spec fn spec_ongoing(&self) -> bool {
        self.suspension_dfa().start_pos() is Some || self.syscall_dfa().start_pos() is Some
            || self.yield_dfa().start_pos() is Some
    }

    pub fn new() -> (r: Self)
        ensures
            r.wf(),
            r.buffered() == Seq::<TraceEvent>::empty(),
            r.syscall_dfa().start_pos() is None,
            r.syscall_dfa().state() == BlockingSyscall::Init,
            r.suspension_dfa().start_pos() is None,
            r.suspension_dfa().state() == SelfSuspension::Init,
            r.yield_dfa().start_pos() is None,
            r.yield_dfa().state() == SchedYieldDeadline::Init,
            r.is_fresh(),
    {
        Self {
            syscall: Dfa::new(),
            suspension: Dfa::new(),
            sched_yield: Dfa::new(),
            in_progress: 0,
            buffer: Vec::new(),
        }
    }

    /// Initializes the matcher by feeding it a `LimeStartOfTrace` pseudo-event.
    pub fn init(&mut self)
        requires
            old(self).wf(),
            old(self).buffered().len() == 0,
        ensures
            final(self).wf(),
            final(self).buffered() == seq![TraceEvent::spec_start_of_trace()],
            final(self).syscall_dfa().step_post(
                old(self).syscall_dfa(),
                TraceEvent::spec_start_of_trace(),
                0,
            ),
            final(self).suspension_dfa().step_post(
                old(self).suspension_dfa(),
                TraceEvent::spec_start_of_trace(),
                0,
            ),
            final(self).yield_dfa().step_post(
                old(self).yield_dfa(),
                TraceEvent::spec_start_of_trace(),
                0,
            ),
            old(self).is_fresh() ==> final(self).started(),
    {
        proof {
            self.syscall.lemma_matching();
            self.suspension.lemma_matching();
            self.sched_yield.lemma_matching();
        }
        self.buffer.push(TraceEvent::start_of_trace());
        let ghost b = self.buffer@;
        self.syscall.update_no_extract(&self.buffer[0], 0);
        self.suspension.update_no_extract(&self.buffer[0], 0);
        self.sched_yield.update_no_extract(&self.buffer[0], 0);
        proof {
            assert(b.subrange(0, 1) =~= seq![b[0]]);
            assert(old(self).yield_dfa().matched() =~= Seq::empty());
            assert(old(self).suspension_dfa().matched() =~= Seq::empty());
            assert(old(self).syscall_dfa().matched() =~= Seq::empty());
            assert(Seq::<TraceEvent>::empty().push(b[0]) =~= seq![b[0]]);
            if old(self).is_fresh() {
                self.syscall.lemma_fed_first(old(self).syscall_dfa(), b[0]);
                self.suspension.lemma_fed_first(old(self).suspension_dfa(), b[0]);
                self.sched_yield.lemma_fed_first(old(self).yield_dfa(), b[0]);
            }
        }
    }

    fn update_matchers(&mut self, pos: usize, result: &mut Vec<(JobSeparator, JobSeparation)>)
        requires
            spec_dfa_in_buffer(old(self).syscall_dfa(), old(self).buffered().drop_last()),
            spec_dfa_in_buffer(old(self).suspension_dfa(), old(self).buffered().drop_last()),
            spec_dfa_in_buffer(old(self).yield_dfa(), old(self).buffered().drop_last()),
            pos + 1 == old(self).buffered().len(),
        ensures
            final(self).wf(),
            final(self).buffered() == old(self).buffered(),
            final(result)@ == old(result)@ + spec_extracted(old(self).syscall_dfa(), old(self).buffered())
                + spec_extracted(old(self).suspension_dfa(), old(self).buffered())
                + spec_extracted(old(self).yield_dfa(), old(self).buffered()),
            final(self).syscall_dfa().step_post(
                old(self).syscall_dfa(),
                old(self).buffered().last(),
                pos,
            ),
            final(self).suspension_dfa().step_post(
                old(self).suspension_dfa(),
                old(self).buffered().last(),
                pos,
            ),
            final(self).yield_dfa().step_post(
                old(self).yield_dfa(),
                old(self).buffered().last(),
                pos,
            ),
    {
        self.in_progress = 0;
        let ghost b = self.buffer@;
        proof {
            let bd = b.drop_last();
            if let Some(s) = self.syscall.start_pos() {
                assert(b.subrange(s as int, pos as int) =~= bd.subrange(s as int, bd.len() as int));
            }
            if let Some(s) = self.suspension.start_pos() {
                assert(b.subrange(s as int, pos as int) =~= bd.subrange(s as int, bd.len() as int));
            }
            if let Some(s) = self.sched_yield.start_pos() {
                assert(b.subrange(s as int, pos as int) =~= bd.subrange(s as int, bd.len() as int));
            }
        }
        self.syscall.update(&self.buffer, pos, result);
        self.suspension.update(&self.buffer, pos, result);
        self.sched_yield.update(&self.buffer, pos, result);
    }

    /// Returns true if at least one signature matcher is in progress, i.e.,
    /// its automaton is neither in the terminal state nor in the rejection
    /// state.
    pub fn ongoing_matching(&self) -> (r: bool)
        requires
            self.wf(),
        ensures
            r == self.spec_ongoing(),
    {
        proof {
            self.suspension.lemma_matching();
            self.syscall.lemma_matching();
            self.sched_yield.lemma_matching();
        }
        self.suspension.is_matching() || self.syscall.is_matching() || self.sched_yield.is_matching()
    }

    /// Consumes an event and updates the automata. Successfully extracted
    /// job separators and separations are appended to `result`; the
    /// buffered events are dropped once no match is in progress.
    pub fn consume_event(
        &mut self,
        event: TraceEvent,
        result: &mut Vec<(JobSeparator, JobSeparation)>,
    )
        requires
            old(self).wf(),
        ensures
            final(self).wf(),
            final(result)@ == old(result)@ + old(self).extracted_on(event),
            final(self).syscall_dfa().step_post(
                old(self).syscall_dfa(),
                event,
                old(self).buffered().len() as usize,
            ),
            final(self).suspension_dfa().step_post(
                old(self).suspension_dfa(),
                event,
                old(self).buffered().len() as usize,
            ),
            final(self).yield_dfa().step_post(
                old(self).yield_dfa(),
                event,
                old(self).buffered().len() as usize,
            ),
            final(self).buffered() == if final(self).spec_ongoing() {
                old(self).buffered().push(event)
            } else {
                Seq::<TraceEvent>::empty()
            },
    {
        let ghost b0 = self.buffer@;
        self.buffer.push(event);
        let pos = self.buffer.len() - 1;
        proof {
            assert(self.buffer@.drop_last() =~= b0);
        }
        self.update_matchers(pos, result);

        if !self.ongoing_matching() {
            self.buffer.clear();
        }
    }
}

impl Default for SignatureMatcher {
    fn default() -> (r: Self)
        ensures
            r.wf(),
            r.buffered() == Seq::<TraceEvent>::empty(),
            r.syscall_dfa().start_pos() is None,
            r.syscall_dfa().state() == BlockingSyscall::Init,
            r.suspension_dfa().start_pos() is None,
            r.suspension_dfa().state() == SelfSuspension::Init,
            r.yield_dfa().start_pos() is None,
            r.yield_dfa().state() == SchedYieldDeadline::Init,
    {
        Self::new()
    }
}

/// Timing information about the end of a job and the beginning of the next one.
#[derive(PartialEq, Eq, Debug, Default, Clone, Copy, Structural)]
pub struct JobSeparation {
    /// Last cycle of the previously pending job.
    pub prev_end: u64,
    /// Arrival time of the currently pending job.
    pub curr_arrival: Option<u64>,
    /// Release time of the currently pending job.
    pub curr_release: u64,
    /// First cycle the currently pending job.
    pub curr_first_cycle: u64,
}

/// The job between two consecutive separations.
pub open spec fn spec_make_job(s: JobSeparation, next: JobSeparation) -> Job {
    Job {
        arrival: s.curr_arrival,
        release: s.curr_release,
        end: next.prev_end,
        first_cycle: s.curr_first_cycle,
    }
}

impl JobSeparation {
    /// Returns true if there is no waiting time between the previously and the
    /// currently pending job.
    pub fn is_back_to_back(&self) -> (r: bool)
        ensures
            r == (self.curr_first_cycle == self.prev_end),
    {
        self.curr_first_cycle == self.prev_end
    }

    /// Combines two consecutive job separations to build a new job.
    pub fn make_job(&self, next_boundary: &Self) -> (r: Job)
        ensures
            r == spec_make_job(*self, *next_boundary),
    {
        Job {
            arrival: self.curr_arrival,
            release: self.curr_release,
            end: next_boundary.prev_end,
            first_cycle: self.curr_first_cycle,
        }
    }
}

/// Extracted job type identifier.
///
/// Job separators identify specific job arrival sites. Job-specific model
/// extraction is performed for each detected job separator.
#[allow(inconsistent_fields)]
#[derive(PartialEq, Eq, Hash, Clone, Copy, Debug, Structural)]
pub enum JobSeparator {
    ClockNanosleep { clock_id: ClockId, abs_time: bool },
    Select { inp: u64 },
    Poll { pfds: u64 },
    ReadSock { fd: u32 },
    ReadFifo { fd: u32 },
    ReadBlk { fd: u32 },
    ReadChr { fd: u32 },
    Accept { sock_fd: u32 },
    FutexWait { uaddr: u64, clock_id: ClockId },
    FutexWaitBitSet { uaddr: u64, clock_id: ClockId },
    EpollPwait { epfd: u32 },
    PSelect6 { inp: u64 },
    Nanosleep {},
    Pause,
    RtSigsuspend,
    MqTimedReceive { mqd: i32 },
    Recv { sock_fd: i32 },
    Recvfrom { sock_fd: i32 },
    Recvmsg { sock_fd: i32 },
    Recvmmsg { sock_fd: i32 },
    Msgrcv { msqid: i32 },
    Semop { sem_id: i32, timeout: u64 },
    SigTimedWait,
    Suspension,
    YieldSchedDeadline,
}

/// The text of a job separator: the system call, then what identifies the
/// call site (addresses in hexadecimal, descriptors in decimal).
pub open spec fn spec_separator_text(s: JobSeparator) -> Seq<char> {
    match s {
        JobSeparator::ClockNanosleep { clock_id, .. } => "clock_nanosleep @"@ + spec_clock_name(
            clock_id,
        ),
        JobSeparator::Select { inp } => "select @:"@ + hex_chars(inp as nat),
        JobSeparator::Poll { pfds } => "poll @:"@ + hex_chars(pfds as nat),
        JobSeparator::ReadSock { fd } => "read_sock fd:"@ + dec_chars(fd as nat),
        JobSeparator::ReadFifo { fd } => "read_fifo fd:"@ + dec_chars(fd as nat),
        JobSeparator::ReadBlk { fd } => "read_blk fd:"@ + dec_chars(fd as nat),
        JobSeparator::ReadChr { fd } => "read_chr fd:"@ + dec_chars(fd as nat),
        JobSeparator::Accept { sock_fd } => "accept fd:"@ + dec_chars(sock_fd as nat),
        JobSeparator::FutexWait { uaddr, clock_id } => "futex_wait @:"@ + hex_chars(uaddr as nat)
            + " on "@ + spec_clock_name(clock_id),
        JobSeparator::FutexWaitBitSet { uaddr, clock_id } => "futex_wait_bitset @:"@ + hex_chars(
            uaddr as nat,
        ) + " on "@ + spec_clock_name(clock_id),
        JobSeparator::SigTimedWait => "sigtimedwait"@,
        JobSeparator::Suspension => "suspension"@,
        JobSeparator::EpollPwait { epfd } => "epoll_pwait fd:"@ + dec_chars(epfd as nat),
        JobSeparator::PSelect6 { inp } => "pselect6 @:"@ + hex_chars(inp as nat),
        JobSeparator::YieldSchedDeadline => "yield_sched_deadline"@,
        JobSeparator::Nanosleep {  } => "nanosleep"@,
        JobSeparator::Pause => "pause"@,
        JobSeparator::RtSigsuspend => "rt_sigsuspend"@,
        JobSeparator::MqTimedReceive { mqd } => "mq_timed_receive mqd:"@ + signed_chars(mqd as int),
        JobSeparator::Recv { sock_fd } => "recv sock_fd:"@ + signed_chars(sock_fd as int),
        JobSeparator::Recvfrom { sock_fd } => "recvfrom sock_fd:"@ + signed_chars(sock_fd as int),
        JobSeparator::Recvmsg { sock_fd } => "recvmsg sock_fd:"@ + signed_chars(sock_fd as int),
        JobSeparator::Recvmmsg { sock_fd } => "recvmmsg sock_fd:"@ + signed_chars(sock_fd as int),
        JobSeparator::Msgrcv { msqid } => "recv msqid:"@ + signed_chars(msqid as int),
        JobSeparator::Semop { sem_id, timeout } => "semop semid:"@ + signed_chars(sem_id as int)
            + " timeout:"@ + dec_chars(timeout as nat),
    }
}

impl JobSeparator {
    /// The text of the separator.
    pub fn to_string(&self) -> (r: String)
        ensures
            r@ == spec_separator_text(*self),
    {
        let mut out: Vec<char> = Vec::new();
        match self {
            JobSeparator::ClockNanosleep { clock_id, .. } => {
                push_str(&mut out, "clock_nanosleep @");
                push_str(&mut out, clock_id.name());
            },
            JobSeparator::Select { inp } => {
                push_str(&mut out, "select @:");
                push_hex(&mut out, *inp);
            },
            JobSeparator::Poll { pfds } => {
                push_str(&mut out, "poll @:");
                push_hex(&mut out, *pfds);
            },
            JobSeparator::ReadSock { fd } => {
                push_str(&mut out, "read_sock fd:");
                push_dec(&mut out, *fd as u64);
            },
            JobSeparator::ReadFifo { fd } => {
                push_str(&mut out, "read_fifo fd:");
                push_dec(&mut out, *fd as u64);
            },
            JobSeparator::ReadBlk { fd } => {
                push_str(&mut out, "read_blk fd:");
                push_dec(&mut out, *fd as u64);
            },
            JobSeparator::ReadChr { fd } => {
                push_str(&mut out, "read_chr fd:");
                push_dec(&mut out, *fd as u64);
            },
            JobSeparator::Accept { sock_fd } => {
                push_str(&mut out, "accept fd:");
                push_dec(&mut out, *sock_fd as u64);
            },
            JobSeparator::FutexWait { uaddr, clock_id } => {
                push_str(&mut out, "futex_wait @:");
                push_hex(&mut out, *uaddr);
                push_str(&mut out, " on ");
                push_str(&mut out, clock_id.name());
            },
            JobSeparator::FutexWaitBitSet { uaddr, clock_id } => {
                push_str(&mut out, "futex_wait_bitset @:");
                push_hex(&mut out, *uaddr);
                push_str(&mut out, " on ");
                push_str(&mut out, clock_id.name());
            },
            JobSeparator::SigTimedWait => push_str(&mut out, "sigtimedwait"),
            JobSeparator::Suspension => push_str(&mut out, "suspension"),
            JobSeparator::EpollPwait { epfd } => {
                push_str(&mut out, "epoll_pwait fd:");
                push_dec(&mut out, *epfd as u64);
            },
            JobSeparator::PSelect6 { inp } => {
                push_str(&mut out, "pselect6 @:");
                push_hex(&mut out, *inp);
            },
            JobSeparator::YieldSchedDeadline => push_str(&mut out, "yield_sched_deadline"),
            JobSeparator::Nanosleep {  } => push_str(&mut out, "nanosleep"),
            JobSeparator::Pause => push_str(&mut out, "pause"),
            JobSeparator::RtSigsuspend => push_str(&mut out, "rt_sigsuspend"),
            JobSeparator::MqTimedReceive { mqd } => {
                push_str(&mut out, "mq_timed_receive mqd:");
                push_signed(&mut out, *mqd as i64);
            },
            JobSeparator::Recv { sock_fd } => {
                push_str(&mut out, "recv sock_fd:");
                push_signed(&mut out, *sock_fd as i64);
            },
            JobSeparator::Recvfrom { sock_fd } => {
                push_str(&mut out, "recvfrom sock_fd:");
                push_signed(&mut out, *sock_fd as i64);
            },
            JobSeparator::Recvmsg { sock_fd } => {
                push_str(&mut out, "recvmsg sock_fd:");
                push_signed(&mut out, *sock_fd as i64);
            },
            JobSeparator::Recvmmsg { sock_fd } => {
                push_str(&mut out, "recvmmsg sock_fd:");
                push_signed(&mut out, *sock_fd as i64);
            },
            JobSeparator::Msgrcv { msqid } => {
                push_str(&mut out, "recv msqid:");
                push_signed(&mut out, *msqid as i64);
            },
            JobSeparator::Semop { sem_id, timeout } => {
                push_str(&mut out, "semop semid:");
                push_signed(&mut out, *sem_id as i64);
                push_str(&mut out, " timeout:");
                push_dec(&mut out, *timeout);
            },
        }
        proof {
            assert(out@ =~= spec_separator_text(*self));
        }
        string_of(&out)
    }
}

impl DispatchKey for JobSeparator {
    fn same_key(&self, other: &Self) -> (r: bool) {
        *self == *other
    }
}

} // verus!
