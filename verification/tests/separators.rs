use lime_rtw::events::{ClockId, EventData, TraceEvent};
use lime_rtw::job_separator::sched_yield::SchedYieldDeadline;
use lime_rtw::job_separator::suspension::SelfSuspension;
use lime_rtw::job_separator::syscall::BlockingSyscall;
use lime_rtw::job_separator::{check_seq, JobSeparation, JobSeparator, Signature, SignatureMatcher};
use lime_rtw::utils::ThreadId;

const ID: ThreadId = ThreadId { pid: 0, tgid: 0 };

fn ev(ts: u64, ev: EventData) -> TraceEvent {
    TraceEvent { id: ID, ts, ev }
}

fn clock_nanosleep() -> Vec<TraceEvent> {
    vec![
        ev(
            0,
            EventData::EnterClockNanoSleep {
                clock_id: ClockId::ClockMonotonic,
                abs_time: true,
                required_ns: 10,
            },
        ),
        ev(
            1,
            EventData::SchedSwitchedOut {
                cpu: 0,
                prio: 2,
                state: 1,
            },
        ),
        ev(11, EventData::SchedWaking { cpu: 0 }),
        ev(12, EventData::SchedWakeUp { cpu: 0 }),
        ev(
            14,
            EventData::SchedSwitchedIn {
                cpu: 0,
                prio: 2,
                preempt: false,
            },
        ),
        ev(16, EventData::ExitArrivalSite { ret: 0 }),
    ]
}

fn migrate_before_sleep() -> Vec<TraceEvent> {
    vec![
        ev(
            0,
            EventData::EnterClockNanoSleep {
                clock_id: ClockId::ClockMonotonic,
                abs_time: true,
                required_ns: 1467100683809847,
            },
        ),
        ev(
            1,
            EventData::SchedSwitchedOut {
                cpu: 3,
                prio: 76,
                state: 0,
            },
        ),
        ev(1467100665172670, EventData::SchedMigrateTask { dest_cpu: 2 }),
        ev(
            1467100665179967,
            EventData::SchedSwitchedIn {
                cpu: 2,
                prio: 76,
                preempt: false,
            },
        ),
        ev(
            1467100665190281,
            EventData::SchedSwitchedOut {
                cpu: 2,
                prio: 76,
                state: 1,
            },
        ),
        ev(1467100683814559, EventData::SchedWaking { cpu: 2 }),
        ev(1467100683821059, EventData::SchedWakeUp { cpu: 2 }),
        ev(
            1467100683831003,
            EventData::SchedSwitchedIn {
                cpu: 2,
                prio: 76,
                preempt: false,
            },
        ),
        ev(1467100683836318, EventData::ExitArrivalSite { ret: 0 }),
    ]
}

#[test]
fn signatures_test_clock_nanosleep() {
    let values = clock_nanosleep();
    let state: BlockingSyscall = check_seq(&values[..]);
    assert!(state.is_terminal_state());
    assert_eq!(
        state.job_separator(&values[..]),
        JobSeparator::ClockNanosleep {
            clock_id: ClockId::ClockMonotonic,
            abs_time: true
        }
    );
}

#[test]
fn syscall_test_clock_nanosleep() {
    let values = clock_nanosleep();

    let state: BlockingSyscall = check_seq(&values[..]);
    assert!(state.is_terminal_state());

    let values = migrate_before_sleep();
    assert_eq!(values.len(), 9);

    let state: BlockingSyscall = check_seq(&values[..]);
    assert!(state.is_terminal_state());
}

#[test]
fn test_job_separator_extractor() {
    let mut matchers = SignatureMatcher::new();
    let mut extracted: Vec<(JobSeparator, JobSeparation)> = Vec::new();

    let values = migrate_before_sleep();
    assert_eq!(values.len(), 9);

    for event in values.iter() {
        matchers.consume_event(*event, &mut extracted);
    }

    assert_eq!(extracted.len(), 2);

    assert_ne!(extracted[0].0, extracted[1].0);

    let nanosleep_sep = JobSeparator::ClockNanosleep {
        clock_id: ClockId::ClockMonotonic,
        abs_time: true,
    };
    let suspension_sep = JobSeparator::Suspension;

    if extracted[0].0 == nanosleep_sep {
        assert_eq!(extracted[1].0, suspension_sep);
    } else {
        assert_eq!(extracted[0].0, suspension_sep);
        assert_eq!(extracted[1].0, nanosleep_sep);
    }
}

#[test]
fn an_interrupted_syscall_is_not_a_job_boundary() {
    let mut values = clock_nanosleep();
    values.truncate(4);
    let state: BlockingSyscall = check_seq(&values[..]);
    assert!(!state.is_terminal_state());
}

#[test]
fn a_self_suspension_is_matched() {
    let values = clock_nanosleep();
    let state: SelfSuspension = check_seq(&values[1..4]);
    assert!(state.is_terminal_state());
    assert_eq!(state.job_separator(&values[1..4]), JobSeparator::Suspension);
}

#[test]
fn job_separation_makes_jobs() {
    let first = JobSeparation {
        prev_end: 5,
        curr_arrival: Some(10),
        curr_release: 12,
        curr_first_cycle: 12,
    };
    let next = JobSeparation {
        prev_end: 40,
        curr_arrival: None,
        curr_release: 50,
        curr_first_cycle: 40,
    };
    assert!(!first.is_back_to_back());
    assert!(next.is_back_to_back());
    let job = first.make_job(&next);
    assert_eq!(job.arrival, Some(10));
    assert_eq!(job.release, 12);
    assert_eq!(job.first_cycle, 12);
    assert_eq!(job.end, 40);
}

fn sched_yield_dl() -> Vec<TraceEvent> {
    vec![
        ev(10, EventData::EnterSchedYield {}),
        ev(
            11,
            EventData::SchedSwitchedOut {
                cpu: 0,
                prio: 99,
                state: 0,
            },
        ),
        ev(20, EventData::EnterDlTimer { expires: 25 }),
    ]
}

#[test]
fn sched_yield_deadline_signature() {
    let events = sched_yield_dl();

    let state: SchedYieldDeadline = check_seq(&events);
    assert!(state.is_terminal_state());

    let sep = state.job_separation(&events);
    assert_eq!(sep.prev_end, 10);
    assert_eq!(sep.curr_release, 20);
    assert_eq!(sep.curr_arrival, Some(25));
    assert_eq!(sep.curr_first_cycle, 25);

    assert_eq!(
        state.job_separator(&events),
        JobSeparator::YieldSchedDeadline
    );
}

#[test]
fn interrupted_sequence_rejects() {
    let mut events = vec![ev(
        5,
        EventData::SchedSwitchedOut {
            cpu: 0,
            prio: 99,
            state: 1,
        },
    )];
    let yielded = sched_yield_dl();
    events.push(yielded[0]);
    events.push(yielded[1]);
    events.push(ev(
        15,
        EventData::SchedSwitchedIn {
            cpu: 0,
            prio: 99,
            preempt: false,
        },
    ));
    events.push(yielded[2]);

    let state: SchedYieldDeadline = check_seq(&events);
    assert!(!state.is_terminal_state());
}

const SUSPENDING: ThreadId = ThreadId {
    pid: 98218,
    tgid: 98218,
};

fn sev(ts: u64, ev: EventData) -> TraceEvent {
    TraceEvent {
        id: SUSPENDING,
        ts,
        ev,
    }
}

fn self_suspending(with_migration: bool) -> Vec<TraceEvent> {
    let mut values = vec![
        sev(266655284184290, EventData::SchedWakeUp { cpu: 0 }),
        sev(
            266655284184582,
            EventData::SchedSwitchedIn {
                cpu: 0,
                prio: 99,
                preempt: false,
            },
        ),
        sev(
            266655284199789,
            EventData::SchedSwitchedOut {
                cpu: 0,
                prio: 99,
                state: 1,
            },
        ),
        sev(266655285181060, EventData::SchedWaking { cpu: 0 }),
    ];
    if with_migration {
        values.push(sev(
            266655285181727,
            EventData::SchedMigrateTask { dest_cpu: 1 },
        ));
    }
    values.push(sev(266655285183518, EventData::SchedWakeUp { cpu: 1 }));
    values.push(sev(
        266655285188018,
        EventData::SchedSwitchedIn {
            cpu: 1,
            prio: 99,
            preempt: true,
        },
    ));
    values.push(sev(
        266655285193434,
        EventData::SchedSwitchedOut {
            cpu: 1,
            prio: 99,
            state: 1,
        },
    ));
    values
}

#[test]
fn suspension_test_non_self_suspending_job() {
    let values = self_suspending(false);
    assert_eq!(values.len(), 7);

    let state: SelfSuspension = check_seq(&values[..5]);

    assert!(state.is_terminal_state());
}

#[test]
fn suspension_test_non_self_suspending_job_migration() {
    let values = self_suspending(true);

    let state: SelfSuspension = check_seq(&values[..6]);

    assert!(state.is_terminal_state());
}

#[test]
fn matcher_extracts_sched_yield_deadline() {
    let events = sched_yield_dl();
    let mut matcher = SignatureMatcher::new();
    let mut extracted = Vec::new();

    for event in events {
        matcher.consume_event(event, &mut extracted);
    }

    assert_eq!(extracted.len(), 1);
    assert_eq!(extracted[0].0, JobSeparator::YieldSchedDeadline);
}
