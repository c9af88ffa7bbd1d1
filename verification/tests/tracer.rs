use std::time::Duration;

use lime_rtw::context::LimeContext;
use lime_rtw::events::{ClockId, EventData, TraceEvent};
use lime_rtw::io::LimeOutputDirectory;
use lime_rtw::job_separator::JobSeparator;
use lime_rtw::model_extractors::rbf::RbfExtractor;
use lime_rtw::processors::extract_job::{JobExtractor, TaskJobExtractor};
use lime_rtw::task::TaskId;
use lime_rtw::trace::writer::EventsFileFormat;
use lime_rtw::tracer::pid_namespace::{CurrentPidNamespace, Detection, PID_NS_INIT_ID, PID_NS_INIT_INO};
use lime_rtw::tracer::{InnerRateLimiter, RateLimiter, RateLimiterResult, SchedPolicy};
use lime_rtw::utils::{Dispatcher, ThreadId};

fn ev(pid: u32, ts: u64, ev: EventData) -> TraceEvent {
    TraceEvent {
        id: ThreadId { pid, tgid: pid },
        ts,
        ev,
    }
}

#[test]
fn a_budget_throttles_then_releases() {
    let mut l = InnerRateLimiter::new(2);
    assert_eq!(l.get_token(), RateLimiterResult::Allowed);
    assert_eq!(l.get_token(), RateLimiterResult::Allowed);
    assert_eq!(l.get_token(), RateLimiterResult::Throttling);
    assert_eq!(l.get_token(), RateLimiterResult::Throttled);
    // One more period throttled, then the budget comes back.
    assert!(!l.refresh());
    assert_eq!(l.get_token(), RateLimiterResult::Throttled);
    assert!(l.refresh());
    assert_eq!(l.get_token(), RateLimiterResult::ThrottleRelease);
    assert_eq!(l.get_token(), RateLimiterResult::Allowed);
    assert_eq!(l.get_token(), RateLimiterResult::Throttling);
    assert!(!l.refresh());
}

#[test]
fn rate_limiter_keeps_a_budget_per_thread() {
    let mut r = RateLimiter::new(1);
    let a = ev(1, 0, EventData::SchedWakeUp { cpu: 0 });
    let b = ev(2, 0, EventData::SchedWakeUp { cpu: 0 });
    assert_eq!(r.is_block_listed(&a), RateLimiterResult::Allowed);
    assert_eq!(r.is_block_listed(&b), RateLimiterResult::Allowed);
    assert_eq!(r.is_block_listed(&a), RateLimiterResult::Throttling);
    assert_eq!(r.refresh(), Vec::<u32>::new());
    assert_eq!(r.refresh(), vec![1]);
    assert_eq!(r.is_block_listed(&a), RateLimiterResult::ThrottleRelease);
    // The exit of a thread forgets its budget.
    assert_eq!(
        r.is_block_listed(&ev(1, 0, EventData::SchedProcessExit)),
        RateLimiterResult::Allowed
    );
    assert_eq!(r.is_block_listed(&a), RateLimiterResult::Allowed);
    assert_eq!(r.get_token(2), RateLimiterResult::Throttling);
    r.remove(2);
    assert_eq!(r.get_token(2), RateLimiterResult::Allowed);
}

#[test]
fn throttling_is_announced_around_the_event() {
    let e = ev(3, 7, EventData::SchedWakeUp { cpu: 0 });
    assert_eq!(RateLimiterResult::Allowed.events_to_send(&e), vec![e]);
    assert!(RateLimiterResult::Throttled.events_to_send(&e).is_empty());
    let release = RateLimiterResult::ThrottleRelease.events_to_send(&e);
    assert_eq!(release.len(), 2);
    assert_eq!(release[0].ev, EventData::LimeThrottleRelease);
    assert_eq!(release[1], e);
    let throttling = RateLimiterResult::Throttling.events_to_send(&e);
    assert_eq!(throttling[0], e);
    assert_eq!(throttling[1].ev, EventData::LimeThrottle);
    assert_eq!(throttling[1].ts, 7);
}

#[test]
fn sched_policies_are_numbered() {
    assert_eq!(SchedPolicy::SchedNormal.num(), 0);
    assert_eq!(SchedPolicy::SchedFifo.num(), 1);
    assert_eq!(SchedPolicy::SchedDeadline.num(), 6);
}

#[test]
fn pid_namespace_detection() {
    assert!(Detection::from_readings(12, Some(PID_NS_INIT_ID)).current_is_init_pidns());
    assert!(Detection::from_readings(PID_NS_INIT_INO, None).current_is_init_pidns());
    let nested = Detection::from_readings(12, Some(9));
    assert!(!nested.current_is_init_pidns());
    assert_eq!(nested.current_pidns_inum(), Some(12));
    assert_eq!(
        Detection::from_readings(12, None).current_pid_namespace(),
        CurrentPidNamespace::Unknown { inum: 12 }
    );
    let target = Detection::with_target_override(77);
    assert_eq!(target.current_pidns_inum(), Some(77));
    assert_eq!(CurrentPidNamespace::Initial.inum(), None);
}

fn nanosleep_job(base: u64) -> Vec<TraceEvent> {
    vec![
        ev(
            0,
            base,
            EventData::EnterClockNanoSleep {
                clock_id: ClockId::ClockMonotonic,
                abs_time: true,
                required_ns: (base + 10) as i64,
            },
        ),
        ev(
            0,
            base + 1,
            EventData::SchedSwitchedOut {
                cpu: 0,
                prio: 2,
                state: 1,
            },
        ),
        ev(0, base + 11, EventData::SchedWaking { cpu: 0 }),
        ev(0, base + 12, EventData::SchedWakeUp { cpu: 0 }),
        ev(
            0,
            base + 14,
            EventData::SchedSwitchedIn {
                cpu: 0,
                prio: 2,
                preempt: false,
            },
        ),
        ev(0, base + 16, EventData::ExitArrivalSite { ret: 0 }),
    ]
}

#[test]
fn jobs_are_summarised_by_separator() {
    let mut extractor = TaskJobExtractor::new();
    for base in [0u64, 40, 80] {
        for e in nanosleep_job(base) {
            extractor.consume_event(e);
        }
    }
    let summaries = extractor.job_summaries();
    let mut total = 0;
    for (sep, jobs) in summaries.iter() {
        // A nanosleep job starts at its arrival, two units before the
        // wake-up that ends the previous suspension.
        let suspended = match sep {
            JobSeparator::ClockNanosleep { .. } => 2,
            JobSeparator::Suspension => 0,
            _ => unreachable!(),
        };
        for s in jobs.iter() {
            assert_eq!(s.execution_time, 41 - 14);
            assert_eq!(s.suspension_time, suspended);
        }
        total += jobs.len();
    }
    assert_eq!(total, 4);
}

#[test]
fn job_extractor_keeps_one_extractor_per_task() {
    let dir = LimeOutputDirectory::new("out".to_string());
    let mut extractor = JobExtractor::new(dir);
    let a = TaskId::new(1, 0);
    let b = TaskId::new(2, 0);
    for e in nanosleep_job(0) {
        extractor.consume_event(&a, e);
    }
    for e in nanosleep_job(0) {
        extractor.consume_event(&b, e);
    }
    extractor.end_of_trace();
    let tasks: Vec<TaskId> = extractor
        .task_job_extractors()
        .iter()
        .map(|(t, _)| *t)
        .collect();
    assert_eq!(tasks, vec![a, b]);
    assert_eq!(extractor.output_dir().path(), "out");
}

#[test]
fn dispatcher_updates_and_removes() {
    let mut d: Dispatcher<TaskId, u32> = Dispatcher::new();
    d.insert_new(TaskId::new(1, 0), 5);
    *d.get_or_default(&TaskId::new(2, 0)) += 1;
    if let Some(v) = d.get_mut(&TaskId::new(1, 0)) {
        *v += 10;
    }
    assert!(d.get_mut(&TaskId::new(3, 0)).is_none());
    *d.value_at_mut(1) += 1;
    assert_eq!(d.values(), vec![&15, &2]);
    assert_eq!(d.len(), 2);
    assert_eq!(d.remove(&TaskId::new(1, 0)), Some(15));
    assert_eq!(d.remove(&TaskId::new(1, 0)), None);
    assert_eq!(d.keys(), vec![TaskId::new(2, 0)]);
}

#[test]
fn rbf_extractor_follows_the_context() {
    let mut ctx = LimeContext {
        output_dir: LimeOutputDirectory::new("out".to_string()),
        verbose: false,
        cmd_vec: vec!["sleep".to_string(), "1".to_string()],
        trace_all: false,
        trace_best_effort: false,
        limiter_period: Duration::from_millis(10),
        limiter_budget: 10,
        all_threads: false,
        ebpf_poll_interval: Duration::from_millis(1),
        no_init_rbf_update: false,
        enable_rbf: false,
        rbf_max_steps: 10,
        rbf_horizon: 0,
        rbf_min_sep: 0,
        wcet_n_max_len: 4,
        arrival_curve_max_len: 4,
        period_extractor_batch_size: 16,
        allow_task_priority_change: false,
        allow_task_affinity_change: false,
        tx_batch_size: 1,
        output_format: EventsFileFormat::Json,
    };
    assert_eq!(ctx.get_cmd_vec().map(|v| v.len()), Some(2));
    assert!(RbfExtractor::from_lime_context(&ctx).is_empty());
    ctx.enable_rbf = true;
    ctx.cmd_vec.clear();
    assert!(ctx.get_cmd_vec().is_none());
    let e = RbfExtractor::from_lime_context(&ctx);
    assert!(e.is_empty());
    assert!(e.to_rbf().steps().is_empty());
}

#[test]
fn events_out_of_order_are_refused() {
    let mut extractor = TaskJobExtractor::new();
    let switched_in = |ts| {
        ev(
            0,
            ts,
            EventData::SchedSwitchedIn {
                cpu: 0,
                prio: 1,
                preempt: false,
            },
        )
    };
    let switched_out = |ts| {
        ev(
            0,
            ts,
            EventData::SchedSwitchedOut {
                cpu: 0,
                prio: 1,
                state: 0,
            },
        )
    };
    assert!(extractor.accepts(&switched_in(10)));
    extractor.consume_event(switched_in(10));
    assert!(!extractor.accepts(&switched_out(5)));
    assert!(extractor.accepts(&switched_out(20)));
    extractor.consume_event(switched_out(20));
    assert!(!extractor.accepts(&switched_in(15)));
    assert!(extractor.accepts(&switched_in(21)));

    let mut jobs = JobExtractor::new(LimeOutputDirectory::new("out".to_string()));
    let task = TaskId::new(4, 0);
    assert!(jobs.accepts(&task, &switched_out(5)));
    jobs.consume_event(&task, switched_in(10));
    assert!(!jobs.accepts(&task, &switched_out(5)));
}
