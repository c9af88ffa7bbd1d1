use lime_rtw::events::{ClockId, EventData, TraceEvent};
use lime_rtw::job_separator::JobSeparator;
use lime_rtw::model_extractors::arrival::{ArrivalModel, Periodic};
use lime_rtw::model_extractors::rbf::RbfExtractor;
use lime_rtw::model_extractors::task_model::ThreadTaskModelExtractor;
use lime_rtw::utils::ThreadId;

const ID: ThreadId = ThreadId { pid: 0, tgid: 0 };

fn ev(ts: u64, ev: EventData) -> TraceEvent {
    TraceEvent { id: ID, ts, ev }
}

/// Three jobs, each sleeping until an absolute time of the monotonic clock.
fn periodic_trace() -> Vec<TraceEvent> {
    let mut v = Vec::new();
    for (k, base) in [0u64, 40, 80].iter().enumerate() {
        v.push(ev(*base, EventData::EnterClockNanoSleep {
            clock_id: ClockId::ClockMonotonic,
            abs_time: true,
            required_ns: [10, 50, 90][k],
        }));
        v.push(ev(base + 1, EventData::SchedSwitchedOut { cpu: 0, prio: 2, state: 1 }));
        v.push(ev(base + 11, EventData::SchedWaking { cpu: 0 }));
        v.push(ev(base + 12, EventData::SchedWakeUp { cpu: 0 }));
        v.push(ev(base + 14, EventData::SchedSwitchedIn { cpu: 0, prio: 2, preempt: false }));
        v.push(ev(base + 16, EventData::ExitArrivalSite { ret: 0 }));
    }
    v
}

fn run(trace: &[TraceEvent]) -> ThreadTaskModelExtractor {
    let mut e = ThreadTaskModelExtractor::new(32, 4, RbfExtractor::new(None, 100, false));
    for event in trace.iter() {
        assert!(e.accepts(event));
        e.consume_event(*event);
    }
    e
}

#[test]
fn jobs_reach_the_extractors_of_their_separator() {
    let e = run(&periodic_trace());
    let models = e.separator_models();
    assert_eq!(models.len(), 2);
    let sleep = JobSeparator::ClockNanosleep { clock_id: ClockId::ClockMonotonic, abs_time: true };
    let m = models.iter().find(|m| m.separator == sleep).unwrap();
    assert_eq!(m.count, 2);
    assert_eq!(m.wcet_n, vec![27, 54]);
    assert_eq!(
        m.arrival_models.last(),
        Some(&ArrivalModel::Periodic(Periodic::Arrival { period: 40, max_jitter: 2, offset: 10 }))
    );
    let s = models.iter().find(|m| m.separator == JobSeparator::Suspension).unwrap();
    assert_eq!(s.count, 2);
    assert_eq!(s.wcet_n, vec![27, 54]);
    assert!(s.arrival_models.iter().all(|a| !matches!(a, ArrivalModel::Periodic(_))));
    assert_eq!(e.event_rate_tracker().count(), 18);
}

#[test]
fn empty_threads_are_reported_only_when_asked() {
    let e = ThreadTaskModelExtractor::new(32, 4, RbfExtractor::new(None, 100, true));
    assert!(e.is_empty());
    assert!(!e.should_report(false, true, Some(true)));
    assert!(e.should_report(true, true, Some(true)));
    let f = run(&periodic_trace());
    assert!(!f.is_empty());
    assert!(f.should_report(false, false, Some(true)));
    assert!(!f.should_report(false, false, Some(false)));
    assert!(!f.should_report(false, false, None));
    assert!(f.should_report(false, true, None));
}
