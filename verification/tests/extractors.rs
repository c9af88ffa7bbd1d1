use std::collections::BTreeMap;

use lime_rtw::events::{ClockId, EventData, TraceEvent};
use lime_rtw::ir::timeline::Timeline;
use lime_rtw::ir::Ir;
use lime_rtw::job::Job;
use lime_rtw::job_separator::JobSeparator;
use lime_rtw::model_extractors::arrival::arrival_curve::ArrivalCurve;
use lime_rtw::model_extractors::execution::{ExecutionTime, MaxSumN};
use lime_rtw::model_extractors::job_count::JobCounter;
use lime_rtw::model_extractors::rbf::{Demand, DemandAggregator, DemandTracker, Rbf};
use lime_rtw::model_extractors::rbf_old;
use lime_rtw::model_extractors::rbf_old::{MinSepCompressor, Step};
use lime_rtw::model_extractors::suspension::{BagOfSegmentedSelfSuspension, DynamicSelfSuspension};
use lime_rtw::utils::ThreadId;

const ID: ThreadId = ThreadId { pid: 0, tgid: 0 };

fn ev(ts: u64, ev: EventData) -> TraceEvent {
    TraceEvent { id: ID, ts, ev }
}

fn nanosleep(ts: u64, required_ns: i64) -> TraceEvent {
    ev(
        ts,
        EventData::EnterClockNanoSleep {
            clock_id: ClockId::ClockMonotonic,
            abs_time: true,
            required_ns,
        },
    )
}

fn switched_in(ts: u64) -> TraceEvent {
    ev(
        ts,
        EventData::SchedSwitchedIn {
            cpu: 0,
            prio: 2,
            preempt: false,
        },
    )
}

fn switched_out(ts: u64, state: u32) -> TraceEvent {
    ev(
        ts,
        EventData::SchedSwitchedOut {
            cpu: 0,
            prio: 2,
            state,
        },
    )
}

fn waking(ts: u64) -> TraceEvent {
    ev(ts, EventData::SchedWaking { cpu: 0 })
}

fn wake_up(ts: u64) -> TraceEvent {
    ev(ts, EventData::SchedWakeUp { cpu: 0 })
}

fn exit(ts: u64) -> TraceEvent {
    ev(ts, EventData::ExitArrivalSite { ret: 0 })
}

/// Three periodic jobs, each sleeping until an absolute time.
fn clock_nanosleep_example(wakeups: [i64; 3]) -> Vec<TraceEvent> {
    let mut v = Vec::new();
    for (k, base) in [0u64, 40, 80].iter().enumerate() {
        v.push(nanosleep(*base, wakeups[k]));
        v.push(switched_out(base + 1, 1));
        v.push(waking(base + 11));
        v.push(wake_up(base + 12));
        v.push(switched_in(base + 14));
        v.push(exit(base + 16));
    }
    v
}

fn run_ir(events: &[TraceEvent]) -> (Ir, Vec<(JobSeparator, Job)>) {
    let mut ir = Ir::new();
    let mut jobs = Vec::new();
    for event in events.iter().cloned() {
        ir.consume_event(event, &mut jobs);
    }
    (ir, jobs)
}

#[test]
fn test_job_extraction() {
    let (mut ir, mut jobs) = run_ir(&clock_nanosleep_example([10, 50, 90]));

    let mut count = 0;

    for (sep, job) in jobs.drain(..) {
        match sep {
            JobSeparator::ClockNanosleep { .. } => {
                assert_eq!(job.response_time(), 31);
                assert_eq!(job.processor_time(&mut ir.timeline), 41 - 14);
                assert_eq!(job.end % 40, 1);
                assert_eq!(job.release % 40, 12);
                assert_eq!((job.release - job.release_jitter()) % 40, 10);
            }
            JobSeparator::Suspension => {
                assert_eq!(job.response_time(), 29);
                assert_eq!(job.processor_time(&mut ir.timeline), 41 - 14);
                assert_eq!(job.end % 40, 1);
                assert_eq!(job.release % 40, 12);
                assert_eq!((job.release - job.release_jitter()) % 40, 12);
            }
            _ => unreachable!(),
        }
        count += 1;
    }
    assert_eq!(count, 4);
}

#[test]
fn test_wcet() {
    let (mut ir, mut jobs) = run_ir(&clock_nanosleep_example([10, 10, 10]));

    let mut tracker = ExecutionTime::new(32);

    for (sep, job) in jobs.drain(..) {
        if let JobSeparator::ClockNanosleep { .. } = sep {
            tracker.update(&mut ir.timeline, &job);
        }
    }

    assert_eq!(tracker.wcet(1).unwrap(), 41 - 14);
}

#[test]
fn test_max_sum_n() {
    let example = &[1u64, 2, 3, 4, 5, 6];

    let mut tracker = MaxSumN::new(4);

    for i in example[..3].iter() {
        tracker.update(*i);
    }

    assert_eq!(tracker.max_sum_n(1), Some(&3));
    assert_eq!(tracker.max_sum_n(2), Some(&5));
    assert_eq!(tracker.max_sum_n(3), Some(&6));
    assert_eq!(tracker.max_sum_n(4), None);

    for i in example[3..].iter() {
        tracker.update(*i);
    }

    assert_eq!(tracker.max_sum_n(1), Some(&6));
    assert_eq!(tracker.max_sum_n(2), Some(&11));
    assert_eq!(tracker.max_sum_n(3), Some(&15));
    assert_eq!(tracker.max_sum_n(4), Some(&18));

    tracker.update(1);

    assert_eq!(tracker.max_sum_n(1), Some(&6));
    assert_eq!(tracker.max_sum_n(2), Some(&11));
    assert_eq!(tracker.max_sum_n(3), Some(&15));
    assert_eq!(tracker.max_sum_n(4), Some(&18));
}

#[test]
fn max_sum_n_window_is_the_best_run() {
    let mut tracker = MaxSumN::new(2);
    for v in [5u64, 1, 1, 4, 4, 0] {
        tracker.update(v);
    }
    assert_eq!(tracker.max_sum_n(1), Some(&5));
    assert_eq!(tracker.max_sum_n(2), Some(&8));
    assert_eq!(tracker.max_sums(), &[5, 8]);
}

#[test]
fn arrival_curve_test_arrival_curve() {
    let example = [1, 4, 8, 9, 10, 16];
    let mut curve = ArrivalCurve::new(4);

    for t in example.iter() {
        let job = Job {
            end: 0,
            first_cycle: *t,
            arrival: None,
            release: *t,
        };

        curve.update(&job);
    }

    assert_eq!(curve.max_jobs_in_prefix(), 4);

    assert_eq!(curve.min_separation(0), Some(0));
    assert_eq!(curve.min_separation(1), Some(0));
    assert_eq!(curve.min_separation(2), Some(1));
    assert_eq!(curve.min_separation(3), Some(2));
    assert_eq!(curve.min_separation(4), Some(6));
    assert_eq!(curve.min_separation(5), None);

    let dmins: Vec<u64> = curve.delta_mins().to_vec();
    assert_eq!(dmins, [1, 2, 6]);

    let dmaxs: Vec<u64> = curve.delta_maxs().to_vec();
    assert_eq!(dmaxs, [6, 7, 8]);
}

#[test]
fn test_demand_aggregator() {
    let demands = &[
        Demand::new(10, 10),
        Demand::new(20, 10),
        Demand::new(40, 10),
        Demand::new(50, 10),
        Demand::new(60, 10),
        Demand::new(80, 10),
    ];

    let mut agg = DemandAggregator::new(None);
    let mut ret = Vec::new();

    for demand in demands.iter().cloned() {
        if let Some(d) = agg.push(demand) {
            ret.push(d);
        }
    }
    if let Some(d) = agg.flush() {
        ret.push(d);
    }

    assert_eq!(demands, ret.as_slice());

    ret.clear();
    agg.set_time_granularity_ns(50);

    for demand in demands.iter().cloned() {
        if let Some(d) = agg.push(demand) {
            ret.push(d);
        }
    }
    if let Some(d) = agg.flush() {
        ret.push(d);
    }

    let expected = &[Demand::new(0, 30), Demand::new(50, 30)];

    assert_eq!(ret, expected);
}

#[test]
fn rbf_test_demand_tracker() {
    let on_cpu = |ts: u64, cpu: u32| {
        ev(
            ts,
            EventData::SchedSwitchedIn {
                cpu,
                prio: 99,
                preempt: ts != 20_000_000,
            },
        )
    };
    let off_cpu = |ts: u64, cpu: u32, state: u32| {
        ev(
            ts,
            EventData::SchedSwitchedOut {
                cpu,
                prio: 99,
                state,
            },
        )
    };
    let values = vec![
        ev(10_000_000, EventData::SchedWakeUp { cpu: 0 }),
        on_cpu(20_000_000, 0),
        off_cpu(30_000_000, 0, 1),
        ev(39_000_000, EventData::SchedWaking { cpu: 0 }),
        ev(40_000_000, EventData::SchedWakeUp { cpu: 1 }),
        on_cpu(40_500_000, 1),
        off_cpu(50_500_000, 1, 0),
        ev(58_000_000, EventData::SchedWaking { cpu: 0 }),
        ev(58_500_000, EventData::SchedWakeUp { cpu: 1 }),
        on_cpu(60_000_000, 1),
        off_cpu(65_000_000, 0, 1),
    ];
    let mut tracker = DemandTracker::new();

    let ret = values
        .iter()
        .map(|e| tracker.update(e))
        .collect::<Vec<Option<Demand>>>();

    let expected = [
        None,
        None,
        Some(Demand::new(20_000_000, 10_000_000)),
        None,
        None,
        None,
        None,
        None,
        None,
        None,
        Some(Demand::new(40_000_000, 15_000_000)),
    ];

    assert_eq!(ret, &expected);
}

#[test]
fn rbf_old_test_demand_tracker() {
    let mut tracker = rbf_old::DemandTracker::new();
    let id = ThreadId::new(0, 0);

    let e = TraceEvent {
        ts: 0,
        id,
        ev: EventData::SchedSwitchedOut {
            cpu: 0,
            prio: 0,
            state: 1,
        },
    };
    let ret = tracker.update(&e);
    assert_eq!(ret, None);

    let e = TraceEvent {
        ts: 5,
        id,
        ev: EventData::SchedWakeUp { cpu: 0 },
    };
    let ret = tracker.update(&e);
    assert_eq!(ret, None);

    let e = TraceEvent {
        ts: 10,
        id,
        ev: EventData::SchedSwitchedIn {
            cpu: 0,
            prio: 0,
            preempt: false,
        },
    };
    let ret = tracker.update(&e);
    assert_eq!(ret, None);

    let e = TraceEvent {
        ts: 20,
        id,
        ev: EventData::SchedSwitchedOut {
            cpu: 0,
            prio: 0,
            state: 0,
        },
    };
    let ret = tracker.update(&e);
    assert_eq!(ret, None);

    let e = TraceEvent {
        ts: 30,
        id,
        ev: EventData::SchedSwitchedIn {
            cpu: 0,
            prio: 0,
            preempt: false,
        },
    };
    let ret = tracker.update(&e);
    assert_eq!(ret, None);

    let e = TraceEvent {
        ts: 40,
        id,
        ev: EventData::SchedSwitchedOut {
            cpu: 0,
            prio: 0,
            state: 1,
        },
    };
    let ret = tracker.update(&e);
    assert_eq!(
        ret,
        Some(Demand {
            arrival: 5,
            work: 20
        })
    );
}

#[test]
fn test_min_sep_compression() {
    let mut steps: Vec<Step> = Vec::new();
    let var_name = MinSepCompressor::new(2);
    let compressor = var_name;

    compressor.compress(&mut steps);
    assert_eq!(steps, vec![]);

    let mut steps = vec![Step { delta: 1, work: 1 }];
    let expected = steps.clone();

    compressor.compress(&mut steps);
    assert_eq!(steps, expected);

    let mut steps = vec![Step { delta: 1, work: 1 }, Step { delta: 2, work: 2 }];

    let expected = vec![Step { delta: 1, work: 2 }];

    compressor.compress(&mut steps);
    assert_eq!(steps, expected);

    let mut steps = vec![
        Step { delta: 1, work: 1 },
        Step { delta: 2, work: 2 },
        Step { delta: 3, work: 3 },
        Step { delta: 4, work: 4 },
        Step { delta: 5, work: 5 },
        Step { delta: 6, work: 6 },
    ];

    let expected = vec![
        Step { delta: 1, work: 2 },
        Step { delta: 3, work: 4 },
        Step { delta: 5, work: 6 },
    ];

    compressor.compress(&mut steps);
    assert_eq!(steps, expected);

    let mut steps = vec![
        Step { delta: 1, work: 1 },
        Step { delta: 2, work: 2 },
        Step { delta: 3, work: 3 },
        Step { delta: 4, work: 4 },
        Step { delta: 5, work: 5 },
        Step { delta: 6, work: 6 },
        Step { delta: 7, work: 7 },
    ];

    let expected = vec![
        Step { delta: 1, work: 2 },
        Step { delta: 3, work: 4 },
        Step { delta: 5, work: 6 },
        Step { delta: 7, work: 7 },
    ];

    compressor.compress(&mut steps);
    assert_eq!(steps, expected);
}

fn self_suspending_example() -> Vec<TraceEvent> {
    vec![
        nanosleep(0, 10),
        switched_out(1, 1),
        waking(11),
        wake_up(12),
        switched_in(14),
        exit(16),
        switched_out(21, 0),
        waking(25),
        wake_up(26),
        switched_in(27),
        switched_out(31, 1),
        waking(41),
        wake_up(42),
        switched_in(44),
        nanosleep(50, 60),
        switched_out(51, 1),
        waking(61),
        wake_up(62),
        switched_in(64),
        exit(66),
        switched_out(71, 1),
        waking(91),
        wake_up(92),
        switched_in(94),
        nanosleep(100, 110),
        exit(116),
    ]
}

#[test]
fn test_bag_of_self_suspensions() {
    let mut bsss = BagOfSegmentedSelfSuspension::with_capacity(2);
    let mut timeline = Timeline::new();

    for e in self_suspending_example().iter() {
        timeline.update(e);
    }

    let j = Job {
        release: 12,
        arrival: None,
        first_cycle: 12,
        end: 50,
    };

    bsss.update(&mut timeline, &j);

    let mut expected = BTreeMap::new();
    expected.insert(2, vec![(0, 11), (11, 6)]);

    let segments = bsss.extract().unwrap();
    assert_eq!(segments, expected);

    let j = Job {
        release: 62,
        arrival: None,
        first_cycle: 62,
        end: 100,
    };

    bsss.update(&mut timeline, &j);
    expected.insert(2, vec![(0, 11), (21, 6)]);

    let segments = bsss.extract().unwrap();
    assert_eq!(segments, expected);

    let j = Job {
        release: 12,
        first_cycle: 12,
        arrival: None,
        end: 100,
    };

    bsss.update(&mut timeline, &j);
    let segments = bsss.extract().unwrap();
    expected.insert(4, vec![(0, 11), (11, 7), (11, 7), (21, 6)]);
    assert_eq!(segments, expected);

    let j = Job {
        release: 0,
        first_cycle: 0,
        arrival: None,
        end: 100,
    };

    bsss.update(&mut timeline, &j);
    let segments = bsss.extract();
    assert_eq!(segments, None);
}

#[test]
fn dynamic_self_suspension_keeps_the_largest() {
    let mut timeline = Timeline::new();
    for e in self_suspending_example().iter() {
        timeline.update(e);
    }
    let mut tracker = DynamicSelfSuspension::new();
    assert_eq!(tracker.get(), 0);
    let first = Job {
        release: 12,
        arrival: None,
        first_cycle: 12,
        end: 50,
    };
    // Suspended from 31 to 42.
    assert_eq!(tracker.update(&mut timeline, &first), 11);
    let second = Job {
        release: 62,
        arrival: None,
        first_cycle: 62,
        end: 100,
    };
    // Suspended from 71 to 92.
    assert_eq!(tracker.update(&mut timeline, &second), 21);
    assert_eq!(tracker.get(), 21);
    assert_eq!(tracker.update(&mut timeline, &first), 21);
}

#[test]
fn job_counter_counts_jobs() {
    let mut counter = JobCounter::new();
    assert_eq!(counter.get(), 0);
    let job = Job {
        release: 1,
        arrival: None,
        first_cycle: 1,
        end: 2,
    };
    counter.update(&job);
    counter.update(&job);
    assert_eq!(counter.get(), 2);
}

#[test]
fn rbf_request_bound_is_the_last_step_below() {
    let rbf = Rbf::new(vec![(0, 5), (10, 8), (20, 12)]);
    assert_eq!(rbf.request_bound(0), Some(0));
    assert_eq!(rbf.request_bound(5), Some(5));
    assert_eq!(rbf.request_bound(15), Some(8));
    assert_eq!(rbf.max_delta_covered(), Some(20));
    assert!(rbf.is_delta_covered(20));
    assert!(!rbf.is_delta_covered(21));
}

#[test]
fn an_empty_rbf_covers_nothing() {
    let rbf = Rbf::default();

    assert_eq!(rbf.is_delta_covered(42), rbf.request_bound(42).is_some());
    assert_eq!(rbf.request_bound(42), None);
    assert_eq!(rbf.max_delta_covered(), None);
}

#[test]
fn a_covered_delta_below_every_step_has_no_bound() {
    let rbf = Rbf::new(vec![(5, 1), (10, 2)]);

    assert!(rbf.is_delta_covered(3));
    assert_eq!(rbf.request_bound(3), None);
    assert_eq!(rbf.request_bound(7), Some(1));
}
