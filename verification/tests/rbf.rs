use lime_rtw::events::{EventData, TraceEvent};
use lime_rtw::model_extractors::rbf::{Demand, RBFSteps, RbfExtractor};
use lime_rtw::utils::ThreadId;

fn pairs(steps: &RBFSteps) -> Vec<(u64, u64)> {
    let mut ret = Vec::new();
    steps.step_pairs(&mut ret, false, None);
    ret
}

#[test]
fn steps_of_a_window() {
    let mut steps = RBFSteps::new();
    steps.update(&[
        Demand::new(10, 5),
        Demand::new(20, 3),
        Demand::new(30, 4),
    ]);
    assert_eq!(pairs(&steps), vec![(1, 4), (11, 7), (21, 12)]);
    assert_eq!(steps.len(), 3);
}

#[test]
fn dominated_steps_are_not_inserted() {
    let mut steps = RBFSteps::new();
    let window = [Demand::new(0, 10), Demand::new(5, 1)];
    steps.update(&window);
    assert_eq!(pairs(&steps), vec![(1, 1), (6, 11)]);
    steps.update(&window);
    assert_eq!(pairs(&steps), vec![(1, 1), (6, 11)]);
}

#[test]
fn steps_are_raised_inserted_and_dropped() {
    let mut steps = RBFSteps::new();
    steps.update(&[Demand::new(0, 10), Demand::new(5, 1)]);
    // Same delta, more work: the step is raised.
    steps.update(&[Demand::new(0, 20), Demand::new(5, 1)]);
    assert_eq!(pairs(&steps), vec![(1, 1), (6, 21)]);
    // A new delta between two steps.
    steps.update(&[Demand::new(2, 5), Demand::new(5, 1)]);
    assert_eq!(pairs(&steps), vec![(1, 1), (4, 6), (6, 21)]);
    // Raising a step drops the later ones it dominates.
    steps.update(&[Demand::new(0, 30), Demand::new(3, 1)]);
    assert_eq!(pairs(&steps), vec![(1, 1), (4, 31)]);

    steps.do_trim_steps(Some(5));
    assert_eq!(pairs(&steps), vec![(1, 1), (4, 31)]);
    steps.do_trim_steps(Some(4));
    // A single exact pair gets a second one.
    assert_eq!(pairs(&steps), vec![(1, 1), (2, 1)]);
}

#[test]
fn pairs_are_cut_at_the_horizon() {
    let mut steps = RBFSteps::new();
    steps.update(&[
        Demand::new(10, 5),
        Demand::new(20, 3),
        Demand::new(30, 4),
    ]);
    let mut exact = Vec::new();
    steps.step_pairs(&mut exact, false, Some(15));
    assert_eq!(exact, vec![(1, 4), (11, 7), (15, 7)]);
    let mut shifted = Vec::new();
    steps.step_pairs(&mut shifted, true, None);
    assert_eq!(shifted, vec![(1, 7), (11, 12)]);
    let mut shifted = Vec::new();
    steps.step_pairs(&mut shifted, true, Some(5));
    assert_eq!(shifted, vec![(1, 7), (5, 7)]);
}

fn ev(ts: u64, ev: EventData) -> TraceEvent {
    TraceEvent {
        id: ThreadId { pid: 0, tgid: 0 },
        ts,
        ev,
    }
}

fn two_jobs() -> Vec<TraceEvent> {
    vec![
        ev(10_000_000, EventData::SchedWakeUp { cpu: 0 }),
        ev(
            20_000_000,
            EventData::SchedSwitchedIn {
                cpu: 0,
                prio: 99,
                preempt: false,
            },
        ),
        ev(
            30_000_000,
            EventData::SchedSwitchedOut {
                cpu: 0,
                prio: 99,
                state: 1,
            },
        ),
        ev(39_000_000, EventData::SchedWaking { cpu: 0 }),
        ev(40_000_000, EventData::SchedWakeUp { cpu: 1 }),
        ev(
            40_500_000,
            EventData::SchedSwitchedIn {
                cpu: 1,
                prio: 99,
                preempt: true,
            },
        ),
        ev(
            50_500_000,
            EventData::SchedSwitchedOut {
                cpu: 1,
                prio: 99,
                state: 0,
            },
        ),
        ev(58_000_000, EventData::SchedWaking { cpu: 0 }),
        ev(58_500_000, EventData::SchedWakeUp { cpu: 1 }),
        ev(
            60_000_000,
            EventData::SchedSwitchedIn {
                cpu: 1,
                prio: 99,
                preempt: true,
            },
        ),
        ev(
            65_000_000,
            EventData::SchedSwitchedOut {
                cpu: 0,
                prio: 99,
                state: 1,
            },
        ),
    ]
}

#[test]
fn rbf_extractor_builds_steps_from_events() {
    let mut extractor = RbfExtractor::new(None, 100, true);
    assert!(extractor.is_empty());
    for e in two_jobs().iter() {
        extractor.update(e);
    }
    // The second demand is still pending in the aggregator.
    assert_eq!(extractor.rbf_step_pairs(), vec![(1, 10_000_000), (10_000_001, 10_000_000)]);
    extractor.flush();
    assert_eq!(
        extractor.rbf_step_pairs(),
        vec![(1, 15_000_000), (20_000_001, 25_000_000)]
    );
    assert_eq!(
        extractor.to_rbf().steps(),
        &[(1, 15_000_000), (20_000_001, 25_000_000)]
    );
    assert!(!extractor.is_empty());
}

#[test]
fn disabled_rbf_extractor_stays_empty() {
    let mut extractor = RbfExtractor::new(None, 100, false);
    for e in two_jobs().iter() {
        extractor.update(e);
    }
    extractor.flush();
    assert!(extractor.is_empty());
    assert!(extractor.to_rbf().steps().is_empty());
}

#[test]
fn steps_of_increasing_arrivals_form_a_staircase() {
    let mut steps = RBFSteps::new();
    let window: Vec<Demand> = (0..20u64).map(|i| Demand::new(i * i, 1 + i % 3)).collect();
    steps.update(&window);
    steps.update(&window[..10]);
    let p = pairs(&steps);
    for w in p.windows(2) {
        assert!(w[0].0 < w[1].0);
        assert!(w[0].1 <= w[1].1);
    }
}

#[test]
fn cheapest_step_is_merged_into_the_one_before() {
    let mut steps = RBFSteps::new();
    steps.update(&[
        Demand::new(0, 10),
        Demand::new(20, 10),
        Demand::new(40, 10),
        Demand::new(60, 10),
        Demand::new(75, 5),
    ]);
    assert_eq!(
        steps.items_vec(),
        vec![(1, 5), (16, 15), (36, 25), (56, 35), (76, 45)]
    );
    // Merge costs: 15 * 10, then 20 * 10 three times.
    steps.compress_1();
    assert_eq!(steps.items_vec(), vec![(1, 15), (36, 25), (56, 35), (76, 45)]);
    // All costs are now 20 * 10 and up: the last of the least is merged.
    steps.compress_1();
    assert_eq!(steps.items_vec(), vec![(1, 15), (36, 25), (56, 45)]);
}

#[test]
fn close_steps_merge_in_one_pass() {
    let mut steps = RBFSteps::new();
    steps.update(&[Demand::new(0, 1), Demand::new(5, 1), Demand::new(30, 1)]);
    assert_eq!(steps.items_vec(), vec![(1, 1), (26, 2), (31, 3)]);
    let merged = steps.merge_close_steps(10, 0);
    assert_eq!(merged, 1);
    assert_eq!(steps.items_vec(), vec![(1, 1), (26, 3)]);
    steps.trim_beyond(25);
    assert_eq!(steps.items_vec(), vec![(1, 1)]);
}
