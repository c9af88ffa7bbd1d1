use lime_rtw::events::{EventData, TraceEvent};
use lime_rtw::interval::TimeInterval;
use lime_rtw::ir::timeline::layers::base::BaseLayer;
use lime_rtw::ir::timeline::layers::execution::ExecutionLayer;
use lime_rtw::ir::timeline::layers::suspension::SuspensionLayer;
use lime_rtw::ir::timeline::layers::Layer;
use lime_rtw::utils::ThreadId;

const ID: ThreadId = ThreadId { pid: 0, tgid: 0 };

fn ev(ts: u64, ev: EventData) -> TraceEvent {
    TraceEvent { id: ID, ts, ev }
}

fn switched_in(ts: u64) -> TraceEvent {
    ev(
        ts,
        EventData::SchedSwitchedIn {
            cpu: 0,
            prio: 0,
            preempt: true,
        },
    )
}

fn switched_out(ts: u64, state: u32) -> TraceEvent {
    ev(
        ts,
        EventData::SchedSwitchedOut {
            cpu: 0,
            prio: 0,
            state,
        },
    )
}

fn wake_up(ts: u64) -> TraceEvent {
    ev(ts, EventData::SchedWakeUp { cpu: 0 })
}

fn example_1() -> Vec<TraceEvent> {
    vec![
        switched_in(0),
        switched_out(5, 0),
        switched_in(20),
        switched_out(25, 0),
        switched_in(30),
        switched_out(35, 2),
        switched_in(40),
        switched_out(45, 0),
        switched_in(50),
        switched_out(55, 1),
        switched_in(60),
        switched_out(65, 0),
        switched_in(70),
        switched_out(75, 2),
    ]
}

fn example_2() -> Vec<TraceEvent> {
    vec![
        switched_in(0),
        switched_out(5, 0),
        wake_up(15),
        switched_in(16),
        switched_out(20, 1),
        wake_up(30),
        switched_in(31),
        switched_out(35, 0),
        wake_up(45),
        switched_in(46),
        switched_out(50, 2),
        wake_up(60),
        switched_in(61),
        switched_out(65, 128),
        wake_up(75),
    ]
}

#[test]
fn base_test_compression() {
    let mut layer = BaseLayer::new();

    let mut expected_plains = Vec::new();

    for i in 0..10 {
        layer.push_lower_bound(i * 3);
        layer.push_upper_bound(i * 3 + 2);
        expected_plains.push(TimeInterval::range(i * 3, i * 3 + 2));
    }

    layer.compress(6, true);

    let compressed = layer.compressed(0);
    assert_eq!(compressed, &[(TimeInterval::range(0, 6), 4)]);

    layer.compress(15, false);
    let compressed = layer.compressed(0);
    let plains = layer.plains().to_vec();
    assert_eq!(compressed, &[(TimeInterval::range(0, 15), 10)]);
    assert_eq!(plains, expected_plains[5..]);

    let mut layer = BaseLayer::new();

    for i in 0..10 {
        layer.push_lower_bound(i * 3);
        layer.push_upper_bound(i * 3 + 2);
    }

    layer.compress(6, true);

    let compressed = layer.compressed(0);
    assert_eq!(compressed, &[(TimeInterval::range(0, 6), 4)]);
    let plains = layer.plains().to_vec();
    assert_eq!(plains, expected_plains[2..]);

    layer.compress(15, true);
    let compressed = layer.compressed(0);
    let plains = layer.plains().to_vec();
    assert_eq!(
        compressed,
        &[
            (TimeInterval::range(0, 6), 4),
            (TimeInterval::range(6, 15), 6)
        ]
    );
    assert_eq!(plains, expected_plains[5..]);

    layer.trim(&TimeInterval::infinite_right(6));
    let compressed = layer.compressed(0);
    assert_eq!(compressed, &[(TimeInterval::range(6, 15), 6)]);
    let plains = layer.plains().to_vec();
    assert_eq!(plains, expected_plains[5..]);

    layer.trim(&TimeInterval::infinite_right(21));
    let compressed = layer.compressed(0);
    assert_eq!(compressed, &[]);
    let plains = layer.plains().to_vec();
    assert_eq!(plains, expected_plains[7..]);
}

#[test]
fn test_runtime_tracker() {
    let mut tracker = ExecutionLayer::new();
    let range = TimeInterval::range(20, 30);

    assert_eq!(tracker.time(&range), 0);

    for event in example_1()[2..5].iter() {
        tracker.update(event);
    }

    assert_eq!(tracker.time(&range), 5)
}

#[test]
fn test_suspension_tracker() {
    let mut tracker = SuspensionLayer::new();

    let range = TimeInterval::range(20, 30);
    assert_eq!(tracker.time(&range), 0);

    for event in example_2().iter() {
        tracker.update(event);
    }

    let range = TimeInterval::range(0, 60);
    assert_eq!(tracker.time(&range), 20)
}

#[test]
fn execution_layer_counts_every_run() {
    let mut tracker = ExecutionLayer::new();
    for event in example_1().iter() {
        tracker.update(event);
    }
    // Seven runs of five units each.
    assert_eq!(tracker.time(&TimeInterval::range(0, 100)), 35);
    assert_eq!(tracker.time(&TimeInterval::range(22, 42)), 3 + 5 + 2);
    let runs = tracker.plain_intervals(&TimeInterval::range(0, 12));
    assert_eq!(runs, vec![TimeInterval::range(0, 5)]);
}

#[test]
fn open_interval_is_counted_up_to_the_range_end() {
    let mut tracker = ExecutionLayer::new();
    tracker.update(&switched_in(10));
    assert_eq!(tracker.time(&TimeInterval::range(0, 25)), 15);
    assert_eq!(
        tracker.plain_intervals(&TimeInterval::range(0, 25)),
        vec![TimeInterval::range(10, 25)]
    );
}

#[test]
fn base_layer_coverage_adds_blocks_plains_and_open_interval() {
    let mut layer = BaseLayer::new();
    layer.push_lower_bound(0);
    layer.push_upper_bound(4);
    layer.push_lower_bound(10);
    layer.push_upper_bound(12);
    layer.push_lower_bound(20);
    assert_eq!(layer.plain_interval_nb(), 2);
    assert_eq!(layer.coverage(&TimeInterval::range(0, 30)), 4 + 2 + 10);
    layer.compress(5, true);
    assert_eq!(layer.compressed(0), vec![(TimeInterval::range(0, 4), 4)]);
    assert!(!layer.only_plain_intervals_in(&TimeInterval::range(3, 30)));
    assert!(layer.only_plain_intervals_in(&TimeInterval::range(5, 30)));
    assert_eq!(layer.coverage(&TimeInterval::range(0, 30)), 16);
}
