use lime_rtw::events::{EventData, TraceEvent};
use lime_rtw::model_extractors::rbf::{Demand, DemandAggregator, DemandTracker, DemandWindow};
use lime_rtw::utils::ThreadId;

const ID: ThreadId = ThreadId { pid: 0, tgid: 0 };

fn switched_in(ts: u64) -> TraceEvent {
    TraceEvent { id: ID, ts, ev: EventData::SchedSwitchedIn { cpu: 0, prio: 2, preempt: false } }
}

fn switched_out(ts: u64, state: u32) -> TraceEvent {
    TraceEvent { id: ID, ts, ev: EventData::SchedSwitchedOut { cpu: 0, prio: 2, state } }
}

#[test]
fn tracker_accepts_ordered_switches_only() {
    let mut t = DemandTracker::new();
    assert!(t.accepts(&switched_in(100)));
    t.update(&switched_in(100));
    // a preemption at 200, then a switch-in that claims to come before it
    assert!(t.accepts(&switched_out(200, 0)));
    t.update(&switched_out(200, 0));
    assert!(!t.accepts(&switched_in(150)));
    assert!(t.accepts(&switched_in(250)));
}

#[test]
fn tracker_refuses_switch_out_before_switch_in() {
    let mut t = DemandTracker::new();
    t.update(&switched_in(100));
    assert!(!t.accepts(&switched_out(50, 1)));
    assert!(t.accepts(&switched_out(150, 1)));
}

#[test]
fn window_can_update_then_updates() {
    let mut w = DemandWindow::new(None, 10);
    let evs = [switched_in(100), switched_out(200, 1)];
    for e in evs.iter() {
        assert!(w.can_update(e));
        w.update(e);
    }
    assert_eq!(w.demands(), &[][..]);
    assert!(!w.can_update(&switched_out(50, 1)));
}

#[test]
fn aggregator_can_push_refuses_overflowing_merge() {
    let mut agg = DemandAggregator::new(None);
    assert!(agg.can_push(&Demand::new(10, u64::MAX)));
    agg.push(Demand::new(10, u64::MAX));
    assert!(!agg.can_push(&Demand::new(10, 1)));
    assert!(agg.can_push(&Demand::new(11, 1)));
}
