use lime_rtw::events::{ClockId, EventData, SchedulingPolicy};
use lime_rtw::tracer::decode::{
    decodable, event_data_of, switch_prev_state, task_state_index, trace_event_of, RawEventRecord, RawSchedAttr,
};
use lime_rtw::utils::ThreadId;

#[test]
fn task_state_bits() {
    assert_eq!(task_state_index(0), 0);
    assert_eq!(task_state_index(1), 1);
    assert_eq!(task_state_index(2), 2);
    assert_eq!(task_state_index(0x402), 8);
    assert_eq!(task_state_index(0x7f), 7);
    assert_eq!(task_state_index(0x100), 0);
    assert_eq!(switch_prev_state(0), 0);
    assert_eq!(switch_prev_state(1), 1);
    assert_eq!(switch_prev_state(2), 2);
    assert_eq!(switch_prev_state(6), 4);
    assert_eq!(switch_prev_state(0x402), 0x80);
    assert_eq!(switch_prev_state(0x100), 0x100);
}

#[test]
fn switched_out_state_tells_preemption_from_suspension() {
    let preempted = event_data_of(&RawEventRecord::SchedDeschedule { cpu: 1, prio: 2, state: 0 });
    assert_eq!(preempted, EventData::SchedSwitchedOut { cpu: 1, prio: 2, state: 0 });
    let e = trace_event_of(10, 5, &RawEventRecord::SchedDeschedule { cpu: 1, prio: 2, state: 0x402 });
    assert!(e.is_suspension());
    assert_eq!(e.ev, EventData::SchedSwitchedOut { cpu: 1, prio: 2, state: 0x80 });
}

#[test]
fn times_are_joined() {
    let r = RawEventRecord::EnterClockNanosleep { clock_id: 1, abs_time: true, rq_sec: 2, rq_nsec: 5 };
    assert!(decodable(&r));
    assert_eq!(
        event_data_of(&r),
        EventData::EnterClockNanoSleep { clock_id: ClockId::ClockMonotonic, abs_time: true, required_ns: 2_000_000_005 }
    );
    let s = RawEventRecord::EnterSelect { inp: 3, tv_sec: 1, tv_usec: 7, tvp_null: false };
    assert_eq!(event_data_of(&s), EventData::EnterSelect { inp: 3, timeout_usec: 1_000_007, tvp_null: false });
    let p = RawEventRecord::EnterPselect6 { inp: 3, tv_sec: 1, tv_nsec: 7, tsp_null: true };
    assert_eq!(event_data_of(&p), EventData::EnterPselect6 { inp: 3, timeout_nsec: 1_000_000_007, tsp_null: true });
    let pp = RawEventRecord::EnterPpoll { pfds: 9, tv_sec: 3, tv_nsec: 1 };
    assert_eq!(event_data_of(&pp), EventData::EnterPoll { pfds: 9, timeout_nsec: 3_000_000_001 });
    let n = RawEventRecord::EnterNanosleep { rq_sec: 0, rq_nsec: 42 };
    assert_eq!(event_data_of(&n), EventData::EnterNanosleep { required_ns: 42 });
}

#[test]
fn poll_timeouts() {
    assert_eq!(
        event_data_of(&RawEventRecord::EnterPoll { pfds: 1, timeout_msecs: 5 }),
        EventData::EnterPoll { pfds: 1, timeout_nsec: 5_000_000 }
    );
    assert_eq!(
        event_data_of(&RawEventRecord::EnterPoll { pfds: 1, timeout_msecs: -1 }),
        EventData::EnterPoll { pfds: 1, timeout_nsec: -1 }
    );
}

#[test]
fn undecodable_records() {
    assert!(!decodable(&RawEventRecord::EnterNanosleep { rq_sec: i64::MAX, rq_nsec: 0 }));
    assert!(decodable(&RawEventRecord::EnterSelect { inp: 0, tv_sec: 0, tv_usec: i64::MIN, tvp_null: false }));
    assert!(!decodable(&RawEventRecord::EnterPselect6 { inp: 0, tv_sec: 9_000_000_000, tv_nsec: i64::MAX, tsp_null: false }));
    assert!(!decodable(&RawEventRecord::EnterEpollPwait { epfd: -1 }));
    assert!(!decodable(&RawEventRecord::EnterClockNanosleep { clock_id: 12, abs_time: false, rq_sec: 0, rq_nsec: 0 }));
    assert!(decodable(&RawEventRecord::EnterEpollPwait { epfd: 4 }));
}

#[test]
fn descriptors_and_policies() {
    assert_eq!(event_data_of(&RawEventRecord::EnterReadSock { fd: 3 }), EventData::EnterReadSock { fd: 3 });
    assert_eq!(event_data_of(&RawEventRecord::EnterAccept { sock_fd: -1 }), EventData::EnterAccept { sock_fd: u32::MAX });
    assert_eq!(event_data_of(&RawEventRecord::EnterEpollPwait { epfd: 4 }), EventData::EnterEpollPWait { epfd: 4 });
    assert_eq!(
        event_data_of(&RawEventRecord::SchedSchedule { cpu: 0, prio: 9, preempt: 3 }),
        EventData::SchedSwitchedIn { cpu: 0, prio: 9, preempt: true }
    );
    let attr = RawSchedAttr { old_policy: 0, policy: 1, rt_prio: 50, dl_runtime: 0, dl_period: 0, dl_deadline: 0 };
    assert_eq!(
        event_data_of(&RawEventRecord::EnterSchedSetattr { attr }),
        EventData::EnterSetScheduler { old_policy_num: 0, sched_policy: SchedulingPolicy::Fifo { prio: 50 } }
    );
    let dl = RawSchedAttr { old_policy: 1, policy: 6, rt_prio: 0, dl_runtime: 1, dl_period: 3, dl_deadline: 2 };
    assert_eq!(
        event_data_of(&RawEventRecord::SchedProcessFork { attr: dl }),
        EventData::SchedProcessFork { sched_policy: SchedulingPolicy::Deadline { runtime: 1, period: 3, deadline: 2 } }
    );
    assert_eq!(event_data_of(&RawEventRecord::SchedSchedulerChange), EventData::RawSchedulerChange);
    let e = trace_event_of(7, (3u64 << 32) | 4, &RawEventRecord::SchedWaking { cpu: 2 });
    assert_eq!((e.ts, e.id), (7, ThreadId { pid: 4, tgid: 3 }));
}
