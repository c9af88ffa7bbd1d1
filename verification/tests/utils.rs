use lime_rtw::job_separator::JobSeparator;
use lime_rtw::utils::{
    Dispatcher, InterleaveBy, KthMaxTracker, LowerBoundTracker, RingBuffer, ThreadId, UpperBoundTracker,
    WeightedMovingAverage,
};

#[test]
fn test_moving_average() {
    let mut avg = WeightedMovingAverage::new();

    avg.update(1u64, 10);

    assert_eq!(avg.get_average(), 1);
    assert_eq!(avg.get_total(), 10);

    avg.update(2u64, 20);
    avg.update(1u64, 10);

    assert_eq!(avg.get_average(), 1);
    assert_eq!(avg.get_total(), 40);
}

fn merge_all<F: Fn(&u32, &u32) -> std::cmp::Ordering>(
    x1: &[u32],
    x2: &[u32],
    order: F,
) -> Vec<u32> {
    let mut it = InterleaveBy::new(x1.to_vec(), x2.to_vec(), order);
    let mut res = Vec::new();
    while let Some(v) = it.next_merged() {
        res.push(v);
    }
    res
}

#[test]
fn test_interleave() {
    let x1 = &[1, 3, 5];
    let x2 = &[2, 4, 6];

    let res: Vec<u32> = merge_all(x1, x2, |a, b| a.cmp(b));

    assert_eq!(res, &[1, 2, 3, 4, 5, 6]);

    let res: Vec<u32> = merge_all(x1, x2, |a, b| b.cmp(a));

    assert_eq!(res, &[2, 4, 6, 1, 3, 5]);

    let x1 = &[5, 3, 1];
    let x2 = &[6, 4, 2];

    let res: Vec<u32> = merge_all(x1, x2, |a, b| b.cmp(a));

    assert_eq!(res, &[6, 5, 4, 3, 2, 1]);
}

#[test]
fn pid_tgid_round_trip() {
    let id = ThreadId::new(12, 34);
    let packed = id.to_pid_tgid();
    assert_eq!(packed, (34u64 << 32) | 12);
    let back = ThreadId::from_pid_tgid(packed);
    assert_eq!(back.pid, 12);
    assert_eq!(back.tgid, 34);
    let from: ThreadId = ThreadId::from(packed);
    assert_eq!(from.tgid, 34);
}

#[test]
fn bound_trackers() {
    let mut up = UpperBoundTracker::new();
    assert_eq!(up.get(), None);
    assert_eq!(up.update(5), 5);
    assert_eq!(up.update(3), 5);
    assert_eq!(up.update(9), 9);
    assert_eq!(up.get(), Some(9));

    let mut low = LowerBoundTracker::new();
    assert_eq!(low.get(), None);
    assert_eq!(low.update(5), 5);
    assert_eq!(low.update(7), 5);
    assert_eq!(low.update(2), 2);
    assert_eq!(low.get(), Some(2));
}

#[test]
fn ring_buffer_drops_the_oldest() {
    let mut ring = RingBuffer::new(2);
    assert_eq!(ring.push(1u32), None);
    assert_eq!(ring.push(2), None);
    assert_eq!(ring.push(3), Some(1));
    assert_eq!(ring.as_slice(), &[2, 3]);
    assert_eq!(ring.first(), Some(&2));
    assert_eq!(ring.last(), Some(&3));
    assert_eq!(ring.pop(), Some(2));
    assert_eq!(ring.as_slice(), &[3]);
}

#[test]
fn dispatcher_creates_one_entry_per_key() {
    let mut d: Dispatcher<JobSeparator, u64> = Dispatcher::new();
    assert!(d.is_empty());
    *d.get_or_new(&JobSeparator::Suspension, || 10) += 1;
    *d.get_or_new(&JobSeparator::Suspension, || 100) += 1;
    *d.get_or_default(&JobSeparator::Pause) += 5;
    assert_eq!(d.get(&JobSeparator::Suspension), Some(&12));
    assert_eq!(d.get(&JobSeparator::Pause), Some(&5));
    assert_eq!(d.get(&JobSeparator::RtSigsuspend), None);
    assert_eq!(
        d.keys(),
        vec![JobSeparator::Suspension, JobSeparator::Pause]
    );
    assert_eq!(d.items().len(), 2);
}

#[test]
fn kth_max_tracks_the_third_largest() {
    let mut t = KthMaxTracker::new(3);
    assert_eq!(t.get(), None);
    t.update(5);
    t.update(1);
    assert_eq!(t.get(), None);
    t.update(9);
    assert_eq!(t.get(), Some(1));
    t.update(7);
    assert_eq!(t.get(), Some(5));
    t.update(2);
    assert_eq!(t.get(), Some(5));
    t.update(9);
    assert_eq!(t.get(), Some(7));
}

#[test]
fn kth_max_of_rank_zero_reads_nothing() {
    let mut t = KthMaxTracker::new(0);
    t.update(4);
    assert_eq!(t.get(), None);
}
