use lime_rtw::interval::{
    bound_le, bound_lt, do_search_lower_bound, do_search_upper_bound, max_bound, min_bound,
    Bound, Interval, IntervalSeq,
};

#[test]
fn test_bound() {
    assert!(Bound::Value(1) < Bound::Infinity);
    assert!(Bound::Infinity > Bound::Value(1));
    assert!(Bound::Infinity != Bound::Value(1));
    assert_eq!(
        Bound::Value(1).cmp(&Bound::Infinity),
        std::cmp::Ordering::Less
    );
    assert_eq!(Bound::Value(1).min(Bound::Infinity), Bound::Value(1));
}

#[test]
fn test_interval() {
    let i1 = Interval::infinite_right(1);
    let i2 = Interval::range(1, 2);

    let i3 = i1.intersection(&i2);

    assert_eq!(i3, Some(Interval::range(1, 2)));
}

#[test]
fn test_interval_seq() {
    let mut buff = IntervalSeq::new();

    assert!(buff.iter().iter().next().is_none());

    let input = vec![
        Interval::range(2, 4),
        Interval::range(5, 6),
        Interval::infinite_right(7),
    ];

    for i in input.iter().cloned() {
        buff.push(i)
    }

    let v: Vec<Interval> = buff.iter().to_vec();

    assert_eq!(v, input);

    let extent = Interval::range(3, 8);

    let expected = vec![
        Interval::range(3, 4),
        Interval::range(5, 6),
        Interval::range(7, 8),
    ];

    let v: Vec<Interval> = buff.intersection(extent);

    assert_eq!(v, expected);

    let extent = Interval::range(3, 8);
    buff.intersection_inplace(&extent);
    let v: Vec<Interval> = buff.iter().to_vec();
    assert_eq!(v, expected);
}

#[test]
fn test_find_bounds() {
    let intervals = [
        Interval::range(5, 10),
        Interval::range(20, 30),
        Interval::range(40, 50),
        Interval::range(70, 80),
        Interval::range(90, 100),
    ];

    assert_eq!(do_search_lower_bound(&intervals, 110, &None), None);
    assert_eq!(do_search_lower_bound(&intervals, 0, &None), Some(0));
    assert_eq!(do_search_lower_bound(&intervals, 15, &None), Some(1));
    assert_eq!(do_search_lower_bound(&intervals, 35, &None), Some(2));
    assert_eq!(do_search_lower_bound(&intervals, 45, &None), Some(2));
    assert_eq!(do_search_lower_bound(&intervals, 60, &None), Some(3));

    assert_eq!(do_search_upper_bound(&intervals, 0), None);
    assert_eq!(do_search_upper_bound(&intervals, 15), Some(0));
    assert_eq!(do_search_upper_bound(&intervals, 35), Some(1));
    assert_eq!(do_search_upper_bound(&intervals, 45), Some(2));
    assert_eq!(do_search_upper_bound(&intervals, 60), Some(2));
    assert_eq!(do_search_upper_bound(&intervals, 110), Some(4));
}

#[test]
fn interval_test_compression() {
    let mut seq = IntervalSeq::new();

    assert_eq!(seq.compress_until(1), None);

    seq.push(Interval::range(1, 2));
    seq.push(Interval::range(3, 4));
    seq.push(Interval::range(5, 7));

    let compressed = seq.compress_until(6);
    assert_eq!(compressed, Some((Interval::range(1, 6), 3)));

    let mut seq = IntervalSeq::new();

    seq.push(Interval::range(1, 2));
    seq.push(Interval::range(3, 4));
    seq.push(Interval::range(5, 7));

    let compressed = seq.compress_until(8);
    assert_eq!(compressed, Some((Interval::range(1, 7), 4)));

    let mut seq = IntervalSeq::new();

    seq.push(Interval::range(3, 4));
    seq.push(Interval::range(5, 7));

    let compressed = seq.compress_until(2);
    assert_eq!(compressed, None);
}

#[test]
fn bound_helpers_follow_the_extended_line() {
    assert!(bound_lt(Bound::MinusInfinity, Bound::Value(0)));
    assert!(bound_lt(Bound::Value(u64::MAX), Bound::Infinity));
    assert!(!bound_lt(Bound::Value(3), Bound::Value(3)));
    assert!(bound_le(Bound::Value(3), Bound::Value(3)));
    assert_eq!(min_bound(Bound::Value(4), Bound::Value(2)), Bound::Value(2));
    assert_eq!(max_bound(Bound::Value(4), Bound::Infinity), Bound::Infinity);
    assert_eq!(Bound::Value(7).value(), Some(7));
    assert_eq!(Bound::Infinity.value(), None);
}

#[test]
fn interval_queries() {
    let i = Interval::range(10, 20);
    assert!(i.contains(&10));
    assert!(!i.contains(&20));
    assert!(i.is_left_of(&20));
    assert!(i.is_right_of(&9));
    assert_eq!(i.duration_unwrap(), 10);
    assert_eq!(i.intersection(&Interval::range(20, 30)), None);
    assert!(i.is_disjoint_with(&Interval::range(20, 30)));
    assert_eq!(
        i.extent(&Interval::range(25, 30)),
        Interval::range(10, 30)
    );
    assert!(Interval::infinite_right(3).is_infinite_right());
    assert_eq!(Interval::infinite().duration(), Bound::Infinity);
}

#[test]
fn interval_seq_pop_and_len() {
    let mut seq = IntervalSeq::new();
    seq.push(Interval::range(1, 2));
    seq.push(Interval::range(4, 6));
    assert_eq!(seq.len(), 2);
    assert_eq!(seq.first(), Some(&Interval::range(1, 2)));
    assert_eq!(seq.last(), Some(&Interval::range(4, 6)));
    assert_eq!(seq.pop(), Some(Interval::range(4, 6)));
    assert_eq!(seq.len(), 1);
}

#[test]
fn push_takes_reversed_intervals() {
    let mut s = IntervalSeq::new();
    s.push(Interval::new(Bound::Value(5), Bound::Value(3)));
    assert_eq!(s.iter(), &[Interval::new(Bound::Value(5), Bound::Value(3))][..]);
    s.push(Interval::range(7, 8));
    assert_eq!(s.len(), 2);
    let mut t = IntervalSeq::new();
    t.push(Interval::new(Bound::Value(2), Bound::MinusInfinity));
    assert_eq!(t.last(), Some(&Interval::new(Bound::Value(2), Bound::MinusInfinity)));
    assert_eq!(t.pop(), Some(Interval::new(Bound::Value(2), Bound::MinusInfinity)));
    assert_eq!(t.len(), 0);
}

#[test]
fn last_mut_gives_the_last_interval() {
    let mut s = IntervalSeq::new();
    assert_eq!(s.last_mut(), None);
    s.push(Interval::range(1, 2));
    s.push(Interval::range(3, 4));
    assert_ne!(s.last_mut(), Some(&mut Interval::range(1, 2)));
    assert_eq!(s.last_mut(), Some(&mut Interval::range(3, 4)));
    if let Some(x) = s.last_mut() {
        *x = Interval::range(3, 9);
    }
    assert_eq!(s.last(), Some(&Interval::range(3, 9)));
}

#[test]
fn inplace_intersection_with_an_earlier_interval_is_empty() {
    let mut s = IntervalSeq::new();
    s.push(Interval::range(10, 12));
    s.intersection_inplace(&Interval::range(0, 5));
    assert_eq!(s.len(), 0);
    let mut t = IntervalSeq::new();
    t.push(Interval::range(0, 2));
    t.intersection_inplace(&Interval::range(5, 9));
    assert_eq!(t.len(), 0);
}
