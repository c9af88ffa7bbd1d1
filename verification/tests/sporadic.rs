use lime_rtw::model_extractors::arrival::sporadic::{
    arrival_curve_intervals_model, arrival_curve_model, is_all_zero, min_separation_in, mit_of_model,
    sporadic_model, sporadic_step, trim_and_shift_add, trim_and_shift_sub, ArrivalMode, SporadicStep,
};
use lime_rtw::model_extractors::arrival::ArrivalModel;

#[test]
fn trim_sub_drops_two_and_lowers() {
    assert_eq!(trim_and_shift_sub(vec![0, 0, 2, 3, 7]), vec![1, 2, 6]);
    assert_eq!(trim_and_shift_sub(vec![5, 5]), Vec::<u64>::new());
    assert_eq!(trim_and_shift_sub(vec![9, 9, 0, 1]), vec![0, 0]);
}

#[test]
fn trim_add_drops_last_two_and_raises() {
    assert_eq!(trim_and_shift_add(vec![5, 6, 7, 0, 0]), vec![6, 7, 8]);
    assert_eq!(trim_and_shift_add(vec![4]), Vec::<u64>::new());
    assert_eq!(trim_and_shift_add(vec![]), Vec::<u64>::new());
    assert_eq!(trim_and_shift_add(vec![u64::MAX, 1, 2]), vec![u64::MAX]);
}

#[test]
fn all_zero_checks_every_value() {
    assert!(is_all_zero(&vec![]));
    assert!(is_all_zero(&vec![0, 0]));
    assert!(!is_all_zero(&vec![0, 3]));
}

#[test]
fn exact_curve_from_models() {
    let m = arrival_curve_model(vec![0, 0, 2, 3, 7], vec![5, 6, 7, 0, 0]);
    assert_eq!(m, Some(ArrivalModel::ArrivalCurve { dmins: vec![1, 2, 6], dmaxs: vec![6, 7, 8] }));
    // two maxima only: nothing is reported
    assert_eq!(arrival_curve_model(vec![0, 0, 2], vec![0, 0]), None);
}

#[test]
fn interval_curve_from_models() {
    let m = arrival_curve_intervals_model(vec![0, 0, 3], vec![2, 9, 9], vec![0, 0, 5], vec![0, 9, 9]);
    assert_eq!(
        m,
        Some(ArrivalModel::ArrivalCurveReleaseIntervals {
            dmins_lo: vec![2],
            dmaxs_lo: vec![3],
            dmins_hi: vec![4],
            dmaxs_hi: vec![1],
        })
    );
    assert_eq!(arrival_curve_intervals_model(vec![0, 0], vec![], vec![0, 0], vec![1, 1]), None);
}

#[test]
fn mit_and_separation() {
    assert_eq!(mit_of_model(&vec![0, 0, 2, 3]), Some(1));
    assert_eq!(mit_of_model(&vec![0, 0, 0]), Some(0));
    assert_eq!(mit_of_model(&vec![0, 0]), None);
    let dmins = vec![1, 2, 6];
    assert_eq!(min_separation_in(&dmins, 0), Some(0));
    assert_eq!(min_separation_in(&dmins, 1), Some(0));
    assert_eq!(min_separation_in(&dmins, 2), Some(1));
    assert_eq!(min_separation_in(&dmins, 4), Some(6));
    assert_eq!(min_separation_in(&dmins, 5), None);
}

#[test]
fn sporadic_model_choice() {
    assert_eq!(sporadic_model(Some((0, 0)), Some(4)), None);
    assert_eq!(sporadic_model(Some((2, 3)), None), Some(ArrivalModel::SporadicReleaseIntervals { mit_lo: 2, mit_hi: 3 }));
    assert_eq!(sporadic_model(None, Some(4)), Some(ArrivalModel::Sporadic { mit: 4 }));
    assert_eq!(sporadic_model(None, Some(0)), None);
    assert_eq!(sporadic_model(None, None), None);
}

#[test]
fn sporadic_steps_follow_the_mode() {
    assert_eq!(sporadic_step(None, None, 5), (SporadicStep::FeedArrival { arrival: 5 }, Some(ArrivalMode::Exact)));
    assert_eq!(sporadic_step(None, Some(3), 5), (SporadicStep::FeedWindow { lo: 3, hi: 5 }, Some(ArrivalMode::Intervals)));
    assert_eq!(sporadic_step(Some(ArrivalMode::Exact), Some(3), 5), (SporadicStep::Invalidate, Some(ArrivalMode::Exact)));
    assert_eq!(sporadic_step(Some(ArrivalMode::Intervals), None, 5), (SporadicStep::Invalidate, Some(ArrivalMode::Intervals)));
    assert_eq!(sporadic_step(Some(ArrivalMode::Exact), None, 7), (SporadicStep::FeedArrival { arrival: 7 }, Some(ArrivalMode::Exact)));
}
