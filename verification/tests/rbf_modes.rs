use lime_rtw::model_extractors::rbf::Demand;
use lime_rtw::model_extractors::rbf_old::{
    DynamicRbfExtractor, FixedRbfExtractor, RbfExtractor, Step,
};

fn demands() -> [Demand; 4] {
    [
        Demand {
            arrival: 10,
            work: 10,
        },
        Demand {
            arrival: 20,
            work: 20,
        },
        Demand {
            arrival: 30,
            work: 30,
        },
        Demand {
            arrival: 60,
            work: 60,
        },
    ]
}

fn expected_fixed_steps() -> Vec<Step> {
    vec![
        Step { delta: 1, work: 60 },
        Step {
            delta: 11,
            work: 60,
        },
        Step {
            delta: 21,
            work: 110,
        },
        Step {
            delta: 51,
            work: 120,
        },
    ]
}

#[test]
pub fn test_rbf_fixed_steps() {
    let step_widths = [10, 10, 30, 30];
    let rbf = FixedRbfExtractor::new(step_widths.to_vec());
    let mut rbf = RbfExtractor::from_fixed_steps_rbf_extractor(rbf, true);

    for d in demands().iter() {
        rbf.consume_demand(d.clone());
    }

    assert_eq!(expected_fixed_steps(), rbf.steps());
}

#[test]
fn test_rbf_mode_switch() {
    let rbf = DynamicRbfExtractor::new(10, Some(100));
    let step_widths = [10, 10, 30, 30];
    let mut rbf = RbfExtractor::from_exact_rbf_extractor(rbf, true, step_widths.to_vec());

    for d in demands().iter() {
        rbf.consume_demand(d.clone());
    }

    rbf.switch_to_fixed_steps_extractor();

    assert_eq!(expected_fixed_steps(), rbf.steps());
}

#[test]
fn test_rbf_internal_horizon() {
    let rbf = DynamicRbfExtractor::new(3, Some(30));
    let mut rbf = RbfExtractor::from_exact_rbf_extractor(rbf, true, Vec::new());

    let demands = [
        Demand {
            arrival: 0,
            work: 10,
        },
        Demand {
            arrival: 20,
            work: 10,
        },
        Demand {
            arrival: 40,
            work: 10,
        },
    ];

    for d in demands.iter() {
        rbf.consume_demand(d.clone())
    }

    let expected = &[
        Step { delta: 1, work: 10 },
        Step {
            delta: 21,
            work: 20,
        },
    ];

    assert_eq!(rbf.steps(), expected);

    rbf.consume_demand(Demand {
        arrival: 60,
        work: 10,
    });

    let expected = &[
        Step { delta: 1, work: 10 },
        Step {
            delta: 21,
            work: 20,
        },
    ];

    assert_eq!(rbf.steps(), expected);
}

#[test]
fn exact_steps_merge_when_too_many() {
    let dynamic_extractor = DynamicRbfExtractor::new(3, None);
    let mut extractor = RbfExtractor::from_exact_rbf_extractor(dynamic_extractor, true, Vec::new());

    for arrival in [0, 20, 40] {
        extractor.consume_demand(Demand { arrival, work: 10 });
    }
    assert_eq!(
        extractor.steps(),
        vec![
            Step { delta: 1, work: 10 },
            Step {
                delta: 21,
                work: 20
            },
            Step {
                delta: 41,
                work: 30
            },
        ]
    );
    assert_eq!(extractor.to_rbf().steps(), &[(1, 20), (21, 30)]);

    // A fourth step is one too many: one pass merges each step with the
    // next one, closer than the first granularity.
    extractor.consume_demand(Demand {
        arrival: 60,
        work: 10,
    });
    assert_eq!(
        extractor.steps(),
        vec![
            Step { delta: 1, work: 20 },
            Step {
                delta: 41,
                work: 40
            },
        ]
    );
    assert!(!extractor.is_empty());
}

#[test]
fn fixed_extractor_from_exact_steps() {
    let mut exact = DynamicRbfExtractor::new(10, None);
    let window = [
        Demand {
            arrival: 10,
            work: 5,
        },
        Demand {
            arrival: 15,
            work: 7,
        },
    ];
    exact.on_window_update(&window[..1]);
    exact.on_window_update(&window);
    // Steps (1, 7) and (6, 12).
    assert_eq!(
        exact.steps(),
        vec![Step { delta: 1, work: 7 }, Step { delta: 6, work: 12 }]
    );

    let fixed = FixedRbfExtractor::from_exact_rbf_extractor(&exact, vec![4, 4, 4], &window);
    // Deltas 5 and 9: the second already goes beyond the span 6 of the
    // window, so it is the last. The sweep hands both trackers the first
    // step, whose work raises neither.
    assert_eq!(
        fixed.steps(),
        vec![Step { delta: 1, work: 7 }, Step { delta: 5, work: 12 }]
    );
}
