use rustuna_sampler::attr::Attrs;
use rustuna_sampler::crowding::calc_crowding_distance;
use rustuna_sampler::crowding::crowding_distance_sort;
use rustuna_sampler::crowding::objective_axis;
use rustuna_sampler::crowding::sort_by_distance;
use rustuna_sampler::crowding::Axis;
use rustuna_sampler::crowding::Difference;
use rustuna_sampler::dominance::constrained_dominates;
use rustuna_sampler::dominance::dominates;
use rustuna_sampler::dominance::is_feasible;
use rustuna_sampler::dominance::positive_constraints;
use rustuna_sampler::elite::cut_fronts;
use rustuna_sampler::elite::select_elite_population_numbers;
use rustuna_sampler::error::ErrorKind;
use rustuna_sampler::error::Failure;
use rustuna_sampler::number::Number;
use rustuna_sampler::order::stable_order;
use rustuna_sampler::params::Params;
use rustuna_sampler::population::fast_non_dominated_sort;
use rustuna_sampler::trial::Constraints;
use rustuna_sampler::trial::Context;
use rustuna_sampler::trial::Direction;
use rustuna_sampler::trial::PersistedTrial;
use rustuna_sampler::trial::TrialStateValues;

const INFINITE: f64 = f64::INFINITY;

fn number(value: f64) -> Number {
    Number::from_bits(value.to_bits())
}

fn value(number: Number) -> f64 {
    f64::from_bits(number.bits)
}

fn numbers(values: &[f64]) -> Vec<Number> {
    values.iter().map(|v| number(*v)).collect()
}

fn length(difference: &Option<Difference>, otherwise: f64) -> f64 {
    match difference {
        Some(difference) => value(difference.to) - value(difference.from),
        None => otherwise,
    }
}

fn measure(axes: &Vec<Axis>, count: usize) -> Vec<Number> {
    let mut distances = vec![0.0; count];
    for axis in axes {
        match axis {
            Axis::Unordered => panic!("values that are not in order"),
            Axis::Level => {}
            Axis::Spread { steps, width } => {
                for step in steps {
                    distances[step.index] += length(&step.gap, 0.0) / length(width, 1.0);
                }
            }
        }
    }
    distances.into_iter().map(number).collect()
}

fn trial_with(number: u32, state_values: TrialStateValues, constraints: &[f64]) -> PersistedTrial {
    let values = numbers(constraints);
    let violation: f64 = positive_constraints(&values).into_iter().map(value).sum();
    PersistedTrial {
        id: number,
        study_id: 0,
        number,
        state_values,
        attrs: Attrs::new(),
        constraints: Ok(Constraints {
            values,
            violation: Number::from_bits(violation.to_bits()),
        }),
        internal_params: Params::new(),
    }
}

fn trials(values: &[&[f64]]) -> Vec<Option<PersistedTrial>> {
    values
        .iter()
        .enumerate()
        .map(|(k, v)| {
            Some(trial_with(
                k as u32,
                TrialStateValues::Complete(numbers(v)),
                &[],
            ))
        })
        .collect()
}

fn context(directions: &[Direction]) -> Context {
    Context {
        study_id: 0,
        trial_id: 0,
        directions: directions.to_vec(),
    }
}

const MINIMIZE: [Direction; 2] = [Direction::Minimize, Direction::Minimize];
const MIXED: [Direction; 2] = [Direction::Minimize, Direction::Maximize];

#[test]
fn numbers_compare_as_floats_do() {
    let samples = [
        f64::NAN,
        -INFINITE,
        -2.5,
        -f64::MIN_POSITIVE / 2.0,
        -0.0,
        0.0,
        5e-324,
        1.0,
        1.5,
        f64::MAX,
        INFINITE,
    ];
    for a in samples {
        assert_eq!(number(a).is_finite(), a.is_finite());
        assert_eq!(number(a).is_ordered(), !a.is_nan());
        for b in samples {
            assert_eq!(number(a).is_less(number(b)), a < b, "{a} < {b}");
            assert_eq!(number(a).is_at_most(number(b)), a <= b, "{a} <= {b}");
            assert_eq!(number(a).is_equal(number(b)), a == b, "{a} == {b}");
        }
    }
}

#[test]
fn a_dominating_point_is_nowhere_worse_and_somewhere_better() {
    let check = |a: &[f64], b: &[f64], directions: &[Direction]| {
        dominates(&numbers(a), &numbers(b), directions)
    };
    assert!(check(&[1.0, 2.0], &[1.0, 3.0], &MINIMIZE));
    assert!(!check(&[1.0, 2.0], &[1.0, 2.0], &MINIMIZE));
    assert!(!check(&[1.0, 3.0], &[2.0, 2.0], &MINIMIZE));
    assert!(check(&[1.0, 3.0], &[2.0, 2.0], &MIXED));
    assert!(!check(&[f64::NAN, 0.0], &[1.0, 1.0], &MINIMIZE));
    assert!(!check(&[0.0, 0.0], &[1.0, f64::NAN], &MINIMIZE));
    assert!(check(&[-INFINITE, 0.0], &[1.0, 0.0], &MINIMIZE));
    assert!(!check(&[], &[], &[]));
}

#[test]
fn feasible_trials_dominate_infeasible_ones() {
    let good = numbers(&[0.0, 0.0]);
    let bad = numbers(&[9.0, 9.0]);
    let none = None;
    let feasible_bad = Some((&bad[..], true, number(0.0)));
    let infeasible_good = Some((&good[..], false, number(2.0)));
    let infeasible_bad = Some((&bad[..], false, number(1.0)));
    let feasible_good = Some((&good[..], true, number(0.0)));
    let check = |a, b| constrained_dominates(a, b, &MINIMIZE);
    assert!(check(&feasible_bad, &infeasible_good));
    assert!(!check(&infeasible_good, &feasible_bad));
    assert!(check(&infeasible_bad, &infeasible_good));
    assert!(!check(&infeasible_good, &infeasible_bad));
    assert!(check(&feasible_good, &feasible_bad));
    assert!(!check(&feasible_bad, &feasible_good));
    assert!(check(&infeasible_good, &none));
    assert!(!check(&none, &infeasible_good));
    assert!(!check(&none, &none));
    let short = numbers(&[]);
    let infeasible_short = Some((&short[..], false, number(0.5)));
    assert!(check(&feasible_bad, &infeasible_short));
    assert!(check(&infeasible_short, &infeasible_bad));
}

#[test]
fn a_trial_is_feasible_if_no_constraint_is_above_zero() {
    assert!(is_feasible(&numbers(&[])));
    assert!(is_feasible(&numbers(&[-1.0, 0.0, -0.0])));
    assert!(!is_feasible(&numbers(&[-1.0, 5e-324])));
    assert!(!is_feasible(&numbers(&[f64::NAN])));
    let positive = positive_constraints(&numbers(&[-1.0, 2.0, 0.0, f64::NAN, 0.5]));
    let positive: Vec<f64> = positive.into_iter().map(value).collect();
    assert_eq!(positive, vec![2.0, 0.5]);
}

#[test]
fn fronts_are_peeled_off_one_after_the_other() {
    let trials = trials(&[
        &[3.0, 3.0],
        &[1.0, 4.0],
        &[2.0, 2.0],
        &[4.0, 1.0],
        &[4.0, 4.0],
        &[2.0, 2.0],
    ]);
    let ctx = context(&MINIMIZE);
    let ranked = fast_non_dominated_sort(&ctx, &trials, &[0, 1, 2, 3, 4, 5]).unwrap();
    assert_eq!(ranked, vec![vec![1, 5, 2, 3], vec![0], vec![4]]);
    let none = fast_non_dominated_sort(&ctx, &trials, &[]).unwrap();
    assert_eq!(none, Vec::<Vec<u32>>::new());
}

#[test]
fn a_member_that_leaves_makes_room_for_the_last_one() {
    let trials = trials(&[&[1.0], &[2.0], &[3.0], &[1.0]]);
    let ctx = context(&[Direction::Minimize]);
    let ranked = fast_non_dominated_sort(&ctx, &trials, &[0, 1, 2, 3]).unwrap();
    assert_eq!(ranked, vec![vec![0, 3], vec![1], vec![2]]);
    let ranked = fast_non_dominated_sort(&ctx, &trials, &[2, 1, 0]).unwrap();
    assert_eq!(ranked, vec![vec![0], vec![1], vec![2]]);
}

#[test]
fn constraints_and_states_count_in_fronts() {
    let done = |values: &[f64]| TrialStateValues::Complete(numbers(values));
    let trials = vec![
        Some(trial_with(0, TrialStateValues::Fail, &[])),
        Some(trial_with(1, done(&[0.0, 0.0]), &[3.0, -1.0])),
        Some(trial_with(2, done(&[9.0, 9.0]), &[1.0, 1.0])),
        Some(trial_with(3, done(&[9.0, 9.0]), &[0.0])),
    ];
    let ctx = context(&MINIMIZE);
    let ranked = fast_non_dominated_sort(&ctx, &trials, &[0, 1, 2, 3]).unwrap();
    assert_eq!(ranked, vec![vec![3], vec![2], vec![1], vec![0]]);
}

#[test]
fn fronts_need_all_trials_with_values_and_constraints() {
    let mut trials = trials(&[&[1.0, 2.0], &[1.0], &[0.0, 0.0]]);
    trials.push(None);
    let ctx = context(&MINIMIZE);
    let failure = |numbers: &[u32]| fast_non_dominated_sort(&ctx, &trials, numbers).unwrap_err();
    assert_eq!(failure(&[0, 3]).kind, ErrorKind::TrialDiscarded);
    assert_eq!(failure(&[4]).kind, ErrorKind::TrialDiscarded);
    assert_eq!(failure(&[0, 1]).kind, ErrorKind::Unexpected);
    assert_eq!(failure(&[1, 3]).kind, ErrorKind::TrialDiscarded);
    let mut unreadable = trial_with(0, TrialStateValues::Complete(numbers(&[0.0, 0.0])), &[]);
    unreadable.constraints = Err(Failure::with_reason(
        ErrorKind::StorageError,
        "unreadable".to_string(),
    ));
    let error = fast_non_dominated_sort(&ctx, &[Some(unreadable)], &[0]).unwrap_err();
    assert_eq!(error.kind, ErrorKind::StorageError);
    assert_eq!(error.reason, Some("unreadable".to_string()));
}

#[test]
fn equal_keys_keep_their_order() {
    assert_eq!(stable_order(&vec![3, 1, 3, -2, 1]), vec![3, 1, 4, 0, 2]);
    assert_eq!(stable_order(&vec![]), Vec::<usize>::new());
}

#[test]
fn an_objective_gives_each_member_the_gap_around_it() {
    match objective_axis(&numbers(&[4.0, 0.0, 1.0])) {
        Axis::Spread { steps, width } => {
            assert_eq!(length(&width, 1.0), 4.0);
            let steps: Vec<(usize, f64)> = steps
                .iter()
                .map(|step| (step.index, length(&step.gap, 0.0)))
                .collect();
            assert_eq!(steps, vec![(1, INFINITE), (2, 4.0), (0, INFINITE)]);
        }
        other => panic!("{other:?}"),
    }
    assert!(matches!(objective_axis(&numbers(&[2.0, 2.0])), Axis::Level));
    assert!(matches!(objective_axis(&numbers(&[-0.0, 0.0])), Axis::Level));
    assert!(matches!(
        objective_axis(&numbers(&[2.0, f64::NAN])),
        Axis::Unordered
    ));
    assert!(matches!(
        objective_axis(&numbers(&[INFINITE, -INFINITE])),
        Axis::Unordered
    ));
}

#[test]
fn infinite_values_leave_the_width_to_the_finite_ones() {
    match objective_axis(&numbers(&[INFINITE, 1.0, -INFINITE, 3.0])) {
        Axis::Spread { steps, width } => {
            assert_eq!(length(&width, 1.0), 2.0);
            let steps: Vec<(usize, f64)> = steps
                .iter()
                .map(|step| (step.index, length(&step.gap, 0.0)))
                .collect();
            assert_eq!(
                steps,
                vec![(2, INFINITE), (1, INFINITE), (3, INFINITE), (0, INFINITE)]
            );
        }
        other => panic!("{other:?}"),
    }
    match objective_axis(&numbers(&[-INFINITE, -INFINITE, 5.0])) {
        Axis::Spread { steps, width } => {
            assert!(width.is_none());
            assert!(steps[0].gap.is_none());
        }
        other => panic!("{other:?}"),
    }
}

#[test]
fn crowding_distances_add_up_over_the_objectives() {
    let trials = trials(&[&[0.0, 4.0], &[1.0, 2.0], &[3.0, 1.0], &[4.0, 0.0]]);
    let ctx = context(&MINIMIZE);
    let pairs = calc_crowding_distance(&ctx, &trials, &[0, 1, 2, 3], &measure).unwrap();
    let pairs: Vec<(u32, f64)> = pairs.into_iter().map(|(n, d)| (n, value(d))).collect();
    assert_eq!(
        pairs,
        vec![(0, INFINITE), (1, 1.5), (2, 1.25), (3, INFINITE)]
    );
    let sorted = crowding_distance_sort(&ctx, &trials, &vec![2, 1, 0, 3], &measure).unwrap();
    assert_eq!(sorted, vec![0, 3, 1, 2]);
    let error = calc_crowding_distance(&ctx, &trials, &[0, 9], &measure).unwrap_err();
    assert_eq!(error.kind, ErrorKind::TrialDiscarded);
}

#[test]
fn the_least_crowded_come_first() {
    let pairs = vec![
        (4, number(1.0)),
        (5, number(INFINITE)),
        (6, number(1.0)),
        (7, number(0.0)),
        (8, number(INFINITE)),
    ];
    assert_eq!(sort_by_distance(&pairs), vec![5, 8, 4, 6, 7]);
}

#[test]
fn whole_fronts_are_kept_and_one_is_contested() {
    let ranked = vec![vec![1, 2], vec![3], vec![4, 5]];
    let cut = cut_fronts(&ranked, 4);
    assert_eq!(cut.kept, vec![1, 2, 3]);
    assert_eq!(cut.contested, Some(vec![4, 5]));
    let cut = cut_fronts(&ranked, 3);
    assert_eq!(cut.kept, vec![1, 2, 3]);
    assert_eq!(cut.contested, Some(vec![4, 5]));
    let cut = cut_fronts(&ranked, 5);
    assert_eq!(cut.kept, vec![1, 2, 3, 4, 5]);
    assert_eq!(cut.contested, None);
    let cut = cut_fronts(&ranked, 1);
    assert_eq!(cut.kept, Vec::<u32>::new());
    assert_eq!(cut.contested, Some(vec![1, 2]));
}

#[test]
fn the_elite_takes_the_least_crowded_of_the_contested_front() {
    let trials = trials(&[
        &[0.0, 4.0],
        &[1.0, 2.0],
        &[3.0, 1.0],
        &[4.0, 0.0],
        &[5.0, 5.0],
    ]);
    let ctx = context(&MINIMIZE);
    let elite = |size: usize| {
        select_elite_population_numbers(size, &ctx, &trials, &[0, 1, 2, 3, 4], &measure).unwrap()
    };
    assert_eq!(elite(0), Vec::<u32>::new());
    assert_eq!(elite(2), vec![0, 3]);
    assert_eq!(elite(3), vec![0, 3, 1]);
    assert_eq!(elite(4).len(), 4);
    assert!(!elite(4).contains(&4));
    assert_eq!(elite(9).len(), 5);
    let error =
        select_elite_population_numbers(2, &ctx, &trials, &[0, 7], &measure).unwrap_err();
    assert_eq!(error.kind, ErrorKind::TrialDiscarded);
}

#[test]
fn turning_objectives_round_changes_no_distance() {
    let trials = trials(&[&[0.0, 4.0], &[1.0, 2.0], &[3.0, 1.0], &[4.0, 0.0]]);
    let distances = |directions: &[Direction]| -> Vec<u64> {
        calc_crowding_distance(&context(directions), &trials, &[3, 1, 0, 2], &measure)
            .unwrap()
            .into_iter()
            .map(|(_, distance)| distance.bits)
            .collect()
    };
    let expected = distances(&MINIMIZE);
    assert_eq!(distances(&MIXED), expected);
    assert_eq!(distances(&[Direction::Maximize, Direction::Maximize]), expected);
}
