use std::collections::BTreeMap;

use rand::distributions::Bernoulli;
use rand::rngs::StdRng;
use rand::seq::SliceRandom;
use rand::Rng;
use rand::SeedableRng;
use rustuna_sampler::attr::Attrs;
use rustuna_sampler::error::ErrorKind;
use rustuna_sampler::error::Failure;
use rustuna_sampler::independent::clamp_index;
use rustuna_sampler::independent::clamp_number;
use rustuna_sampler::independent::integer_at;
use rustuna_sampler::independent::max_index;
use rustuna_sampler::independent::Distribution;
use rustuna_sampler::independent::Draw;
use rustuna_sampler::independent::FloatStep;
use rustuna_sampler::names::sorted_parameter_names;
use rustuna_sampler::number::Number;
use rustuna_sampler::offspring::build_parent_params;
use rustuna_sampler::offspring::crossover_with;
use rustuna_sampler::offspring::mutate_with;
use rustuna_sampler::offspring::parent_pair;
use rustuna_sampler::params::Params;
use rustuna_sampler::random::flip_coins;
use rustuna_sampler::sampler::JointPlan;
use rustuna_sampler::sampler::NSGAIISampler;
use rustuna_sampler::trial::Constraints;
use rustuna_sampler::trial::PersistedTrial;
use rustuna_sampler::trial::TrialStateValues;

fn number(value: f64) -> Number {
    Number::from_bits(value.to_bits())
}

fn value(number: Number) -> f64 {
    f64::from_bits(number.bits)
}

fn params(values: &[(&str, f64)]) -> Params {
    let mut params = Params::new();
    for (name, value) in values {
        params.insert(name.to_string(), number(*value));
    }
    params
}

fn listed(params: &Params) -> BTreeMap<String, f64> {
    params
        .entries()
        .iter()
        .map(|(name, number)| (name.clone(), value(*number)))
        .collect()
}

fn mapping(values: &[(&str, f64)]) -> BTreeMap<String, f64> {
    values
        .iter()
        .map(|(name, value)| (name.to_string(), *value))
        .collect()
}

fn names(names: &[&str]) -> Vec<String> {
    names.iter().map(|name| name.to_string()).collect()
}

fn trial(number: u32, values: &[(&str, f64)]) -> Option<PersistedTrial> {
    Some(PersistedTrial {
        id: number,
        study_id: 0,
        number,
        state_values: TrialStateValues::Complete(Vec::new()),
        attrs: Attrs::new(),
        constraints: Ok(Constraints {
            values: Vec::new(),
            violation: Number::from_bits(0),
        }),
        internal_params: params(values),
    })
}

fn plan(child_generation: u32, parents: &[u32]) -> JointPlan {
    JointPlan {
        child_generation,
        parents: parents.to_vec(),
        trial_attrs: Attrs::new(),
        study_attrs: Attrs::new(),
    }
}

fn seeded(seed: u64, crossover_prob: f64, swapping_prob: f64) -> NSGAIISampler {
    NSGAIISampler::seed_from_u64(
        seed,
        4,
        None,
        Bernoulli::new(crossover_prob),
        Bernoulli::new(swapping_prob),
    )
}

#[test]
fn generators_start_from_their_seeds() {
    let made = NSGAIISampler::new(4, None, Bernoulli::new(0.5), Bernoulli::new(0.5));
    assert_eq!(made.rng, StdRng::from_seed([0; 32]));
    assert_eq!(seeded(9, 0.5, 0.5).rng, StdRng::seed_from_u64(9));
    assert_ne!(seeded(9, 0.5, 0.5).rng, StdRng::seed_from_u64(8));
}

#[test]
fn coins_fall_as_the_generator_has_them_fall() {
    for p in [0.0, 0.25, 0.5, 0.9, 1.0] {
        let mut rng = StdRng::seed_from_u64(3);
        let mut expected_rng = StdRng::seed_from_u64(3);
        let heads = flip_coins(&mut rng, &Bernoulli::new(p).unwrap(), 40);
        let expected: Vec<bool> = (0..40).map(|_| expected_rng.gen_bool(p)).collect();
        assert_eq!(heads, expected);
        assert_eq!(rng, expected_rng);
    }
}

#[test]
fn names_are_sorted_by_their_bytes() {
    let sorted = sorted_parameter_names(&names(&["b", "x10", "a", "", "x2", "é", "B", "z"]));
    assert_eq!(sorted, vec!["", "B", "a", "b", "x10", "x2", "z", "é"]);
}

#[test]
fn two_parents_are_taken_out_of_the_chosen_ones() {
    assert_eq!(parent_pair(&vec![5, 6, 7]).unwrap(), (5, 6));
    for few in [vec![], vec![5]] {
        let error = parent_pair(&few).unwrap_err();
        assert_eq!(error.kind, ErrorKind::SamplerError);
        assert_eq!(
            error.reason,
            Some("NSGA-II requires at least two parent trials".to_string())
        );
    }
}

#[test]
fn a_parent_gives_the_values_of_the_names() {
    let trials = vec![trial(0, &[("a", 1.0), ("b", 2.0), ("c", 3.0)]), None];
    let built = build_parent_params(&trials, 0, &names(&["a", "c"])).unwrap();
    assert_eq!(listed(&built), mapping(&[("a", 1.0), ("c", 3.0)]));
    let error = build_parent_params(&trials, 1, &names(&["a"])).unwrap_err();
    assert_eq!(error.kind, ErrorKind::TrialDiscarded);
    assert!(build_parent_params(&trials, 2, &names(&[])).is_err());
}

#[test]
fn swapped_names_come_from_the_second_parent() {
    let parent0 = params(&[("a", 1.0), ("b", 2.0), ("c", 3.0)]);
    let parent1 = params(&[("a", 10.0), ("b", 20.0), ("c", 30.0), ("d", 40.0)]);
    let all = names(&["a", "b", "c"]);
    let child = crossover_with(&parent0, &parent1, &all, &vec![false, true, false]);
    assert_eq!(listed(&child), mapping(&[("a", 1.0), ("b", 20.0), ("c", 3.0)]));
    let left = mutate_with(&child, &all, &vec![true, false, false]);
    assert_eq!(listed(&left), mapping(&[("b", 20.0), ("c", 3.0)]));
}

#[test]
fn a_crossover_that_always_swaps_gives_the_second_parent() {
    let parent0 = params(&[("a", 1.0), ("b", 2.0)]);
    let parent1 = params(&[("a", 10.0), ("b", 20.0)]);
    let all = names(&["a", "b"]);
    let child = seeded(0, 1.0, 1.0).crossover(&parent0, &parent1, &all);
    assert_eq!(listed(&child), listed(&parent1));
    let child = seeded(0, 1.0, 0.0).crossover(&parent0, &parent1, &all);
    assert_eq!(listed(&child), listed(&parent0));
}

#[test]
fn mutation_hits_one_name_in_as_many_as_there_are() {
    let sampler = seeded(0, 0.5, 0.5);
    assert_eq!(sampler.mutation_chance(0), Bernoulli::new(1.0).unwrap());
    assert_eq!(sampler.mutation_chance(1), Bernoulli::new(1.0).unwrap());
    for count in 2..50usize {
        let expected = Bernoulli::new(1.0 / count as f64).unwrap();
        assert_eq!(sampler.mutation_chance(count), expected);
    }
    let mut sampler = seeded(0, 0.5, 0.5);
    sampler.mutation_prob = Some(Bernoulli::new(0.25));
    assert_eq!(sampler.mutation_chance(7), Bernoulli::new(0.25).unwrap());
}

#[test]
fn children_are_drawn_step_by_step() {
    let trials: Vec<Option<PersistedTrial>> = (0..5u32)
        .map(|k| {
            let base = 100.0 * k as f64;
            trial(k, &[("a", base), ("b", base + 1.0), ("c", base + 2.0), ("x", -1.0)])
        })
        .collect();
    let parents = [4, 0, 2, 1];
    let sorted = ["a", "b", "c"];
    for seed in 0..60u64 {
        let mut rng = StdRng::seed_from_u64(seed);
        let chosen: Vec<u32> = parents.choose_multiple(&mut rng, 2).copied().collect();
        let crossing = rng.gen_bool(0.6);
        let source: Vec<u32> = sorted
            .iter()
            .map(|_| {
                if crossing && rng.gen_bool(0.3) {
                    chosen[1]
                } else {
                    chosen[0]
                }
            })
            .collect();
        let mut expected = BTreeMap::new();
        for (k, name) in sorted.iter().enumerate() {
            if !rng.gen_bool(1.0 / 3.0) {
                let value = 100.0 * source[k] as f64 + k as f64;
                expected.insert(name.to_string(), value);
            }
        }

        for listing in [["c", "a", "b"], ["a", "b", "c"]] {
            let mut sampler = seeded(seed, 0.6, 0.3);
            let drawn = sampler
                .sample_joint(&trials, &plan(3, &parents), &names(&listing))
                .unwrap();
            assert_eq!(listed(&drawn), expected, "seed {seed}");
            assert_eq!(sampler.rng, rng);
        }
    }
}

#[test]
fn the_first_generation_draws_nothing_together() {
    let mut sampler = seeded(5, 0.6, 0.3);
    let drawn = sampler
        .sample_joint(&[], &plan(0, &[]), &names(&["a"]))
        .unwrap();
    assert!(drawn.is_empty());
    assert_eq!(sampler.rng, StdRng::seed_from_u64(5));
}

#[test]
fn children_need_two_parents_that_are_there() {
    let trials = vec![trial(0, &[]), None];
    let mut sampler = seeded(5, 0.6, 0.3);
    let error = sampler
        .sample_joint(&trials, &plan(1, &[0]), &names(&[]))
        .unwrap_err();
    assert_eq!(error.kind, ErrorKind::SamplerError);
    let error = sampler
        .sample_joint(&trials, &plan(1, &[0, 1]), &names(&[]))
        .unwrap_err();
    assert_eq!(error.kind, ErrorKind::TrialDiscarded);
}

#[test]
fn a_single_value_is_taken_without_a_draw() {
    let mut sampler = seeded(5, 0.6, 0.3);
    let any = Distribution::Categorical { cardinality: 0 };
    let draw = sampler
        .sample_independent(&any, Some(Ok(number(2.5))))
        .unwrap();
    assert!(matches!(draw, Draw::Single(only) if value(only) == 2.5));
    let error = sampler
        .sample_independent(&any, Some(Err(Failure::new(ErrorKind::Unexpected))))
        .unwrap_err();
    assert_eq!(error.kind, ErrorKind::Unexpected);
    assert_eq!(sampler.rng, StdRng::seed_from_u64(5));
}

#[test]
fn integers_are_drawn_in_steps() {
    for seed in 0..20u64 {
        let mut sampler = seeded(seed, 0.6, 0.3);
        let mut rng = StdRng::seed_from_u64(seed);
        let range = Distribution::Int {
            low: -7,
            high: 10,
            step: 4,
            log: false,
        };
        let expected = -7 + rng.gen_range(0..=4i64) * 4;
        let draw = sampler.sample_independent(&range, None).unwrap();
        assert!(matches!(draw, Draw::Integer(drawn) if drawn == expected));

        let choice = Distribution::Categorical { cardinality: 6 };
        let expected = rng.gen_range(0..6i64);
        let draw = sampler.sample_independent(&choice, None).unwrap();
        assert!(matches!(draw, Draw::Integer(drawn) if drawn == expected));

        let grid = Distribution::Float {
            low: number(0.5),
            high: number(2.0),
            step: Some(FloatStep {
                size: number(0.25),
                max_index: 6,
            }),
            log: false,
        };
        let expected = rng.gen_range(0..=6i64);
        let draw = sampler.sample_independent(&grid, None).unwrap();
        assert!(matches!(
            draw,
            Draw::Grid { low, step, index }
                if value(low) == 0.5 && value(step) == 0.25 && index == expected
        ));
        assert_eq!(sampler.rng, rng);
    }
}

#[test]
fn ranges_of_numbers_are_left_to_the_caller() {
    let mut sampler = seeded(1, 0.6, 0.3);
    let float = |step: Option<FloatStep>, log: bool| Distribution::Float {
        low: number(1.0),
        high: number(2.0),
        step,
        log,
    };
    let step = FloatStep {
        size: number(0.5),
        max_index: 2,
    };
    let mut draw = |distribution: Distribution| {
        sampler.sample_independent(&distribution, None).unwrap()
    };
    assert!(matches!(draw(float(None, false)), Draw::Uniform { .. }));
    assert!(matches!(draw(float(None, true)), Draw::LogUniform { step: None, .. }));
    assert!(matches!(
        draw(float(Some(step), true)),
        Draw::LogUniform { step: Some(size), .. } if value(size) == 0.5
    ));
    let integers = Distribution::Int {
        low: 1,
        high: 8,
        step: 2,
        log: true,
    };
    assert!(matches!(
        draw(integers),
        Draw::LogInteger { low: 1, high: 8, step: 2 }
    ));
    assert_eq!(sampler.rng, StdRng::seed_from_u64(1));
}

#[test]
fn steps_lead_from_the_low_end_towards_the_high_end() {
    assert_eq!(max_index(0, 10, 3), 3);
    assert_eq!(max_index(0, 9, 3), 3);
    assert_eq!(max_index(5, 5, 1), 0);
    assert_eq!(max_index(5, 4, 1), 0);
    assert_eq!(max_index(5, 9, -1), 0);
    assert_eq!(max_index(9, 5, -2), 2);
    assert_eq!(max_index(0, i64::MAX, 1), i64::MAX);
    assert_eq!(max_index(0, i64::MIN, i64::MIN), 1);
    assert_eq!(integer_at(-7, 10, 4, 4), 9);
    assert_eq!(integer_at(9, 5, -2, 2), 5);
    assert_eq!(integer_at(0, i64::MIN, i64::MIN, 1), i64::MIN);
}

#[test]
fn values_beyond_a_range_are_moved_to_its_ends() {
    assert_eq!(clamp_index(-1, 4), 0);
    assert_eq!(clamp_index(2, 4), 2);
    assert_eq!(clamp_index(5, 4), 4);
    let clamp = |x: f64, low: f64, high: f64| {
        value(clamp_number(number(x), number(low), number(high)))
    };
    assert_eq!(clamp(0.5, 1.0, 2.0), 1.0);
    assert_eq!(clamp(1.5, 1.0, 2.0), 1.5);
    assert_eq!(clamp(2.5, 1.0, 2.0), 2.0);
    assert_eq!(clamp(0.0, 3.0, 2.0), 2.0);
    assert!(clamp(f64::NAN, 1.0, 2.0).is_nan());
}

#[test]
fn chances_of_none_and_of_all_leave_nothing_to_chance() {
    let trials = vec![
        trial(0, &[("a", 1.0), ("b", 2.0)]),
        trial(1, &[("a", 10.0), ("b", 20.0)]),
    ];
    let first = mapping(&[("a", 1.0), ("b", 2.0)]);
    let second = mapping(&[("a", 10.0), ("b", 20.0)]);
    let draw = |seed: u64, mutation: Option<f64>, crossover: f64, swapping: f64, all: &[&str]| {
        let mut sampler = seeded(seed, crossover, swapping);
        sampler.mutation_prob = mutation.map(Bernoulli::new);
        let drawn = sampler.sample_pair(&trials, 0, 1, &names(all)).unwrap();
        (listed(&drawn), sampler.rng)
    };
    for seed in 0..20u64 {
        assert_eq!(draw(seed, Some(0.0), 1.0, 1.0, &["a", "b"]).0, second);
        assert_eq!(draw(seed, Some(0.0), 1.0, 0.0, &["a", "b"]).0, first);
        assert_eq!(draw(seed, Some(0.0), 0.0, 1.0, &["a", "b"]).0, first);
        let (nothing, rng) = draw(seed, Some(1.0), 1.0, 1.0, &["b", "a"]);
        assert!(nothing.is_empty());
        assert_eq!(rng, StdRng::seed_from_u64(seed));
        assert!(draw(seed, None, 0.5, 0.5, &["a"]).0.is_empty());
    }
}

#[test]
fn a_second_parent_is_not_read_where_the_first_is_gone() {
    let trials = vec![None, trial(1, &[])];
    let mut sampler = seeded(3, 0.5, 0.5);
    let error = sampler
        .sample_pair(&trials, 0, 1, &names(&["a"]))
        .unwrap_err();
    assert_eq!(error.kind, ErrorKind::TrialDiscarded);
    assert_eq!(sampler.rng, StdRng::seed_from_u64(3));
}

#[test]
fn two_parents_are_chosen_from_different_places() {
    for seed in 0..20u64 {
        let mut sampler = seeded(seed, 0.5, 0.5);
        let mut rng = StdRng::seed_from_u64(seed);
        let expected: Vec<u32> = [9, 8, 7].choose_multiple(&mut rng, 2).copied().collect();
        let pair = sampler.choose_parents(&plan(2, &[9, 8, 7])).unwrap();
        assert_eq!(pair, Some((expected[0], expected[1])));
        assert_ne!(expected[0], expected[1]);
        assert_eq!(sampler.rng, rng);
    }
    let mut sampler = seeded(0, 0.5, 0.5);
    assert_eq!(sampler.choose_parents(&plan(0, &[9, 8])).unwrap(), None);
    assert!(sampler.choose_parents(&plan(1, &[9])).is_err());
}

#[test]
fn chances_that_are_not_drawn_with_need_not_be_probabilities() {
    let parent0 = params(&[("a", 1.0)]);
    let parent1 = params(&[("a", 2.0)]);
    let mut sampler = seeded(0, 0.0, 7.0);
    sampler.mutation_prob = Some(Bernoulli::new(0.0));
    assert!(!sampler.decide_crossover());
    let child = sampler.sample_child(parent0, parent1, &names(&["a"]), false);
    assert_eq!(listed(&child), mapping(&[("a", 1.0)]));

    let trials = vec![trial(0, &[]), trial(1, &[])];
    let mut sampler = seeded(0, 1.0, 7.0);
    sampler.mutation_prob = Some(Bernoulli::new(-1.0));
    let child = sampler
        .sample_joint(&trials, &plan(1, &[0, 1]), &names(&[]))
        .unwrap();
    assert!(child.is_empty());
    assert_eq!(listed(&sampler.crossover(&params(&[]), &params(&[]), &names(&[]))), mapping(&[]));
}

#[test]
fn a_child_is_drawn_in_the_stages_of_a_joint_draw() {
    let trials = vec![
        trial(0, &[("a", 1.0), ("b", 2.0), ("c", 3.0)]),
        trial(1, &[("a", 10.0), ("b", 20.0), ("c", 30.0)]),
    ];
    let all = names(&["c", "a", "b"]);
    let made = plan(1, &[1, 0]);
    for seed in 0..20u64 {
        let mut whole = seeded(seed, 0.5, 0.5);
        let expected = whole.sample_joint(&trials, &made, &all).unwrap();
        let mut staged = seeded(seed, 0.5, 0.5);
        let (first, second) = staged.choose_parents(&made).unwrap().unwrap();
        let parent0 = build_parent_params(&trials, first, &all).unwrap();
        let parent1 = build_parent_params(&trials, second, &all).unwrap();
        let crossing = staged.decide_crossover();
        let child = staged.sample_child(parent0, parent1, &all, crossing);
        assert_eq!(listed(&child), listed(&expected));
        assert_eq!(staged.rng, whole.rng);
    }
}
