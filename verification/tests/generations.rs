use std::collections::HashMap;
use std::collections::HashSet;

use rand::distributions::Bernoulli;
use rustuna_sampler::attr::AttrKey;
use rustuna_sampler::attr::Attrs;
use rustuna_sampler::generation::read_generation;
use rustuna_sampler::generation::GenerationIndexCache;
use rustuna_sampler::number::Number;
use rustuna_sampler::params::Params;
use rustuna_sampler::sampler::NSGAIISampler;
use rustuna_sampler::trial::Constraints;
use rustuna_sampler::trial::PersistedTrial;
use rustuna_sampler::trial::TrialStateValues;

fn complete(values: &[f64]) -> TrialStateValues {
    TrialStateValues::Complete(
        values
            .iter()
            .map(|value| Number::from_bits(value.to_bits()))
            .collect(),
    )
}

fn persisted_trial(
    number: u32,
    state_values: TrialStateValues,
    generation: Option<u32>,
) -> PersistedTrial {
    let mut attrs = Attrs::new();
    if let Some(generation) = generation {
        attrs.insert(AttrKey::System("generation".into()), generation.to_string());
    }
    PersistedTrial {
        id: number,
        study_id: 0,
        number,
        state_values,
        attrs,
        constraints: Ok(Constraints {
            values: Vec::new(),
            violation: Number::from_bits(0),
        }),
        internal_params: Params::new(),
    }
}

fn sampler(population_size: usize) -> NSGAIISampler {
    NSGAIISampler::new(
        population_size,
        None,
        Bernoulli::new(1.0),
        Bernoulli::new(1.0),
    )
}

#[test]
fn test_get_child_generation_indexes_newly_appended_completed_trials() {
    let mut sampler = sampler(2);
    let mut trials = vec![Some(persisted_trial(0, complete(&[0.0, 0.0]), Some(0)))];

    assert_eq!(sampler.get_child_generation(&trials).unwrap(), 0);

    trials.push(Some(persisted_trial(1, complete(&[1.0, 1.0]), Some(0))));

    assert_eq!(sampler.get_child_generation(&trials).unwrap(), 1);
    assert_eq!(
        sampler
            .generation_index_cache
            .generation_to_numbers
            .get(&0),
        Some(&vec![0, 1])
    );
}

#[test]
fn test_get_child_generation_rechecks_unfinished_trials() {
    let mut sampler = sampler(1);
    let mut trials = vec![Some(persisted_trial(0, TrialStateValues::Running, Some(0)))];

    assert_eq!(sampler.get_child_generation(&trials).unwrap(), 0);
    assert_eq!(
        sampler
            .generation_index_cache
            .unfinished_trial_numbers
            .clone(),
        HashSet::from([0])
    );

    trials[0] = Some(persisted_trial(0, complete(&[0.0, 0.0]), Some(0)));

    assert_eq!(sampler.get_child_generation(&trials).unwrap(), 1);
    assert!(sampler
        .generation_index_cache
        .unfinished_trial_numbers
        .is_empty());
    assert_eq!(
        sampler
            .generation_index_cache
            .generation_to_numbers
            .get(&0),
        Some(&vec![0])
    );
}

#[test]
fn test_get_child_generation_resets_cache_when_trial_list_shrinks() {
    let mut sampler = sampler(2);
    let full_trials = vec![
        Some(persisted_trial(0, complete(&[0.0, 0.0]), Some(0))),
        Some(persisted_trial(1, complete(&[1.0, 1.0]), Some(0))),
    ];

    assert_eq!(sampler.get_child_generation(&full_trials).unwrap(), 1);

    let shortened_trials = vec![Some(persisted_trial(0, complete(&[0.0, 0.0]), Some(0)))];

    assert_eq!(sampler.get_child_generation(&shortened_trials).unwrap(), 0);
    assert_eq!(sampler.generation_index_cache.unseen_trial_start, 1);
    assert_eq!(
        sampler
            .generation_index_cache
            .generation_to_numbers
            .get(&0),
        Some(&vec![0])
    );
}

#[test]
fn a_population_of_nobody_is_full_once_it_has_a_member() {
    let mut sampler = sampler(0);
    let none: Vec<Option<PersistedTrial>> = Vec::new();
    assert_eq!(sampler.get_child_generation(&none).unwrap(), 0);
    let trials = vec![
        Some(persisted_trial(0, complete(&[0.0]), Some(0))),
        Some(persisted_trial(1, complete(&[0.0]), Some(1))),
        Some(persisted_trial(2, complete(&[0.0]), Some(3))),
    ];
    assert_eq!(sampler.get_child_generation(&trials).unwrap(), 2);
}

#[test]
fn only_complete_trials_with_a_generation_count() {
    let mut cache = GenerationIndexCache::new();
    let mut odd = persisted_trial(5, complete(&[0.0]), None);
    odd.attrs
        .insert(AttrKey::System("generation".into()), "-1".to_string());
    let mut user = persisted_trial(6, complete(&[0.0]), None);
    user.attrs
        .insert(AttrKey::User("generation".into()), "0".to_string());
    let trials = vec![
        Some(persisted_trial(0, TrialStateValues::Pruned, Some(0))),
        Some(persisted_trial(1, TrialStateValues::Fail, Some(0))),
        Some(persisted_trial(2, TrialStateValues::Waiting, Some(0))),
        None,
        Some(persisted_trial(4, complete(&[0.0]), None)),
        Some(odd),
        Some(user),
        Some(persisted_trial(7, complete(&[0.0]), Some(0))),
    ];
    cache.sync(&trials);
    assert_eq!(
        cache.generation_to_numbers,
        HashMap::from([(0, vec![7])])
    );
    assert_eq!(cache.unfinished_trial_numbers, HashSet::from([2]));
    assert_eq!(cache.unseen_trial_start, 8);
}

#[test]
fn a_generation_may_be_written_with_a_plus_sign() {
    let mut trial = persisted_trial(0, complete(&[0.0]), None);
    assert_eq!(read_generation(&trial), None);
    trial
        .attrs
        .insert(AttrKey::System("generation".into()), "+12".to_string());
    assert_eq!(read_generation(&trial), Some(12));
}

#[test]
fn unfinished_trials_are_looked_at_in_the_given_order() {
    let mut cache = GenerationIndexCache::new();
    let mut trials = vec![
        Some(persisted_trial(0, TrialStateValues::Running, Some(0))),
        Some(persisted_trial(1, TrialStateValues::Running, Some(0))),
        Some(persisted_trial(2, TrialStateValues::Running, Some(0))),
    ];
    cache.sync(&trials);
    trials[0] = Some(persisted_trial(0, complete(&[0.0]), Some(0)));
    trials[1] = None;
    trials[2] = Some(persisted_trial(2, complete(&[0.0]), Some(0)));
    cache.sync_in_order(&trials, &vec![2, 1, 0]);
    assert_eq!(cache.generation_to_numbers.get(&0), Some(&vec![2, 0]));
    assert!(cache.unfinished_trial_numbers.is_empty());
}

#[test]
fn an_index_that_is_kept_up_to_date_agrees_with_a_new_one() {
    let state = |step: u32, number: u32| match (step + number) % 4 {
        0 => TrialStateValues::Running,
        1 => complete(&[0.0]),
        2 => TrialStateValues::Waiting,
        _ => TrialStateValues::Fail,
    };
    let mut kept = GenerationIndexCache::new();
    let mut trials: Vec<Option<PersistedTrial>> = Vec::new();
    for step in 0..12u32 {
        for number in 0..trials.len() as u32 {
            let open = matches!(
                trials[number as usize].as_ref().unwrap().state_values,
                TrialStateValues::Running | TrialStateValues::Waiting
            );
            if open {
                trials[number as usize] =
                    Some(persisted_trial(number, state(step, number), Some(number / 3)));
            }
        }
        let number = trials.len() as u32;
        trials.push(Some(persisted_trial(
            number,
            state(step, number),
            Some(number / 3),
        )));
        kept.sync(&trials);
        let mut built = GenerationIndexCache::new();
        built.sync(&trials);
        assert_eq!(kept.unfinished_trial_numbers, built.unfinished_trial_numbers);
        for (generation, numbers) in &built.generation_to_numbers {
            let mut listed = kept.generation_to_numbers[generation].clone();
            listed.sort();
            assert_eq!(&listed, numbers);
        }
        assert_eq!(
            kept.generation_to_numbers.len(),
            built.generation_to_numbers.len()
        );
        assert_eq!(
            kept.first_open_generation(2).unwrap(),
            built.first_open_generation(2).unwrap()
        );
    }
}

#[test]
fn the_default_sampler_has_a_population_of_fifty() {
    let sampler = NSGAIISampler::default();
    assert_eq!(sampler.population_size, 50);
    assert_eq!(sampler.mutation_prob, None);
    assert_eq!(sampler.crossover_prob, Bernoulli::new(0.9));
    assert_eq!(sampler.swapping_prob, Bernoulli::new(0.5));
    let made = NSGAIISampler::new(50, None, Bernoulli::new(0.9), Bernoulli::new(0.5));
    assert_eq!(sampler.rng, made.rng);
    assert!(Bernoulli::new(1.5).is_err());
}
