use std::collections::HashMap;

use rand::distributions::Bernoulli;
use rustuna_sampler::attr::AttrKey;
use rustuna_sampler::attr::Attrs;
use rustuna_sampler::crowding::Axis;
use rustuna_sampler::error::ErrorKind;
use rustuna_sampler::error::Failure;
use rustuna_sampler::generation::GenerationIndexCache;
use rustuna_sampler::number::Number;
use rustuna_sampler::params::Params;
use rustuna_sampler::parents::completed_trial_number;
use rustuna_sampler::parents::decode_parent_population_numbers;
use rustuna_sampler::parents::encode_parent_trial_ids;
use rustuna_sampler::parents::get_parent_population_numbers;
use rustuna_sampler::parents::parent_cache_key;
use rustuna_sampler::parents::restore_parent_population;
use rustuna_sampler::sampler::NSGAIISampler;
use rustuna_sampler::trial::Constraints;
use rustuna_sampler::trial::Context;
use rustuna_sampler::trial::Direction;
use rustuna_sampler::trial::PersistedTrial;
use rustuna_sampler::trial::TrialStateValues;

fn trial(id: u32, number: u32, generation: u32, values: &[f64]) -> PersistedTrial {
    let mut attrs = Attrs::new();
    attrs.insert(AttrKey::System("generation".into()), generation.to_string());
    PersistedTrial {
        id,
        study_id: 3,
        number,
        state_values: TrialStateValues::Complete(
            values
                .iter()
                .map(|value| Number::from_bits(value.to_bits()))
                .collect(),
        ),
        attrs,
        constraints: Ok(Constraints {
            values: Vec::new(),
            violation: Number::from_bits(0),
        }),
        internal_params: Params::new(),
    }
}

fn context(objectives: usize) -> Context {
    Context {
        study_id: 3,
        trial_id: 0,
        directions: vec![Direction::Minimize; objectives],
    }
}

fn unmeasured(_axes: &Vec<Axis>, count: usize) -> Vec<Number> {
    vec![Number::from_bits(0); count]
}

fn nowhere(_id: u32) -> Result<Option<u32>, Failure> {
    Ok(None)
}

#[test]
fn test_parent_population_cache_preserves_parent_order() {
    let completed_trial_numbers_by_id = HashMap::from([(10, 2), (20, 0), (30, 1)]);
    let population_numbers = decode_parent_population_numbers(
        &|trial_id: u32| Ok(completed_trial_numbers_by_id.get(&trial_id).copied()),
        "[10,20,30]",
        3,
    )
    .unwrap()
    .unwrap();

    assert_eq!(population_numbers, vec![2, 0, 1]);
}

#[test]
fn keys_name_their_generation() {
    assert!(matches!(
        parent_cache_key(12),
        AttrKey::System(name) if name == "NSGAIISampler:parent:12"
    ));
    assert!(parent_cache_key(1).same(&parent_cache_key(1)));
    assert!(!parent_cache_key(1).same(&parent_cache_key(11)));
    assert!(!parent_cache_key(1).same(&AttrKey::User("NSGAIISampler:parent:1".to_string())));
}

#[test]
fn parents_are_written_as_an_array_of_ids() {
    let trials = vec![
        Some(trial(70, 0, 0, &[0.0])),
        None,
        Some(trial(5, 2, 0, &[0.0])),
    ];
    assert_eq!(encode_parent_trial_ids(&trials, &[2, 0]).unwrap(), "[5,70]");
    assert_eq!(encode_parent_trial_ids(&trials, &[]).unwrap(), "[]");
    let gone = encode_parent_trial_ids(&trials, &[0, 1]).unwrap_err();
    assert_eq!(gone.kind, ErrorKind::TrialDiscarded);
    assert_eq!(gone.reason, None);
    let beyond = encode_parent_trial_ids(&trials, &[3]).unwrap_err();
    assert_eq!(beyond.kind, ErrorKind::TrialDiscarded);
}

#[test]
fn written_parents_are_read_back_in_their_order() {
    let trials: Vec<Option<PersistedTrial>> = (0..4)
        .map(|number| Some(trial(1000 - number, number, 0, &[0.0])))
        .collect();
    let encoded = encode_parent_trial_ids(&trials, &[3, 0, 2]).unwrap();
    let lookup = |id: u32| {
        completed_trial_number(
            trials
                .iter()
                .flatten()
                .find(|trial| trial.id == id)
                .ok_or_else(|| Failure::new(ErrorKind::TrialNotFound)),
            3,
        )
    };
    let decoded = decode_parent_population_numbers(&lookup, &encoded, 3).unwrap();
    assert_eq!(decoded, Some(vec![3, 0, 2]));
}

#[test]
fn stale_parents_are_read_as_nothing() {
    let same = |id: u32| Ok(Some(id));
    assert_eq!(decode_parent_population_numbers(&same, "[1,2]", 3).unwrap(), None);
    assert_eq!(decode_parent_population_numbers(&same, "[1,2,1]", 3).unwrap(), None);
    assert_eq!(decode_parent_population_numbers(&nowhere, "[1,2]", 2).unwrap(), None);
    assert_eq!(
        decode_parent_population_numbers(&same, " [ 1 , 2 ] ", 2).unwrap(),
        Some(vec![1, 2])
    );
    assert_eq!(
        decode_parent_population_numbers(&same, "[]", 0).unwrap(),
        Some(Vec::new())
    );
}

#[test]
fn text_that_is_no_array_of_ids_is_an_error() {
    let error = decode_parent_population_numbers(&nowhere, "nonsense", 2).unwrap_err();
    assert_eq!(error.kind, ErrorKind::StorageError);
    let expected = serde_json::from_str::<Vec<u32>>("nonsense").unwrap_err();
    assert_eq!(
        error.reason,
        Some(format!("Invalid NSGA-II parent cache: {expected}"))
    );
    assert!(decode_parent_population_numbers(&nowhere, "[-1]", 1).is_err());
}

#[test]
fn the_first_miss_or_error_decides() {
    let lookup = |id: u32| match id {
        1 => Ok(Some(10)),
        2 => Ok(None),
        _ => Err(Failure::with_reason(
            ErrorKind::Unexpected,
            "broken".to_string(),
        )),
    };
    assert_eq!(decode_parent_population_numbers(&lookup, "[1,2,3]", 3).unwrap(), None);
    let error = decode_parent_population_numbers(&lookup, "[1,3,2]", 3).unwrap_err();
    assert_eq!(error.kind, ErrorKind::Unexpected);
    assert_eq!(error.reason, Some("broken".to_string()));
}

#[test]
fn a_parent_is_a_complete_trial_of_the_study() {
    let mut found = trial(8, 4, 0, &[0.0]);
    assert_eq!(completed_trial_number(Ok(&found), 3).unwrap(), Some(4));
    assert_eq!(completed_trial_number(Ok(&found), 2).unwrap(), None);
    found.state_values = TrialStateValues::Fail;
    assert_eq!(completed_trial_number(Ok(&found), 3).unwrap(), None);
    for kind in [ErrorKind::TrialNotFound, ErrorKind::TrialDiscarded] {
        let reply = completed_trial_number(Err(Failure::new(kind)), 3);
        assert_eq!(reply.unwrap(), None);
    }
    let error = completed_trial_number(Err(Failure::new(ErrorKind::StorageError)), 3);
    assert_eq!(error.unwrap_err().kind, ErrorKind::StorageError);
}

#[test]
fn the_latest_usable_parents_are_restored() {
    let same = |id: u32| Ok(Some(id));
    let mut attrs = Attrs::new();
    attrs.insert(parent_cache_key(1), "[1,2]".to_string());
    attrs.insert(parent_cache_key(2), "[3,4]".to_string());
    attrs.insert(parent_cache_key(3), "[5]".to_string());
    attrs.insert(parent_cache_key(9), "[7,8]".to_string());
    assert_eq!(
        restore_parent_population(&same, &attrs, 2, 5).unwrap(),
        Some((2, vec![3, 4]))
    );
    assert_eq!(
        restore_parent_population(&same, &attrs, 2, 1).unwrap(),
        Some((1, vec![1, 2]))
    );
    assert_eq!(restore_parent_population(&same, &attrs, 2, 0).unwrap(), None);
    assert_eq!(restore_parent_population(&same, &attrs, 4, 9).unwrap(), None);
    attrs.insert(parent_cache_key(4), "oops".to_string());
    let error = restore_parent_population(&same, &attrs, 2, 5).unwrap_err();
    assert_eq!(error.kind, ErrorKind::StorageError);
}

#[test]
fn missing_parents_are_worked_out_generation_by_generation() {
    let trials = vec![
        Some(trial(10, 0, 0, &[3.0])),
        Some(trial(11, 1, 0, &[1.0])),
        Some(trial(12, 2, 1, &[2.0])),
        Some(trial(13, 3, 1, &[4.0])),
    ];
    let mut cache = GenerationIndexCache::new();
    cache.sync(&trials);
    let ctx = context(1);
    let bred = |child: u32, cached: Option<(u32, Vec<u32>)>| {
        get_parent_population_numbers(&cache, 2, &ctx, &trials, child, cached, &unmeasured).unwrap()
    };
    let texts = |attrs: &Attrs| -> Vec<String> {
        attrs.entries().iter().map(|(_, text)| text.clone()).collect()
    };

    let (generation, numbers, attrs) = bred(0, None);
    assert_eq!((generation, numbers), (0, Vec::new()));
    assert!(attrs.is_empty());

    let (generation, numbers, attrs) = bred(2, None);
    assert_eq!((generation, numbers), (2, vec![1, 2]));
    assert_eq!(texts(&attrs), vec!["[11,10]", "[11,12]"]);

    let (generation, numbers, attrs) = bred(2, Some((2, vec![3, 3])));
    assert_eq!((generation, numbers), (2, vec![3, 3]));
    assert!(attrs.is_empty());

    let (generation, numbers, attrs) = bred(2, Some((1, vec![3])));
    assert_eq!((generation, numbers), (2, vec![2, 3]));
    assert_eq!(texts(&attrs), vec!["[12,13]"]);

    let (generation, numbers, attrs) = bred(9, None);
    assert_eq!((generation, numbers), (9, vec![1, 2]));
    assert_eq!(attrs.entries().len(), 2);
}

#[test]
fn a_discarded_candidate_is_an_error() {
    let mut trials = vec![
        Some(trial(10, 0, 0, &[3.0])),
        Some(trial(11, 1, 0, &[1.0])),
    ];
    let mut cache = GenerationIndexCache::new();
    cache.sync(&trials);
    trials[1] = None;
    let ctx = context(1);
    let error =
        get_parent_population_numbers(&cache, 2, &ctx, &trials, 1, None, &unmeasured).unwrap_err();
    assert_eq!(error.kind, ErrorKind::TrialDiscarded);
}

#[test]
fn kept_parents_are_reused_and_not_written_again() {
    let trials = vec![
        Some(trial(10, 0, 0, &[3.0])),
        Some(trial(11, 1, 0, &[1.0])),
        Some(trial(12, 2, 0, &[0.0])),
    ];
    let ctx = context(1);
    let lookup = |id: u32| {
        completed_trial_number(
            trials
                .iter()
                .flatten()
                .find(|trial| trial.id == id)
                .ok_or_else(|| Failure::new(ErrorKind::TrialNotFound)),
            3,
        )
    };
    let make = || NSGAIISampler::new(2, None, Bernoulli::new(0.9), Bernoulli::new(0.5));

    let mut study_attrs = Attrs::new();
    let plan = make()
        .prepare_joint(&ctx, &trials, &study_attrs, &lookup, &unmeasured)
        .unwrap();
    assert_eq!(plan.child_generation, 1);
    assert_eq!(plan.parents, vec![2, 1]);
    let generation = plan.trial_attrs.get(&AttrKey::System("generation".into()));
    assert_eq!(generation, Some(&"1".to_string()));
    assert_eq!(
        plan.study_attrs.get(&parent_cache_key(1)),
        Some(&"[12,11]".to_string())
    );

    study_attrs.insert(parent_cache_key(1), "[10,11]".to_string());
    let plan = make()
        .prepare_joint(&ctx, &trials, &study_attrs, &lookup, &unmeasured)
        .unwrap();
    assert_eq!(plan.parents, vec![0, 1]);
    assert!(plan.study_attrs.is_empty());

    study_attrs.insert(parent_cache_key(1), "{".to_string());
    let error = make()
        .prepare_joint(&ctx, &trials, &study_attrs, &lookup, &unmeasured)
        .unwrap_err();
    assert_eq!(error.kind, ErrorKind::StorageError);
}

#[test]
fn resuming_gives_the_parents_that_are_worked_out_anew() {
    let trials = vec![
        Some(trial(10, 0, 0, &[3.0])),
        Some(trial(11, 1, 0, &[1.0])),
        Some(trial(12, 2, 1, &[2.0])),
        Some(trial(13, 3, 1, &[4.0])),
        Some(trial(14, 4, 2, &[0.0])),
        Some(trial(15, 5, 2, &[5.0])),
    ];
    let mut cache = GenerationIndexCache::new();
    cache.sync(&trials);
    let ctx = context(1);
    let bred = |child: u32, cached: Option<(u32, Vec<u32>)>| {
        get_parent_population_numbers(&cache, 2, &ctx, &trials, child, cached, &unmeasured)
            .unwrap()
    };
    let texts = |attrs: &Attrs| -> Vec<(u32, String)> {
        (0..9)
            .filter_map(|g| attrs.get(&parent_cache_key(g)).map(|text| (g, text.clone())))
            .collect()
    };
    let (_, anew, written) = bred(3, None);
    assert_eq!(anew, vec![4, 1]);
    let written = texts(&written);
    assert_eq!(written.len(), 3);
    for kept in 1..=3 {
        let (_, parents, attrs) = bred(3, Some((kept, bred(kept, None).1)));
        assert_eq!(parents, anew);
        assert_eq!(texts(&attrs), written[kept as usize..]);
        assert_eq!(attrs.entries().len(), 3 - kept as usize);
    }
}
