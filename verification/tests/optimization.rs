use std::cell::RefCell;
use std::collections::BTreeMap;
use std::rc::Rc;

use rand::distributions::Bernoulli;
use rand::Rng;
use rustuna_sampler::attr::AttrKey;
use rustuna_sampler::attr::Attrs;
use rustuna_sampler::crowding::Axis;
use rustuna_sampler::crowding::Difference;
use rustuna_sampler::dominance::positive_constraints;
use rustuna_sampler::error::ErrorKind;
use rustuna_sampler::error::Failure;
use rustuna_sampler::independent::Distribution;
use rustuna_sampler::independent::Draw;
use rustuna_sampler::number::Number;
use rustuna_sampler::params::Params;
use rustuna_sampler::parents::completed_trial_number;
use rustuna_sampler::parents::parent_cache_key;
use rustuna_sampler::sampler::NSGAIISampler;
use rustuna_sampler::trial::Constraints;
use rustuna_sampler::trial::Context;
use rustuna_sampler::trial::Direction;
use rustuna_sampler::trial::PersistedTrial;
use rustuna_sampler::trial::TrialStateValues;

const STUDY_ID: u32 = 7;
const FIRST_TRIAL_ID: u32 = 100;
const PARENT_CACHE_KEY_PREFIX: &str = "NSGAIISampler:parent:";

fn number(value: f64) -> Number {
    Number::from_bits(value.to_bits())
}

fn value(number: Number) -> f64 {
    f64::from_bits(number.bits)
}

fn complete(values: &[f64]) -> TrialStateValues {
    TrialStateValues::Complete(values.iter().map(|v| number(*v)).collect())
}

fn sampler(
    population_size: usize,
    crossover_prob: f64,
    swapping_prob: f64,
) -> NSGAIISampler {
    NSGAIISampler::new(
        population_size,
        None,
        Bernoulli::new(crossover_prob),
        Bernoulli::new(swapping_prob),
    )
}

fn length(difference: &Option<Difference>, otherwise: f64) -> f64 {
    match difference {
        Some(difference) => value(difference.to) - value(difference.from),
        None => otherwise,
    }
}

fn measure(axes: &Vec<Axis>, count: usize) -> Vec<Number> {
    let mut distances = vec![0.0; count];
    for axis in axes {
        match axis {
            Axis::Unordered => panic!("values that are not in order"),
            Axis::Level => {}
            Axis::Spread { steps, width } => {
                for step in steps {
                    distances[step.index] += length(&step.gap, 0.0) / length(width, 1.0);
                }
            }
        }
    }
    distances.into_iter().map(number).collect()
}

#[derive(Clone, Copy, PartialEq, Debug)]
enum Range {
    Float(f64, f64),
    Int(i64, i64),
}

impl Range {
    fn single(self) -> Option<f64> {
        match self {
            Range::Float(low, high) if low == high => Some(low),
            Range::Int(low, high) if low == high => Some(low as f64),
            _ => None,
        }
    }

    fn distribution(self) -> Distribution {
        match self {
            Range::Float(low, high) => Distribution::Float {
                low: number(low),
                high: number(high),
                step: None,
                log: false,
            },
            Range::Int(low, high) => Distribution::Int {
                low,
                high,
                step: 1,
                log: false,
            },
        }
    }
}

struct Store {
    directions: Vec<Direction>,
    trials: Vec<Option<PersistedTrial>>,
    ranges: Vec<BTreeMap<String, Range>>,
    attrs: Attrs,
}

impl Store {
    fn trial_mut(&mut self, number: u32) -> &mut PersistedTrial {
        self.trials[number as usize].as_mut().unwrap()
    }

    fn shared_names(&self) -> Vec<String> {
        let mut shared: Option<BTreeMap<String, Range>> = None;
        for (trial, ranges) in self.trials.iter().flatten().zip(&self.ranges) {
            if let TrialStateValues::Complete(_) = trial.state_values {
                shared = Some(match shared {
                    None => ranges.clone(),
                    Some(known) => known
                        .into_iter()
                        .filter(|(name, range)| ranges.get(name) == Some(range))
                        .collect(),
                });
            }
        }
        shared
            .unwrap_or_default()
            .into_iter()
            .filter(|(_, range)| range.single().is_none())
            .map(|(name, _)| name)
            .collect()
    }
}

#[derive(Clone)]
struct Study {
    store: Rc<RefCell<Store>>,
    sampler: Rc<RefCell<NSGAIISampler>>,
}

struct Trial {
    study: Study,
    id: u32,
    number: u32,
    joint: Params,
}

fn create_study(sampler: NSGAIISampler) -> Study {
    Study {
        store: Rc::new(RefCell::new(Store {
            directions: vec![Direction::Minimize, Direction::Minimize],
            trials: Vec::new(),
            ranges: Vec::new(),
            attrs: Attrs::new(),
        })),
        sampler: Rc::new(RefCell::new(sampler)),
    }
}

impl Study {
    fn with_sampler(&self, sampler: NSGAIISampler) -> Study {
        Study {
            store: Rc::clone(&self.store),
            sampler: Rc::new(RefCell::new(sampler)),
        }
    }

    fn ask(&self) -> Result<Trial, Failure> {
        let mut store = self.store.borrow_mut();
        let mut sampler = self.sampler.borrow_mut();
        let number = store.trials.len() as u32;
        let id = FIRST_TRIAL_ID + number;
        store.trials.push(Some(PersistedTrial {
            id,
            study_id: STUDY_ID,
            number,
            state_values: TrialStateValues::Running,
            attrs: Attrs::new(),
            constraints: Ok(Constraints {
                values: Vec::new(),
                violation: Number::from_bits(0),
            }),
            internal_params: Params::new(),
        }));
        store.ranges.push(BTreeMap::new());
        let ctx = Context {
            study_id: STUDY_ID,
            trial_id: id,
            directions: store.directions.clone(),
        };
        assert!(sampler.support_joint_sampling());
        let plan = {
            let trials = &store.trials;
            let lookup = |id: u32| {
                let found = trials.iter().flatten().find(|trial| trial.id == id);
                completed_trial_number(
                    found.ok_or_else(|| Failure::new(ErrorKind::TrialNotFound)),
                    ctx.study_id,
                )
            };
            sampler.prepare_joint(&ctx, trials, &store.attrs, &lookup, &measure)?
        };
        for (key, text) in plan.trial_attrs.entries() {
            let trial = store.trial_mut(number);
            trial.attrs.insert(key.clone(), text.clone());
        }
        for (key, text) in plan.study_attrs.entries() {
            store.attrs.insert(key.clone(), text.clone());
        }
        let names = store.shared_names();
        let joint = sampler.sample_joint(&store.trials, &plan, &names)?;
        drop(store);
        drop(sampler);
        Ok(Trial {
            study: self.clone(),
            id,
            number,
            joint,
        })
    }

    fn tell(&self, number: u32, state_values: TrialStateValues) -> Result<(), Failure> {
        self.store.borrow_mut().trial_mut(number).state_values = state_values;
        Ok(())
    }

    fn optimize(
        &self,
        mut objective: impl FnMut(&mut Trial) -> Result<Vec<f64>, Failure>,
        n_trials: usize,
    ) -> Result<(), Failure> {
        for _ in 0..n_trials {
            let mut trial = self.ask()?;
            let values = objective(&mut trial)?;
            self.tell(trial.number, complete(&values))?;
        }
        Ok(())
    }

    fn n_trials(&self) -> usize {
        self.store.borrow().trials.len()
    }

    fn study_attr(&self, key: AttrKey) -> Option<String> {
        self.store.borrow().attrs.get(&key).cloned()
    }

    fn cached_parents(&self) -> Vec<String> {
        self.store
            .borrow()
            .attrs
            .entries()
            .iter()
            .filter(|(key, _)| {
                matches!(key, AttrKey::System(name) if name.starts_with(PARENT_CACHE_KEY_PREFIX))
            })
            .map(|(_, text)| text.clone())
            .collect()
    }

    fn params(&self) -> Vec<BTreeMap<String, u64>> {
        let store = self.store.borrow();
        store
            .trials
            .iter()
            .flatten()
            .map(|trial| {
                trial
                    .internal_params
                    .entries()
                    .iter()
                    .map(|(name, number)| (name.clone(), number.bits))
                    .collect()
            })
            .collect()
    }
}

impl Trial {
    fn suggest(&mut self, name: &str, range: Range) -> Result<f64, Failure> {
        let drawn = match self.joint.get(&name.to_string()) {
            Some(number) => value(number),
            None => {
                let mut sampler = self.study.sampler.borrow_mut();
                let single = range.single().map(|only| Ok(number(only)));
                match sampler.sample_independent(&range.distribution(), single)? {
                    Draw::Single(number) => value(number),
                    Draw::Uniform { low, high } => {
                        sampler.rng.gen_range(value(low)..value(high))
                    }
                    Draw::Integer(integer) => integer as f64,
                    _ => unreachable!(),
                }
            }
        };
        let mut store = self.study.store.borrow_mut();
        store.ranges[self.number as usize].insert(name.to_string(), range);
        let trial = store.trial_mut(self.number);
        trial.internal_params.insert(name.to_string(), number(drawn));
        Ok(drawn)
    }

    fn suggest_float(&mut self, name: &str, low: f64, high: f64) -> Result<f64, Failure> {
        self.suggest(name, Range::Float(low, high))
    }

    fn suggest_int(&mut self, name: &str, low: i64, high: i64) -> Result<i64, Failure> {
        Ok(self.suggest(name, Range::Int(low, high))? as i64)
    }

    fn set_constraints(&mut self, values: &[f64]) -> Result<(), Failure> {
        let values: Vec<Number> = values.iter().map(|v| number(*v)).collect();
        let violation = positive_constraints(&values).into_iter().map(value).sum();
        let mut store = self.study.store.borrow_mut();
        store.trial_mut(self.number).constraints = Ok(Constraints {
            values,
            violation: number(violation),
        });
        Ok(())
    }
}

#[test]
fn test_optimize() {
    let study = create_study(sampler(2, 1.0, 1.0));
    let n_trials = 10;
    study
        .optimize(
            |t| {
                let x = t.suggest_float("x", 0.0, 10.0)?;
                let y = t.suggest_float("y", 0.0, 10.0)?;
                let value0 = (x - 3.0).powi(2) + (y - 5.0).powi(2);
                let value1 = (x - 5.0).powi(2) + (y - 3.0).powi(2);
                Ok(vec![value0, value1])
            },
            n_trials,
        )
        .unwrap();
    assert!(study.n_trials() == n_trials);
}

#[test]
fn test_single_value_parameters() {
    let study = create_study(sampler(3, 0.9, 0.5));
    let result = study.optimize(
        |t| {
            let x = t.suggest_float("x", 0.0, 10.0)?;
            let y = t.suggest_float("y", 0.0, 10.0)?;
            let z = t.suggest_float("z", 5.0, 5.0)?;
            let w = t.suggest_int("w", 3, 3)?;
            let value0 = (x - 3.0).powi(2) + (y - 5.0).powi(2) + z + w as f64;
            let value1 = (x - 5.0).powi(2) + (y - 3.0).powi(2) + z - w as f64;
            println!(
                "{:2} x: {}, y: {}, z: {}, w: {}, v0: {}, v1: {}",
                t.number, x, y, z, w, value0, value1
            );
            Ok(vec![value0, value1])
        },
        30,
    );
    assert!(
        result.is_ok(),
        "Optimization should complete without panicking"
    );
    let store = study.store.borrow();
    for trial in store.trials.iter().flatten() {
        if let Some(z_val) = trial.internal_params.get(&"z".to_string()) {
            assert!(
                (value(z_val) - 5.0).abs() < 1e-10,
                "z should always be 5.0, got {}",
                value(z_val)
            );
        }
        if let Some(w_val) = trial.internal_params.get(&"w".to_string()) {
            assert!(
                (value(w_val) - 3.0).abs() < 1e-10,
                "w should always be 3.0, got {}",
                value(w_val)
            );
        }
    }
}

#[test]
fn test_constraints() {
    let study = create_study(sampler(2, 1.0, 1.0));
    let n_trials = 10;
    let result = study.optimize(
        |t| {
            let x = t.suggest_float("x", -15.0, 30.0)?;
            let y = t.suggest_float("y", -15.0, 30.0)?;
            let v0 = 4.0 * x.powi(2) + 4.0 * y.powi(2);
            let v1 = (x - 5.0).powi(2) + (y - 5.0).powi(2);
            t.set_constraints(&[1000.0 - v0])?;
            Ok(vec![v0, v1])
        },
        n_trials,
    );
    assert!(
        result.is_ok(),
        "Optimization with constraints should complete without panicking"
    );
}

#[test]
fn test_uncompleted_trial() -> Result<(), Failure> {
    let study = create_study(sampler(2, 1.0, 1.0));
    let n_trials = 50;
    for _ in 0..n_trials {
        let mut trial = study.ask()?;
        let x = trial.suggest_int("x", 1, 2)?;
        let y = trial.suggest_int("y", 1, 2)?;
        let v0 = (x as f64 - 1.5).powi(2);
        let v1 = (y as f64 - 1.5).powi(2);
        if x == 1 {
            study.tell(trial.number, complete(&[v0, v1]))?;
        } else {
            study.tell(trial.number, TrialStateValues::Fail)?;
        }
    }
    assert!(study.n_trials() == n_trials);
    Ok(())
}

#[test]
fn test_reproducibility_with_seeded_rng() {
    let run = || {
        let study = create_study(NSGAIISampler::seed_from_u64(
            42,
            10,
            None,
            Bernoulli::new(0.9),
            Bernoulli::new(0.5),
        ));
        study
            .optimize(
                |t| {
                    let mut value0 = 0.0;
                    let mut value1 = 0.0;
                    for i in 0..10 {
                        let name = format!("x{i}");
                        let xi = t.suggest_float(&name, -10.0, 10.0)?;
                        value0 += (xi - 5.0).powi(2);
                        value1 += (xi + 5.0).powi(2);
                    }
                    Ok(vec![value0, value1])
                },
                50,
            )
            .unwrap();
        study.params()
    };

    let trials_a = run();
    let trials_b = run();

    assert_eq!(
        trials_a.len(),
        trials_b.len(),
        "both runs should produce the same number of trials"
    );
    for (number, (ta, tb)) in trials_a.iter().zip(trials_b.iter()).enumerate() {
        assert_eq!(
            ta, tb,
            "trial {number} params differ between runs -- non-deterministic key ordering"
        );
    }
}

#[test]
fn test_parent_population_cache_persists() {
    let study = create_study(sampler(2, 1.0, 1.0));
    study
        .optimize(
            |trial| {
                let x = trial.suggest_float("x", 0.0, 10.0)?;
                Ok(vec![x, -x])
            },
            24,
        )
        .unwrap();
    let has_cache = !study.cached_parents().is_empty();
    assert!(has_cache, "parent population cache should be persisted");
}

#[test]
fn test_parent_population_cache_restored_after_restart() {
    let study = create_study(sampler(2, 1.0, 1.0));
    study
        .optimize(
            |trial| {
                let x = trial.suggest_float("x", 0.0, 10.0)?;
                Ok(vec![x, -x])
            },
            20,
        )
        .unwrap();

    let cached_ids = study.cached_parents();
    assert!(!cached_ids.is_empty(), "cache should exist before restart");

    let resumed = study.with_sampler(sampler(2, 1.0, 1.0));
    resumed
        .optimize(
            |trial| {
                let x = trial.suggest_float("x", 0.0, 10.0)?;
                Ok(vec![x, -x])
            },
            10,
        )
        .unwrap();

    let total = resumed.n_trials();
    assert_eq!(total, 30, "should have 30 trials after restart");
}

#[test]
fn test_invalid_parent_population_cache_is_recomputed() {
    let study = create_study(sampler(2, 1.0, 1.0));
    study
        .optimize(
            |trial| {
                let x = trial.suggest_float("x", 0.0, 10.0)?;
                Ok(vec![x, -x])
            },
            3,
        )
        .unwrap();

    study
        .store
        .borrow_mut()
        .attrs
        .insert(parent_cache_key(1), "[]".to_string());

    let resumed = study.with_sampler(sampler(2, 1.0, 1.0));
    resumed.ask().unwrap();

    let encoded = resumed.study_attr(parent_cache_key(1)).unwrap();
    let parent_ids: Vec<u32> = serde_json::from_str(&encoded).unwrap();
    assert_eq!(parent_ids.len(), 2);
}

#[test]
fn test_parent_population_cache_is_recomputed_when_population_size_changes() {
    let study = create_study(sampler(2, 1.0, 1.0));
    study
        .optimize(
            |trial| {
                let x = trial.suggest_float("x", 0.0, 10.0)?;
                Ok(vec![x, -x])
            },
            3,
        )
        .unwrap();

    let resumed = study.with_sampler(sampler(3, 1.0, 1.0));
    let generation_zero_trial = resumed.ask().unwrap();
    resumed
        .tell(generation_zero_trial.number, complete(&[5.0, -5.0]))
        .unwrap();
    resumed.ask().unwrap();

    let encoded = resumed.study_attr(parent_cache_key(1)).unwrap();
    let parent_ids: Vec<u32> = serde_json::from_str(&encoded).unwrap();
    assert_eq!(parent_ids.len(), 3);
}

#[test]
fn test_parent_population_cache_is_not_rewritten_by_late_completed_trials() {
    let study = create_study(sampler(2, 1.0, 1.0));
    let worker = study.with_sampler(sampler(2, 1.0, 1.0));

    let trial0 = study.ask().unwrap();
    let trial1 = worker.ask().unwrap();
    let late_trial = worker.ask().unwrap();

    study.tell(trial0.number, complete(&[0.0, 1.0])).unwrap();
    worker.tell(trial1.number, complete(&[1.0, 0.0])).unwrap();

    let first_child = study.ask().unwrap();
    assert_eq!(first_child.id, FIRST_TRIAL_ID + 3);
    let cached_parent_ids = {
        let store = study.store.borrow();
        let child = store.trials[first_child.number as usize].as_ref().unwrap();
        assert_eq!(
            child.attrs.get(&AttrKey::System("generation".into())),
            Some(&"1".to_string())
        );
        store.attrs.get(&parent_cache_key(1)).cloned().unwrap()
    };

    worker
        .tell(late_trial.number, complete(&[0.5, 0.5]))
        .unwrap();

    let resumed = study.with_sampler(sampler(2, 1.0, 1.0));
    resumed.ask().unwrap();

    assert_eq!(
        study.study_attr(parent_cache_key(1)).unwrap(),
        cached_parent_ids
    );
}

#[test]
fn a_seed_fixes_the_draws() {
    let run = |seed: u64| {
        let study = create_study(NSGAIISampler::seed_from_u64(
            seed,
            4,
            None,
            Bernoulli::new(0.9),
            Bernoulli::new(0.5),
        ));
        study
            .optimize(
                |t| {
                    let x = t.suggest_float("x", -1.0, 1.0)?;
                    let n = t.suggest_int("n", 0, 100)?;
                    Ok(vec![x * n as f64, x - n as f64])
                },
                20,
            )
            .unwrap();
        study.params()
    };
    assert_eq!(run(1), run(1));
    assert_ne!(run(1), run(2));
}

#[test]
fn generations_follow_each_other_in_steps_of_the_population_size() {
    let study = create_study(sampler(3, 0.9, 0.5));
    study
        .optimize(
            |t| {
                let x = t.suggest_float("x", 0.0, 1.0)?;
                Ok(vec![x, 1.0 - x])
            },
            12,
        )
        .unwrap();
    let store = study.store.borrow();
    for trial in store.trials.iter().flatten() {
        let text = trial.attrs.get(&AttrKey::System("generation".into()));
        assert_eq!(text, Some(&(trial.number / 3).to_string()));
    }
    assert_eq!(store.attrs.entries().len(), 3);
}

#[test]
fn a_population_of_one_has_no_two_parents() {
    let study = create_study(sampler(1, 0.9, 0.5));
    let first = study.ask().unwrap();
    study.tell(first.number, complete(&[0.0, 0.0])).unwrap();
    let error = study.ask().err().unwrap();
    assert_eq!(error.kind, ErrorKind::SamplerError);
    assert_eq!(
        error.reason,
        Some("NSGA-II requires at least two parent trials".to_string())
    );
}

#[test]
fn a_study_keeps_different_complete_trials_of_its_own_as_parents() {
    let study = create_study(sampler(3, 0.9, 0.5));
    for k in 0..20 {
        let mut trial = study.ask().unwrap();
        let x = trial.suggest_float("x", 0.0, 1.0).unwrap();
        let state = if k % 4 == 3 {
            TrialStateValues::Pruned
        } else {
            complete(&[x, 1.0 - x])
        };
        study.tell(trial.number, state).unwrap();
        let store = study.store.borrow();
        let asked = store.trials[trial.number as usize].as_ref().unwrap();
        let text = asked.attrs.get(&AttrKey::System("generation".into())).unwrap();
        let generation: u32 = text.parse().unwrap();
        if generation == 0 {
            assert!(store.attrs.is_empty());
            continue;
        }
        let encoded = store.attrs.get(&parent_cache_key(generation)).unwrap();
        let mut ids: Vec<u32> = serde_json::from_str(encoded).unwrap();
        ids.sort();
        ids.dedup();
        assert_eq!(ids.len(), 3);
        for id in ids {
            let parent = store.trials.iter().flatten().find(|trial| trial.id == id);
            let parent = parent.unwrap();
            assert_eq!(parent.study_id, STUDY_ID);
            assert!(matches!(parent.state_values, TrialStateValues::Complete(_)));
        }
        assert_eq!(store.attrs.entries().len(), generation as usize);
    }
}
