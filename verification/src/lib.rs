//! The core of an NSGA-II sampler for multi-objective optimization, verified.
//!
//! [`sampler`] holds the sampler itself. A child is drawn in two stages: a plan says which
//! generation the child belongs to and who its parents may be, and then two parents are chosen,
//! crossed over and mutated. The other modules hold what this takes:
//!
//! - [`dominance`], [`fronts`], [`population`], [`crowding`] and [`elite`]: which trials of a
//!   population survive;
//! - [`generation`] and [`parents`]: which generation trials belong to, and what a study keeps of
//!   the parents of each generation;
//! - [`offspring`], [`names`], [`random`] and [`independent`]: how parameters are drawn;
//! - [`trial`], [`attr`], [`params`], [`number`], [`error`], [`text`], [`json`] and [`order`]: the
//!   data, and how it is written, read and sorted.
//!
//! What holds of several of these together is stated in [`indexing`], [`ancestry`],
//! [`reproducibility`] and [`runs`].

pub mod ancestry;
pub mod attr;
pub mod crowding;
pub mod dominance;
pub mod elite;
pub mod error;
pub mod fronts;
pub mod generation;
pub mod independent;
pub mod indexing;
pub mod json;
pub mod names;
pub mod number;
pub mod offspring;
pub mod order;
pub mod params;
pub mod parents;
pub mod population;
pub mod random;
pub mod reproducibility;
pub mod runs;
pub mod sampler;
pub mod text;
pub mod trial;
