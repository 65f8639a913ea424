//! An incremental attribute/formula evaluation engine.
//!
//! Every scalar quantity of a simulation is addressed by a [`Subject`]: an
//! entity identity paired with an attribute kind. A subject is backed either
//! by a stored base factor (a constant, or a value that decays toward a
//! target on each tick) or by a formula that derives its value from other
//! subjects. Formulas are cached; a change to a base factor propagates
//! through the dependency graph, eagerly recomputing formulas that feed
//! further formulas and lazily marking leaf formulas dirty.
//!
//! Values are 64-bit signed integers — fixed-point at whatever scale the
//! caller chooses — and all arithmetic saturates at the `i64` range.
//! Change detection during propagation compares values exactly, which is
//! sound for integers: there is no rounding noise to flap on.

mod subject;
mod num;
mod factor;
mod formula;
mod store;
mod engine;

pub use subject::{FactorSubject, Subject};
pub use num::{sat64, sat_add, sum_of, tdiv, clamp3, lemma_sat_add_additive};
pub use factor::{DECAY_DEN, Factor, FactorDecay, KindPolicy, decay_iter, decay_step, decay_value,
    decayed_factor, lemma_decay_step_toward_target, lemma_decay_sequence_monotone};
pub use formula::{Formula, FormulaFn, FormulaId, FormulaValue, eval_fn};
pub use store::SubjectMap;
pub use engine::{FactorError, FormulaSystem, RegisterError};
