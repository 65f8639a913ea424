//! Stored base factors and their decay policies.

use vstd::prelude::*;
use crate::formula::FormulaId;
use crate::num::tdiv;

verus! {

/// Denominator of decay rates: an [`FactorDecay::Exponential`] rate `r`
/// stands for the fraction `r / DECAY_DEN` of the distance to the target
/// removed per tick.
pub const DECAY_DEN: i64 = 1_000_000;

/// How a stored factor moves toward its target on each decay tick.
#[derive(Clone, Copy, Debug, PartialEq, Eq, Structural)]
pub enum FactorDecay {
    /// Subtract a fixed amount per tick, clamped so the value never
    /// crosses the target. The rate must be non-negative.
    Linear(i64),
    /// Remove the fraction `rate / DECAY_DEN` of the distance to the
    /// target per tick. The rate must lie in `[0, DECAY_DEN]`.
    Exponential(i64),
    /// The value never moves.
    NoDecay,
}

impl FactorDecay {
    /// A decay policy is well formed when its rate is in range; the engine
    /// rejects malformed policies when factors are created.
    pub open spec fn wf(self) -> bool {
        match self {
            FactorDecay::Linear(rate) => 0 <= rate,
            FactorDecay::Exponential(rate) => 0 <= rate <= DECAY_DEN,
            FactorDecay::NoDecay => true,
        }
    }

    /// Executable check of [`FactorDecay::wf`].
    pub fn is_wf(&self) -> (r: bool)
        ensures
            r == self.wf(),
    {
        match *self {
            FactorDecay::Linear(rate) => 0 <= rate,
            FactorDecay::Exponential(rate) => 0 <= rate && rate <= DECAY_DEN,
            FactorDecay::NoDecay => true,
        }
    }
}

/// The node stored behind a subject key when the subject is not purely
/// derived. A subject maps to exactly one variant for its whole life;
/// the engine rejects every operation that would switch variants.
#[derive(Clone, Copy, Debug)]
pub enum Factor {
    /// A directly set value; never moved by decay ticks.
    Constant(i64),
    /// A value that moves toward `target` on each decay tick per `policy`.
    Decay { value: i64, target: i64, policy: FactorDecay },
    /// The subject's value is the output of the identified formula; reads
    /// are redirected to the evaluation cache.
    Formula(FormulaId),
}

impl Factor {
    /// Well-formedness of a stored factor: decay policies are in range.
    pub open spec fn wf(self) -> bool {
        match self {
            Factor::Decay { value, target, policy } => policy.wf(),
            _ => true,
        }
    }

    /// The stored scalar of a base factor; unused for formula-backed
    /// entries, whose value lives in the evaluation cache.
    pub open spec fn stored(self) -> int {
        match self {
            Factor::Constant(v) => v as int,
            Factor::Decay { value, target, policy } => value as int,
            Factor::Formula(id) => 0,
        }
    }
}

/// Per-attribute-kind policy, supplied by the surrounding simulation:
/// the declared default a never-written subject reads as, and the decay
/// policy a base factor created implicitly by `add_factor` receives
/// (with target 0).
#[derive(Clone, Copy, Debug, PartialEq, Eq, Structural)]
pub struct KindPolicy {
    /// Value returned by reads of subjects of this kind that were never
    /// written.
    pub default_value: i64,
    /// Decay policy given to implicitly created factors of this kind.
    pub decay: FactorDecay,
}

/// One decay tick applied to a stored value: where the value moves, as a
/// mathematical function of the old value, the target and the policy.
/// Malformed rates leave the value unchanged (the engine never stores
/// them).
pub open spec fn decay_step(value: int, target: int, policy: FactorDecay) -> int {
    match policy {
        FactorDecay::NoDecay => value,
        FactorDecay::Linear(rate) => {
            if rate < 0 {
                value
            } else if value > target {
                if value - rate < target {
                    target
                } else {
                    value - rate
                }
            } else {
                if value + rate > target {
                    target
                } else {
                    value + rate
                }
            }
        },
        FactorDecay::Exponential(rate) => {
            if rate < 0 || rate > DECAY_DEN {
                value
            } else if value >= target {
                value - tdiv((value - target) * rate, DECAY_DEN as int)
            } else {
                value + tdiv((target - value) * rate, DECAY_DEN as int)
            }
        },
    }
}

/// One decay tick applied to a whole stored factor: decaying factors
/// step toward their target, constants and formula backings are
/// untouched.
pub open spec fn decayed_factor(f: Factor) -> Factor {
    match f {
        Factor::Decay { value, target, policy } => Factor::Decay {
            value: decay_step(value as int, target as int, policy) as i64,
            target,
            policy,
        },
        _ => f,
    }
}

/// The distance removed by one exponential tick never exceeds the
/// distance to the target.
proof fn lemma_exp_fraction_bounded(d: int, rate: int)
    requires
        0 <= d,
        0 <= rate <= DECAY_DEN,
    ensures
        0 <= d * rate / (DECAY_DEN as int) <= d,
{
    assert(0 <= d * rate) by (nonlinear_arith)
        requires 0 <= d && 0 <= rate,
    ;
    assert(d * rate <= d * DECAY_DEN) by (nonlinear_arith)
        requires 0 <= d && rate <= DECAY_DEN,
    ;
    assert(d * rate / (DECAY_DEN as int) >= 0) by (nonlinear_arith)
        requires 0 <= d * rate,
    ;
    assert(d * DECAY_DEN / (DECAY_DEN as int) == d) by (nonlinear_arith);
    assert(d * rate / (DECAY_DEN as int) <= d * DECAY_DEN / (DECAY_DEN as int)) by (nonlinear_arith)
        requires d * rate <= d * DECAY_DEN,
    ;
}

/// Decay never overshoots: one tick leaves the value between the old
/// value and the target, on whichever side the value started. Repeated
/// ticks therefore form a monotonic sequence toward the target that never
/// crosses it.
pub proof fn lemma_decay_step_toward_target(value: int, target: int, policy: FactorDecay)
    requires
        policy.wf(),
    ensures
        value >= target ==> target <= decay_step(value, target, policy) <= value,
        value <= target ==> value <= decay_step(value, target, policy) <= target,
{
    match policy {
        FactorDecay::NoDecay => {
        },
        FactorDecay::Linear(rate) => {
        },
        FactorDecay::Exponential(rate) => {
            if value >= target {
                lemma_exp_fraction_bounded(value - target, rate as int);
            } else {
                lemma_exp_fraction_bounded(target - value, rate as int);
            }
        },
    }
}

/// The value after `n` decay ticks.
pub open spec fn decay_iter(value: int, target: int, policy: FactorDecay, n: nat) -> int
    decreases n,
{
    if n == 0 {
        value
    } else {
        decay_step(decay_iter(value, target, policy, (n - 1) as nat), target, policy)
    }
}

/// Monotonicity of repeated decay: the sequence of values under
/// successive ticks moves monotonically toward the target, never
/// crossing it, from whichever side it started.
pub proof fn lemma_decay_sequence_monotone(value: int, target: int, policy: FactorDecay, n: nat)
    requires
        policy.wf(),
    ensures
        value >= target ==> target <= decay_iter(value, target, policy, n + 1) <= decay_iter(
            value,
            target,
            policy,
            n,
        ) <= value,
        value <= target ==> value <= decay_iter(value, target, policy, n) <= decay_iter(
            value,
            target,
            policy,
            n + 1,
        ) <= target,
    decreases n,
{
    assert(((n + 1) - 1) as nat == n);
    assert(decay_iter(value, target, policy, n + 1) == decay_step(
        decay_iter(value, target, policy, n),
        target,
        policy,
    ));
    if n == 0 {
        lemma_decay_step_toward_target(value, target, policy);
    } else {
        lemma_decay_sequence_monotone(value, target, policy, (n - 1) as nat);
        lemma_decay_step_toward_target(decay_iter(value, target, policy, n), target, policy);
    }
}

/// Executable decay tick on an `i64` value; exactly [`decay_step`].
pub fn decay_value(value: i64, target: i64, policy: FactorDecay) -> (r: i64)
    requires
        policy.wf(),
    ensures
        r as int == decay_step(value as int, target as int, policy),
{
    proof {
        lemma_decay_step_toward_target(value as int, target as int, policy);
    }
    match policy {
        FactorDecay::NoDecay => value,
        FactorDecay::Linear(rate) => {
            let wide: i128 = value as i128;
            let t: i128 = target as i128;
            let r: i128 = rate as i128;
            if wide > t {
                let moved: i128 = wide - r;
                if moved < t {
                    target
                } else {
                    moved as i64
                }
            } else if wide < t {
                let moved: i128 = wide + r;
                if moved > t {
                    target
                } else {
                    moved as i64
                }
            } else {
                value
            }
        },
        FactorDecay::Exponential(rate) => {
            if value >= target {
                let d: u128 = (value as i128 - target as i128) as u128;
                let removed: u128 = d * rate as u128 / DECAY_DEN as u128;
                proof {
                    lemma_exp_fraction_bounded(value - target, rate as int);
                    assert((d as int) * (rate as int) / (DECAY_DEN as int) == (value - target)
                        * rate / (DECAY_DEN as int));
                }
                (value as i128 - removed as i128) as i64
            } else {
                let d: u128 = (target as i128 - value as i128) as u128;
                let removed: u128 = d * rate as u128 / DECAY_DEN as u128;
                proof {
                    lemma_exp_fraction_bounded(target - value, rate as int);
                    assert((d as int) * (rate as int) / (DECAY_DEN as int) == (target - value)
                        * rate / (DECAY_DEN as int));
                }
                (value as i128 + removed as i128) as i64
            }
        },
    }
}

} // verus!
