//! Formula definitions: identifiers, function shapes, and evaluation.

use vstd::prelude::*;
use crate::subject::Subject;
use crate::num::{sat64, sum_of, tdiv, clamp3};

verus! {

/// Identifier of a registered formula: a dense, append-only index into
/// the formula list.
#[derive(Debug, Clone, Copy, PartialEq, Eq, Hash, Structural)]
pub struct FormulaId(pub usize);

/// The pure numeric function of a formula, as a tagged shape over the
/// ordered input values (rather than an opaque closure, so formulas stay
/// inspectable). Every shape is total over the `i64` range: arithmetic
/// saturates.
#[derive(Clone, Copy, Debug, PartialEq, Eq, Structural)]
pub enum FormulaFn {
    /// The sum of all input values.
    Sum,
    /// The first input value scaled by `num / den` (truncating toward
    /// zero). `den` must be positive.
    Ratio { num: i64, den: i64 },
    /// The first input value clamped into `[lo, hi]`. Requires `lo <= hi`.
    Clamp { lo: i64, hi: i64 },
}

impl FormulaFn {
    /// Shape parameters that make the function meaningful; registration
    /// rejects the rest.
    pub open spec fn wf(self) -> bool {
        match self {
            FormulaFn::Sum => true,
            FormulaFn::Ratio { num, den } => den >= 1,
            FormulaFn::Clamp { lo, hi } => lo <= hi,
        }
    }

    /// Fewest inputs the shape needs.
    pub open spec fn min_inputs(self) -> int {
        match self {
            FormulaFn::Sum => 0,
            FormulaFn::Ratio { num, den } => 1,
            FormulaFn::Clamp { lo, hi } => 1,
        }
    }

    /// Executable check of [`FormulaFn::wf`].
    pub fn is_wf(&self) -> (r: bool)
        ensures
            r == self.wf(),
    {
        match *self {
            FormulaFn::Sum => true,
            FormulaFn::Ratio { num, den } => den >= 1,
            FormulaFn::Clamp { lo, hi } => lo <= hi,
        }
    }

    /// Apply the function to the gathered input values. Saturates at the
    /// `i64` range instead of overflowing.
    pub fn run(&self, args: &Vec<i64>) -> (r: i64)
        requires
            self.wf(),
            self.min_inputs() <= args@.len(),
        ensures
            r as int == eval_fn(*self, args@.map_values(|x: i64| x as int)),
    {
        let ghost iargs: Seq<int> = args@.map_values(|x: i64| x as int);
        match *self {
            FormulaFn::Sum => {
                let mut acc: i128 = 0;
                let mut k: usize = 0;
                proof {
                    assert(iargs.take(0) =~= Seq::<int>::empty());
                }
                while k < args.len()
                    invariant
                        k <= args@.len(),
                        iargs.len() == args@.len(),
                        forall|j: int| 0 <= j < args@.len() ==> iargs[j] == args@[j] as int,
                        acc == sum_of(iargs.take(k as int)),
                        -(k as int) * (i64::MAX as int + 1) <= acc <= (k as int) * (i64::MAX as int),
                    decreases args@.len() - k,
                {
                    proof {
                        assert(iargs.take(k as int + 1).drop_last() =~= iargs.take(k as int));
                        assert(-((k as int) + 1) * (i64::MAX as int + 1)
                            <= acc + args@[k as int]
                            <= ((k as int) + 1) * (i64::MAX as int)) by (nonlinear_arith)
                            requires
                                -(k as int) * (i64::MAX as int + 1) <= acc <= (k as int) * (
                                i64::MAX as int),
                                i64::MIN as int <= args@[k as int] <= i64::MAX as int,
                                i64::MIN as int == -(i64::MAX as int + 1),
                        ;
                    }
                    acc = acc + args[k] as i128;
                    k = k + 1;
                }
                proof {
                    assert(iargs.take(args@.len() as int) =~= iargs);
                }
                if acc > i64::MAX as i128 {
                    i64::MAX
                } else if acc < i64::MIN as i128 {
                    i64::MIN
                } else {
                    acc as i64
                }
            },
            FormulaFn::Ratio { num, den } => {
                let v: i64 = args[0];
                let neg: bool = (v < 0) != (num < 0);
                let mag_v: u128 = if v >= 0 {
                    v as u128
                } else {
                    (-(v as i128)) as u128
                };
                let mag_n: u128 = if num >= 0 {
                    num as u128
                } else {
                    (-(num as i128)) as u128
                };
                proof {
                    assert(mag_v * mag_n <= (u64::MAX as u128) * (u64::MAX as u128))
                        by (nonlinear_arith)
                        requires
                            mag_v <= u64::MAX as u128,
                            mag_n <= u64::MAX as u128,
                    ;
                }
                let mag_q: u128 = (mag_v * mag_n) / (den as u128);
                proof {
                    lemma_tdiv_by_magnitudes(v as int, num as int, den as int, mag_v as int,
                        mag_n as int, neg);
                }
                if neg {
                    if mag_q >= (i64::MAX as u128) + 1 {
                        i64::MIN
                    } else {
                        (-(mag_q as i128)) as i64
                    }
                } else {
                    if mag_q > i64::MAX as u128 {
                        i64::MAX
                    } else {
                        mag_q as i64
                    }
                }
            },
            FormulaFn::Clamp { lo, hi } => {
                let v: i64 = args[0];
                if v < lo {
                    lo
                } else if v > hi {
                    hi
                } else {
                    v
                }
            },
        }
    }
}

/// Truncating division of a product computed through magnitudes equals
/// [`tdiv`] of the signed product.
proof fn lemma_tdiv_by_magnitudes(v: int, num: int, den: int, mag_v: int, mag_n: int, neg: bool)
    requires
        den >= 1,
        mag_v == if v >= 0 { v } else { -v },
        mag_n == if num >= 0 { num } else { -num },
        neg == ((v < 0) != (num < 0)),
    ensures
        !neg ==> tdiv(v * num, den) == mag_v * mag_n / den,
        neg ==> tdiv(v * num, den) == -(mag_v * mag_n / den),
        mag_v * mag_n / den >= 0,
{
    assert(v * num == if neg { -(mag_v * mag_n) } else { mag_v * mag_n }) by (nonlinear_arith)
        requires
            mag_v == if v >= 0 { v } else { -v },
            mag_n == if num >= 0 { num } else { -num },
            neg == ((v < 0) != (num < 0)),
    ;
    assert(mag_v * mag_n >= 0) by (nonlinear_arith)
        requires mag_v >= 0 && mag_n >= 0,
    ;
    assert(mag_v * mag_n / den >= 0) by (nonlinear_arith)
        requires mag_v * mag_n >= 0 && den >= 1,
    ;
    if mag_v * mag_n == 0 {
        assert(mag_v * mag_n / den == 0) by (nonlinear_arith)
            requires mag_v * mag_n == 0 && den >= 1,
        ;
    }
}

/// Evaluate a formula function over mathematical input values. This is
/// the single definition every cache and propagation contract refers to.
pub open spec fn eval_fn(f: FormulaFn, args: Seq<int>) -> int {
    match f {
        FormulaFn::Sum => sat64(sum_of(args)),
        FormulaFn::Ratio { num, den } => {
            if args.len() >= 1 && den >= 1 {
                sat64(tdiv(args[0] * num, den as int))
            } else {
                0
            }
        },
        FormulaFn::Clamp { lo, hi } => {
            if args.len() >= 1 && lo <= hi {
                clamp3(args[0], lo as int, hi as int)
            } else {
                0
            }
        },
    }
}

/// One evaluation-cache entry: a formula's cached result and whether it
/// is stale. `dirty` means the next read must recompute before returning.
#[derive(Clone, Copy, Debug, PartialEq, Eq, Structural)]
pub struct FormulaValue {
    /// The most recently computed result.
    pub cached: i64,
    /// Whether the cached result may be stale.
    pub dirty: bool,
}

/// A formula definition: the ordered input subjects (order determines the
/// positional arguments; duplicates are allowed), the pure function over
/// their current values, and the output subject under which the result is
/// published. Immutable once registered.
#[derive(Debug)]
pub struct Formula {
    /// Subjects read as inputs, in argument order.
    pub inputs: Vec<Subject>,
    /// The pure function applied to the input values.
    pub inner_fn: FormulaFn,
    /// The subject that publishes the result.
    pub subject: Subject,
}

impl Formula {
    /// Bundle a formula definition.
    pub fn new(inputs: Vec<Subject>, inner_fn: FormulaFn, subject: Subject) -> (r: Formula)
        ensures
            r.inputs == inputs,
            r.inner_fn == inner_fn,
            r.subject == subject,
    {
        Formula { inputs, inner_fn, subject }
    }

    /// A formula is well formed when its function shape is and it has
    /// enough inputs for the shape.
    pub open spec fn wf(self) -> bool {
        self.inner_fn.wf() && self.inner_fn.min_inputs() <= self.inputs@.len()
    }

    /// Apply the formula's function to already-gathered input values.
    pub fn calc(&self, args: &Vec<i64>) -> (r: i64)
        requires
            self.inner_fn.wf(),
            self.inner_fn.min_inputs() <= args@.len(),
        ensures
            r as int == eval_fn(self.inner_fn, args@.map_values(|x: i64| x as int)),
    {
        self.inner_fn.run(args)
    }
}

} // verus!
