//! The propagation engine: factor store, formula registry, dependency
//! index and evaluation cache behind one consistent interface.
//!
//! The central model is [`FormulaSystem::subject_value`]: the value every
//! subject denotes right now, defined recursively through the formula
//! graph from stored base values, per-kind defaults and formula
//! functions. Every read returns it and every mutation's contract is
//! stated against it; the evaluation cache is invisible in the model and
//! constrained by the well-formedness invariant to agree with it.

use vstd::prelude::*;
use crate::factor::{decay_value, decayed_factor, Factor, FactorDecay, KindPolicy};
use crate::formula::{eval_fn, Formula, FormulaFn, FormulaId, FormulaValue};
use crate::num::{sat_add, saturating_add_i64};
use crate::store::SubjectMap;
use crate::subject::Subject;

verus! {

/// Does `t` occur among the first `w` elements of `inputs`?
spec fn seen_in(inputs: Seq<Subject>, w: int, t: Subject) -> bool {
    exists|j: int| 0 <= j < w && inputs[j] == t
}

/// The ids still waiting in a dependent list from position `from` on.
spec fn pending_set(deps: Seq<FormulaId>, from: int) -> Set<int> {
    Set::new(|i: int| exists|m: int| from <= m < deps.len() && (#[trigger] deps[m]).0 == i)
}

/// Why a factor operation was refused.
#[derive(Clone, Copy, Debug, PartialEq, Eq, Structural)]
pub enum FactorError {
    /// The subject is backed by a formula; its value cannot be stored,
    /// added to or cleared directly.
    FormulaBacked,
    /// The subject already holds a factor; variants never switch.
    AlreadyPresent,
    /// A decay rate is out of range.
    InvalidDecay,
}

/// Why a formula registration was refused.
#[derive(Clone, Copy, Debug, PartialEq, Eq, Structural)]
pub enum RegisterError {
    /// The function shape's parameters are malformed (a non-positive
    /// ratio denominator, an empty clamp interval).
    InvalidFunction,
    /// The function shape needs more inputs than the formula lists.
    MissingInputs,
    /// The output subject already holds a factor.
    OutputDefined,
    /// The output subject is already read by a registered formula;
    /// publishing under it now could close a dependency cycle.
    OutputInUse,
    /// The formula lists its own output among its inputs.
    SelfInput,
}

/// The incremental attribute/formula evaluation engine. One instance
/// holds the whole dependency graph: every stored base factor, every
/// registered formula, the reverse dependency index and the per-formula
/// evaluation cache.
pub struct FormulaSystem {
    /// Per-attribute-kind defaults and decay policies, indexed by kind.
    table: Vec<KindPolicy>,
    /// Base (and formula-backing) factor per subject.
    factors: SubjectMap<Factor>,
    /// Registered formulas, dense by [`FormulaId`]; append-only.
    formulae: Vec<Formula>,
    /// Reverse adjacency: subject to the formulas reading it as input.
    input_map: SubjectMap<Vec<FormulaId>>,
    /// Cached result and dirty flag per formula, dense by [`FormulaId`].
    formula_values: Vec<FormulaValue>,
}

impl FormulaSystem {
    // ------------------------------------------------------------------
    // The mathematical model.

    /// The registered formulas, dense by id.
    pub closed spec fn formulas(self) -> Seq<Formula> {
        self.formulae@
    }

    /// Number of registered formulas.
    pub open spec fn n(self) -> int {
        self.formulas().len() as int
    }

    /// The stored factor per subject.
    pub closed spec fn factor_map(self) -> Map<Subject, Factor> {
        self.factors@
    }

    /// The per-kind policy table.
    pub closed spec fn policy_table(self) -> Seq<KindPolicy> {
        self.table@
    }

    /// Policy for an attribute kind: the table entry, or the neutral
    /// policy (default 0, no decay) for kinds beyond the table.
    pub open spec fn kind_policy(self, kind: u32) -> KindPolicy {
        if (kind as int) < self.policy_table().len() {
            self.policy_table()[kind as int]
        } else {
            KindPolicy { default_value: 0, decay: FactorDecay::NoDecay }
        }
    }

    /// The declared default a never-written subject reads as.
    pub open spec fn default_of(self, s: Subject) -> int {
        self.kind_policy(s.kind).default_value as int
    }

    /// Does formula `i` read `s` as one of its inputs?
    pub open spec fn formula_reads(self, i: int, s: Subject) -> bool {
        0 <= i < self.n() && self.formulas()[i].inputs@.contains(s)
    }

    /// Is any formula reading `s`?
    pub open spec fn has_reader(self, s: Subject) -> bool {
        exists|i: int| self.formula_reads(i, s)
    }

    /// A leaf formula: nothing reads its output.
    pub open spec fn is_leaf(self, i: int) -> bool {
        0 <= i < self.n() && !self.has_reader(self.formulas()[i].subject)
    }

    /// Is the subject missing or stored as a base (non-derived) factor?
    pub open spec fn is_base_subject(self, s: Subject) -> bool {
        !self.factor_map().dom().contains(s) || !(self.factor_map()[s] is Formula)
    }

    /// Rank used to order the graph: formula-backed subjects rank one
    /// above their formula, base subjects rank zero. Well-formedness
    /// makes every formula's inputs rank at or below the formula's id,
    /// so the graph is acyclic by construction.
    pub open spec fn rank(self, s: Subject) -> int {
        if self.factor_map().dom().contains(s) {
            match self.factor_map()[s] {
                Factor::Formula(id) => id.0 as int + 1,
                _ => 0,
            }
        } else {
            0
        }
    }

    /// The value of `s`, resolving formula backings only for formula ids
    /// below `bound`. [`FormulaSystem::subject_value`] instantiates
    /// `bound` with the number of formulas; the bound exists to make the
    /// recursion through the acyclic graph visibly terminating.
    pub closed spec fn value_upto(self, s: Subject, bound: nat) -> int
        decreases bound, 0int, 0int,
    {
        if self.factor_map().dom().contains(s) {
            match self.factor_map()[s] {
                Factor::Constant(v) => v as int,
                Factor::Decay { value, target, policy } => value as int,
                Factor::Formula(id) => {
                    if id.0 < bound && (id.0 as int) < self.n() {
                        self.formula_value_at(id.0 as int)
                    } else {
                        0
                    }
                },
            }
        } else {
            self.default_of(s)
        }
    }

    /// The value formula `i` denotes: its function over its inputs'
    /// values, each resolved through formulas with smaller ids only
    /// (well-formedness guarantees there are no others).
    pub closed spec fn formula_value_at(self, i: int) -> int
        decreases i, 1int, 0int,
    {
        if 0 <= i < self.n() {
            eval_fn(
                self.formulas()[i].inner_fn,
                self.args_upto(self.formulas()[i].inputs@, i as nat),
            )
        } else {
            0
        }
    }

    /// The values of a list of input subjects, resolved below `bound`.
    pub closed spec fn args_upto(self, inputs: Seq<Subject>, bound: nat) -> Seq<int>
        decreases bound, 0int, inputs.len(),
    {
        if inputs.len() == 0 {
            Seq::empty()
        } else {
            self.args_upto(inputs.drop_last(), bound).push(self.value_upto(inputs.last(), bound))
        }
    }

    /// The current value of a subject: the stored base value, the
    /// formula's result over its inputs' current values for
    /// formula-backed subjects, or the kind's declared default for
    /// never-written subjects. This is the reference every read and
    /// mutation contract speaks of.
    pub closed spec fn subject_value(self, s: Subject) -> int {
        self.value_upto(s, self.n() as nat)
    }

    /// The current values of formula `i`'s inputs, in argument order.
    pub open spec fn input_values(self, i: int) -> Seq<int> {
        self.formulas()[i].inputs@.map_values(|s: Subject| self.subject_value(s))
    }

    // ------------------------------------------------------------------
    // The cache, as specification-level observations.

    /// Is formula `i`'s cache entry dirty?
    pub closed spec fn is_dirty(self, i: int) -> bool {
        self.formula_values@[i].dirty
    }

    /// Formula `i`'s cached result.
    pub closed spec fn cached_of(self, i: int) -> int {
        self.formula_values@[i].cached as int
    }

    /// What a plain (cache-trusting) read of `s` observes: the stored
    /// base value, the cached result for formula-backed subjects, or the
    /// default. The invariant ties this to [`FormulaSystem::subject_value`].
    pub closed spec fn obs(self, s: Subject) -> int {
        if self.factor_map().dom().contains(s) {
            match self.factor_map()[s] {
                Factor::Constant(v) => v as int,
                Factor::Decay { value, target, policy } => value as int,
                Factor::Formula(id) => {
                    if (id.0 as int) < self.formula_values@.len() {
                        self.formula_values@[id.0 as int].cached as int
                    } else {
                        0
                    }
                },
            }
        } else {
            self.default_of(s)
        }
    }

    /// Cache-trusting observations of a list of input subjects.
    pub closed spec fn obs_args(self, inputs: Seq<Subject>) -> Seq<int> {
        inputs.map_values(|s: Subject| self.obs(s))
    }

    // ------------------------------------------------------------------
    // Well-formedness.

    /// Structural invariant: unique map keys, well-formed policies and
    /// formulas, the factor map and formula list agreeing on formula
    /// backings, inputs ranking below their formula (acyclicity), the
    /// dependency index exactly mirroring the formulas' input lists, and
    /// one cache entry per formula.
    pub closed spec fn wf_structure(self) -> bool {
        &&& self.factors.wf()
        &&& self.input_map.wf()
        &&& forall|k: int| 0 <= k < self.table@.len() ==> (#[trigger] self.table@[k]).decay.wf()
        &&& forall|s: Subject|
            #[trigger] self.factors@.dom().contains(s) ==> self.factors@[s].wf()
        &&& forall|s: Subject|
            #[trigger] self.factors@.dom().contains(s)
                ==> (self.factors@[s] matches Factor::Formula(id) ==> (id.0 as int) < self.n()
                && self.formulae@[id.0 as int].subject == s)
        &&& forall|i: int|
            0 <= i < self.n() ==> {
                &&& (#[trigger] self.formulae@[i]).wf()
                &&& self.factors@.dom().contains(self.formulae@[i].subject)
                &&& (self.factors@[self.formulae@[i].subject] matches Factor::Formula(id)
                    && id.0 as int == i)
            }
        &&& forall|i: int, k: int|
            0 <= i < self.n() && 0 <= k < self.formulae@[i].inputs@.len() ==> self.rank(
                #[trigger] self.formulae@[i].inputs@[k],
            ) <= i
        &&& forall|s: Subject|
            (#[trigger] self.input_map@.dom().contains(s)) <==> (#[trigger] self.has_reader(s))
        &&& forall|s: Subject, k: int|
            self.input_map@.dom().contains(s) && 0 <= k < self.input_map@[s]@.len()
                ==> self.formula_reads((#[trigger] self.input_map@[s]@[k]).0 as int, s)
        &&& forall|s: Subject, i: int|
            #[trigger] self.formula_reads(i, s) ==> self.input_map@.dom().contains(s)
                && exists|k: int|
                0 <= k < self.input_map@[s]@.len() && (#[trigger] self.input_map@[s]@[k]).0 == i
        &&& forall|s: Subject, k1: int, k2: int|
            self.input_map@.dom().contains(s) && 0 <= k1 < k2 < self.input_map@[s]@.len() ==> (
            #[trigger] self.input_map@[s]@[k1]).0 < (#[trigger] self.input_map@[s]@[k2]).0
        &&& self.formula_values@.len() == self.n()
    }

    /// Only leaf formulas are ever dirty: a formula with downstream
    /// readers is recomputed eagerly during propagation, so its cache is
    /// always clean.
    pub closed spec fn leaf_dirty_ok(self) -> bool {
        forall|i: int| 0 <= i < self.n() && #[trigger] self.is_dirty(i) ==> self.is_leaf(i)
    }

    /// Every clean cache entry outside `ex` holds its formula's function
    /// applied to the cache-trusting observations of its inputs.
    /// Propagation uses `ex` to name the formulas it has not repaired
    /// yet; everywhere else `ex` is empty.
    pub closed spec fn caches_ok_except(self, ex: Set<int>) -> bool {
        forall|i: int|
            0 <= i < self.n() && !(#[trigger] self.is_dirty(i)) && !ex.contains(i)
                ==> self.cached_of(i) == eval_fn(
                self.formulas()[i].inner_fn,
                self.obs_args(self.formulas()[i].inputs@),
            )
    }

    /// The formulas directly reading `s`, as a set of ids.
    pub closed spec fn readers_of(self, s: Subject) -> Set<int> {
        Set::new(|i: int| self.formula_reads(i, s))
    }

    /// The full invariant: structure, leaf-only dirtiness, and clean
    /// caches agreeing with their formulas.
    pub closed spec fn wf(self) -> bool {
        &&& self.wf_structure()
        &&& self.leaf_dirty_ok()
        &&& self.caches_ok_except(Set::empty())
    }

    // ------------------------------------------------------------------
    // Lemmas about the model.

    /// `args_upto` resolves each input pointwise.
    proof fn lemma_args_upto_index(self, inputs: Seq<Subject>, bound: nat)
        ensures
            self.args_upto(inputs, bound).len() == inputs.len(),
            forall|k: int|
                0 <= k < inputs.len() ==> self.args_upto(inputs, bound)[k] == self.value_upto(
                    #[trigger] inputs[k],
                    bound,
                ),
        decreases inputs.len(),
    {
        if inputs.len() > 0 {
            self.lemma_args_upto_index(inputs.drop_last(), bound);
            assert forall|k: int| 0 <= k < inputs.len() implies self.args_upto(inputs, bound)[k]
                == self.value_upto(inputs[k], bound) by {
                if k < inputs.len() - 1 {
                    assert(inputs.drop_last()[k] == inputs[k]);
                }
            }
        }
    }

    /// The bound in `value_upto` is slack: any bound above the subject's
    /// rank resolves the same value.
    proof fn lemma_upto_stable(self, s: Subject, b1: nat, b2: nat)
        requires
            self.wf_structure(),
            self.rank(s) <= b1,
            self.rank(s) <= b2,
        ensures
            self.value_upto(s, b1) == self.value_upto(s, b2),
    {
        if self.factor_map().dom().contains(s) {
            assert(self.factors@.dom().contains(s));
        }
    }

    /// Bound slack, lifted to input lists.
    proof fn lemma_args_upto_stable(self, inputs: Seq<Subject>, b1: nat, b2: nat)
        requires
            self.wf_structure(),
            forall|k: int| 0 <= k < inputs.len() ==> self.rank(#[trigger] inputs[k]) <= b1,
            forall|k: int| 0 <= k < inputs.len() ==> self.rank(#[trigger] inputs[k]) <= b2,
        ensures
            self.args_upto(inputs, b1) == self.args_upto(inputs, b2),
    {
        self.lemma_args_upto_index(inputs, b1);
        self.lemma_args_upto_index(inputs, b2);
        assert forall|k: int| 0 <= k < inputs.len() implies self.args_upto(inputs, b1)[k]
            == self.args_upto(inputs, b2)[k] by {
            self.lemma_upto_stable(inputs[k], b1, b2);
        }
        assert(self.args_upto(inputs, b1) =~= self.args_upto(inputs, b2));
    }

    /// Under the full invariant, the cache-trusting observations of a
    /// formula's inputs are exactly the model's values: every
    /// formula-backed input is clean (it has a reader), and clean caches
    /// are correct by induction over the graph.
    proof fn lemma_obs_args_match(self, i: int)
        requires
            self.wf_structure(),
            self.leaf_dirty_ok(),
            self.caches_ok_except(Set::empty()),
            0 <= i < self.n(),
        ensures
            self.obs_args(self.formulas()[i].inputs@) == self.args_upto(
                self.formulas()[i].inputs@,
                i as nat,
            ),
        decreases i, 0int,
    {
        let inputs = self.formulae@[i].inputs@;
        self.lemma_args_upto_index(inputs, i as nat);
        assert forall|k: int| 0 <= k < inputs.len() implies self.obs(inputs[k]) == self.value_upto(
            inputs[k],
            i as nat,
        ) by {
            let s = inputs[k];
            assert(self.rank(s) <= i);
            if self.factors@.dom().contains(s) {
                match self.factors@[s] {
                    Factor::Constant(v) => {},
                    Factor::Decay { value, target, policy } => {},
                    Factor::Formula(id) => {
                        let j = id.0 as int;
                        assert(j < i);
                        assert(self.formulae@[j].subject == s);
                        assert(self.formula_reads(i, s));
                        assert(self.has_reader(s));
                        assert(!self.is_leaf(j));
                        assert(!self.is_dirty(j));
                        self.lemma_clean_cache_correct(j);
                    },
                }
            }
        }
        assert(self.obs_args(inputs) =~= self.args_upto(inputs, i as nat));
    }

    /// Under the full invariant, every clean cache entry holds its
    /// formula's model value.
    proof fn lemma_clean_cache_correct(self, i: int)
        requires
            self.wf_structure(),
            self.leaf_dirty_ok(),
            self.caches_ok_except(Set::empty()),
            0 <= i < self.n(),
            !self.is_dirty(i),
        ensures
            self.cached_of(i) == self.formula_value_at(i),
        decreases i, 1int,
    {
        self.lemma_obs_args_match(i);
    }

    /// A formula-backed subject's value is its formula's value.
    proof fn lemma_subject_value_backed(self, i: int)
        requires
            self.wf_structure(),
            0 <= i < self.n(),
        ensures
            self.subject_value(self.formulas()[i].subject) == self.formula_value_at(i),
    {
        let s = self.formulae@[i].subject;
        assert(self.factors@.dom().contains(s));
        assert(self.factors@[s] matches Factor::Formula(id) && id.0 as int == i);
    }

    /// Propagation correctness, as compositionality of the model: a
    /// formula-backed subject's current value is always the formula's
    /// function applied to its inputs' current values. Together with
    /// `get_factor`'s contract (reads return `subject_value` without any
    /// explicit recompute), this is the engine's consistency guarantee.
    pub proof fn lemma_formula_consistency(self, i: int)
        requires
            self.wf(),
            0 <= i < self.n(),
        ensures
            self.subject_value(self.formulas()[i].subject) == eval_fn(
                self.formulas()[i].inner_fn,
                self.input_values(i),
            ),
    {
        let inputs = self.formulae@[i].inputs@;
        self.lemma_subject_value_backed(i);
        self.lemma_args_upto_index(inputs, i as nat);
        assert forall|k: int| 0 <= k < inputs.len() implies self.input_values(i)[k]
            == self.args_upto(inputs, i as nat)[k] by {
            assert(self.rank(inputs[k]) <= i);
            assert(self.rank(inputs[k]) <= self.n()) by {
                if self.factors@.dom().contains(inputs[k]) {
                }
            }
            self.lemma_upto_stable(inputs[k], i as nat, self.n() as nat);
        }
        assert(self.input_values(i) =~= self.args_upto(inputs, i as nat));
    }

    /// Propagation correctness for the additive case: a formula summing
    /// two subjects always carries exactly the (saturating) sum of their
    /// current values — so mutating one input by a delta moves the
    /// formula's value by that delta, with no explicit recompute call.
    pub proof fn lemma_sum_formula_value(self, i: int, a: Subject, b: Subject)
        requires
            self.wf(),
            0 <= i < self.n(),
            self.formulas()[i].inner_fn == FormulaFn::Sum,
            self.formulas()[i].inputs@ =~= seq![a, b],
        ensures
            self.subject_value(self.formulas()[i].subject) == crate::num::sat64(
                self.subject_value(a) + self.subject_value(b),
            ),
    {
        self.lemma_formula_consistency(i);
        let args = self.input_values(i);
        assert(args.len() == 2);
        assert(args[0] == self.subject_value(a));
        assert(args[1] == self.subject_value(b));
        assert(crate::num::sum_of(args) == self.subject_value(a) + self.subject_value(b)) by {
            let front = args.drop_last();
            assert(front.drop_last() =~= Seq::<int>::empty());
            assert(crate::num::sum_of(front.drop_last()) == 0);
            assert(front.last() == args[0]);
            assert(crate::num::sum_of(front) == args[0]);
            assert(args.last() == args[1]);
            assert(crate::num::sum_of(args) == crate::num::sum_of(front) + args[1]);
        }
    }

    /// Default resolution: a never-written subject reads as its kind's
    /// declared default.
    pub proof fn lemma_default_resolution(self, s: Subject)
        requires
            !self.factor_map().dom().contains(s),
        ensures
            self.subject_value(s) == self.default_of(s),
    {
    }

    /// The model depends only on the factor map, the formula list and
    /// the policy table — never on the cache (bound-indexed form).
    proof fn lemma_value_congruent(a: FormulaSystem, b: FormulaSystem, s: Subject, bound: nat)
        requires
            a.factor_map() == b.factor_map(),
            a.formulas() == b.formulas(),
            a.policy_table() == b.policy_table(),
        ensures
            a.value_upto(s, bound) == b.value_upto(s, bound),
        decreases bound, 0int, 0int,
    {
        if a.factor_map().dom().contains(s) {
            match a.factor_map()[s] {
                Factor::Formula(id) => {
                    if id.0 < bound && (id.0 as int) < a.n() {
                        Self::lemma_formula_value_congruent(a, b, id.0 as int);
                    }
                },
                _ => {},
            }
        }
    }

    /// Congruence for formula values.
    proof fn lemma_formula_value_congruent(a: FormulaSystem, b: FormulaSystem, i: int)
        requires
            a.factor_map() == b.factor_map(),
            a.formulas() == b.formulas(),
            a.policy_table() == b.policy_table(),
        ensures
            a.formula_value_at(i) == b.formula_value_at(i),
        decreases i, 1int, 0int,
    {
        if 0 <= i < a.n() {
            Self::lemma_args_congruent(a, b, a.formulas()[i].inputs@, i as nat);
        }
    }

    /// Congruence for input lists.
    proof fn lemma_args_congruent(a: FormulaSystem, b: FormulaSystem, inputs: Seq<Subject>, bound: nat)
        requires
            a.factor_map() == b.factor_map(),
            a.formulas() == b.formulas(),
            a.policy_table() == b.policy_table(),
        ensures
            a.args_upto(inputs, bound) == b.args_upto(inputs, bound),
        decreases bound, 0int, inputs.len(),
    {
        if inputs.len() > 0 {
            Self::lemma_args_congruent(a, b, inputs.drop_last(), bound);
            Self::lemma_value_congruent(a, b, inputs.last(), bound);
        }
    }

    /// Idempotent reads, at the model level: two engine states with the
    /// same factors, formulas and policy table give every subject the
    /// same value — the evaluation cache plays no part in what a read
    /// returns. Since reads leave factors, formulas and table untouched,
    /// two consecutive reads of an unmodified subject return identical
    /// values.
    pub proof fn lemma_value_depends_on_graph(a: FormulaSystem, b: FormulaSystem)
        requires
            a.factor_map() == b.factor_map(),
            a.formulas() == b.formulas(),
            a.policy_table() == b.policy_table(),
        ensures
            forall|s: Subject| a.subject_value(s) == b.subject_value(s),
    {
        assert forall|s: Subject| a.subject_value(s) == b.subject_value(s) by {
            Self::lemma_value_congruent(a, b, s, a.n() as nat);
        }
    }

    /// Two states with the same formula list agree on who reads whom.
    proof fn lemma_reads_congruent(pre: FormulaSystem, post: FormulaSystem)
        requires
            post.formulae == pre.formulae,
        ensures
            forall|i: int, s: Subject| #[trigger]
                post.formula_reads(i, s) == pre.formula_reads(i, s),
            forall|s: Subject| #[trigger] post.has_reader(s) == pre.has_reader(s),
            forall|i: int| #[trigger] post.is_leaf(i) == pre.is_leaf(i),
    {
        assert forall|s: Subject| #[trigger] post.has_reader(s) == pre.has_reader(s) by {
            if pre.has_reader(s) {
                let i = choose|i: int| pre.formula_reads(i, s);
                assert(post.formula_reads(i, s));
            }
            if post.has_reader(s) {
                let i = choose|i: int| post.formula_reads(i, s);
                assert(pre.formula_reads(i, s));
            }
        }
    }

    /// Structural well-formedness and the value model survive any change
    /// that touches only the evaluation cache (keeping its length).
    proof fn lemma_structure_after_cache_change(pre: FormulaSystem, post: FormulaSystem)
        requires
            pre.wf_structure(),
            post.factors == pre.factors,
            post.formulae == pre.formulae,
            post.input_map == pre.input_map,
            post.table == pre.table,
            post.formula_values@.len() == pre.formula_values@.len(),
        ensures
            post.wf_structure(),
            forall|i: int, s: Subject| #[trigger]
                post.formula_reads(i, s) == pre.formula_reads(i, s),
            forall|s: Subject| #[trigger] post.has_reader(s) == pre.has_reader(s),
            forall|i: int| #[trigger] post.is_leaf(i) == pre.is_leaf(i),
            forall|s: Subject| #[trigger] post.rank(s) == pre.rank(s),
            forall|s: Subject| #[trigger] post.subject_value(s) == pre.subject_value(s),
    {
        Self::lemma_reads_congruent(pre, post);
        assert forall|s: Subject| (#[trigger] post.input_map@.dom().contains(s)) <==> (
        #[trigger] post.has_reader(s)) by {
            assert(pre.input_map@.dom().contains(s) <==> pre.has_reader(s));
        }
        assert forall|s: Subject, i: int| #[trigger] post.formula_reads(i, s) implies
            post.input_map@.dom().contains(s) && exists|k: int|
            0 <= k < post.input_map@[s]@.len() && (#[trigger] post.input_map@[s]@[k]).0 == i by {
            assert(pre.formula_reads(i, s));
            let k = choose|k: int|
                0 <= k < pre.input_map@[s]@.len() && (#[trigger] pre.input_map@[s]@[k]).0 == i;
            assert(0 <= k < post.input_map@[s]@.len() && post.input_map@[s]@[k].0 == i);
        }
        Self::lemma_value_depends_on_graph(pre, post);
    }

    /// Rewriting one cache entry changes the observation of its
    /// formula's output subject only.
    proof fn lemma_obs_after_cache_update(pre: FormulaSystem, post: FormulaSystem, i: int)
        requires
            pre.wf_structure(),
            post.factor_map() == pre.factor_map(),
            post.formulas() == pre.formulas(),
            post.policy_table() == pre.policy_table(),
            post.formula_values@.len() == pre.formula_values@.len(),
            0 <= i < pre.n(),
            forall|j: int|
                0 <= j < pre.formula_values@.len() && j != i ==> post.formula_values@[j]
                    == pre.formula_values@[j],
        ensures
            forall|t: Subject|
                t != pre.formulas()[i].subject ==> #[trigger] post.obs(t) == pre.obs(t),
    {
        assert forall|t: Subject| t != pre.formulas()[i].subject implies #[trigger] post.obs(t)
            == pre.obs(t) by {
            if pre.factor_map().dom().contains(t) {
                assert(pre.factors@.dom().contains(t));
                match pre.factor_map()[t] {
                    Factor::Formula(id2) => {
                        assert(pre.formulae@[id2.0 as int].subject == t);
                    },
                    _ => {},
                }
            }
        }
    }

    /// Changing the factor entry of one subject changes no other
    /// subject's observation.
    proof fn lemma_obs_after_factor_update(pre: FormulaSystem, post: FormulaSystem, s0: Subject)
        requires
            post.formulas() == pre.formulas(),
            post.policy_table() == pre.policy_table(),
            post.formula_values@ == pre.formula_values@,
            forall|t: Subject|
                t != s0 ==> (#[trigger] post.factor_map().dom().contains(t)
                    == pre.factor_map().dom().contains(t) && (pre.factor_map().dom().contains(t)
                    ==> post.factor_map()[t] == pre.factor_map()[t])),
        ensures
            forall|t: Subject| t != s0 ==> #[trigger] post.obs(t) == pre.obs(t),
    {
    }

    // ------------------------------------------------------------------
    // Reads.

    /// The unified read path: the current value of any subject.
    ///
    /// A base or never-written subject resolves directly (stored value or
    /// kind default). A formula-backed subject resolves from its cache,
    /// recomputing first when the entry is dirty — the recomputation is
    /// the only mutation a read can make, so a read of an unmodified
    /// subject with a clean cache leaves the engine bit-identical and two
    /// consecutive reads return the same value.
    pub fn get_factor(&mut self, s: &Subject) -> (r: i64)
        requires
            old(self).wf(),
        ensures
            final(self).wf(),
            final(self).factor_map() == old(self).factor_map(),
            final(self).formulas() == old(self).formulas(),
            final(self).policy_table() == old(self).policy_table(),
            r as int == old(self).subject_value(*s),
            forall|t: Subject|
                #[trigger] final(self).subject_value(t) == old(self).subject_value(t),
            final(self).obs(*s) == r as int,
            forall|i: int|
                0 <= i < old(self).n() && !(#[trigger] old(self).is_dirty(i))
                    ==> !final(self).is_dirty(i) && final(self).cached_of(i) == old(self).cached_of(
                    i),
            forall|i: int|
                0 <= i < old(self).n() && #[trigger] final(self).is_dirty(i)
                    ==> old(self).is_dirty(i),
            old(self).is_base_subject(*s) ==> *final(self) == *old(self),
            (old(self).factor_map().dom().contains(*s) && (old(self).factor_map()[*s] matches
            Factor::Formula(id) && !old(self).is_dirty(id.0 as int))) ==> *final(self) == *old(self),
            old(self).factor_map().dom().contains(*s) ==> (old(self).factor_map()[*s] matches
            Factor::Formula(id) ==> (!final(self).is_dirty(id.0 as int) && final(self).cached_of(
                id.0 as int,
            ) == r as int)),
    {
        proof {
            Self::lemma_value_depends_on_graph(*old(self), *old(self));
        }
        let fopt = self.factor_of(s);
        match fopt {
            None => self.default_value_of(s),
            Some(f) => match f {
                Factor::Constant(v) => v,
                Factor::Decay { value, target, policy } => value,
                Factor::Formula(id) => {
                    let i = id.0;
                    proof {
                        assert(self.factors@.dom().contains(*s));
                        assert((i as int) < self.n());
                        assert(self.formulae@[i as int].subject == *s);
                    }
                    if !self.formula_values[i].dirty {
                        let r = self.formula_values[i].cached;
                        proof {
                            self.lemma_clean_cache_correct(i as int);
                            self.lemma_subject_value_backed(i as int);
                        }
                        r
                    } else {
                        proof {
                            assert(self.is_dirty(i as int));
                            assert(self.is_leaf(i as int));
                        }
                        let v = self.compute_formula(i);
                        self.formula_values.set(i, FormulaValue { cached: v, dirty: false });
                        proof {
                            let pre = *old(self);
                            let post = *self;
                            pre.lemma_obs_args_match(i as int);
                            pre.lemma_subject_value_backed(i as int);
                            assert(v as int == pre.formula_value_at(i as int));
                            Self::lemma_obs_after_cache_update(pre, post, i as int);
                            Self::lemma_structure_after_cache_change(pre, post);
                            assert forall|j: int|
                                0 <= j < post.n() && #[trigger] post.is_dirty(j) implies post.is_leaf(
                                j,
                            ) by {
                                assert(pre.is_dirty(j));
                                assert(pre.is_leaf(j));
                            }
                            assert forall|j: int|
                                0 <= j < post.n() && !(#[trigger] post.is_dirty(j)) implies post.cached_of(
                                j,
                            ) == eval_fn(
                                post.formulas()[j].inner_fn,
                                post.obs_args(post.formulas()[j].inputs@),
                            ) by {
                                let inputs = pre.formulae@[j].inputs@;
                                assert forall|k: int| 0 <= k < inputs.len() implies post.obs(
                                    #[trigger] inputs[k],
                                ) == pre.obs(inputs[k]) by {
                                    if inputs[k] == *s {
                                        assert(inputs.contains(*s));
                                        assert(pre.formula_reads(j, *s));
                                        assert(pre.has_reader(*s));
                                        assert(pre.formulae@[i as int].subject == *s);
                                        assert(!pre.is_leaf(i as int));
                                        assert(false);
                                    }
                                }
                                assert(post.obs_args(inputs) =~= pre.obs_args(inputs));
                                if j != i as int {
                                    assert(!pre.is_dirty(j));
                                }
                            }
                            assert(post.caches_ok_except(Set::empty()));
                        }
                        v
                    }
                },
            },
        }
    }

    // ------------------------------------------------------------------
    // Propagation.

    /// Observations are untouched by a cache write that keeps every
    /// cached value (it may only flip dirty flags).
    proof fn lemma_obs_same_cached(pre: FormulaSystem, post: FormulaSystem)
        requires
            post.factors == pre.factors,
            post.formulae == pre.formulae,
            post.table == pre.table,
            post.formula_values@.len() == pre.formula_values@.len(),
            forall|j: int|
                0 <= j < pre.formula_values@.len() ==> (#[trigger] post.formula_values@[j]).cached
                    == pre.formula_values@[j].cached,
        ensures
            forall|t: Subject| #[trigger] post.obs(t) == pre.obs(t),
    {
    }

    /// Walk everything downstream of a changed subject: recompute (and
    /// recurse on a changed result) for formulas whose output feeds
    /// further formulas, mark dirty for leaf formulas. `ex` names the
    /// formulas the caller will repair itself; on return every clean
    /// cache outside `ex` is consistent again.
    #[verifier::loop_isolation(false)]
    #[verifier::rlimit(60)]
    fn propagate(&mut self, s: Subject, ex: Ghost<Set<int>>)
        requires
            old(self).wf_structure(),
            old(self).leaf_dirty_ok(),
            old(self).caches_ok_except(ex@.union(old(self).readers_of(s))),
        ensures
            final(self).wf_structure(),
            final(self).leaf_dirty_ok(),
            final(self).caches_ok_except(ex@),
            final(self).factors == old(self).factors,
            final(self).formulae == old(self).formulae,
            final(self).input_map == old(self).input_map,
            final(self).table == old(self).table,
            final(self).formula_values@.len() == old(self).formula_values@.len(),
            forall|i: int|
                0 <= i < old(self).n() && #[trigger] old(self).is_leaf(i) ==> final(self).cached_of(
                i) == old(self).cached_of(i),
            forall|i: int|
                0 <= i < old(self).n() && #[trigger] old(self).is_dirty(i) ==> final(self).is_dirty(
                i),
            forall|i: int|
                #[trigger] old(self).formula_reads(i, s) && old(self).is_leaf(i)
                    ==> final(self).is_dirty(i),
        decreases old(self).n() - old(self).rank(s),
    {
        let deps = self.dependents_vec(&s);
        let ghost orig = *self;
        let mut k: usize = 0;
        while k < deps.len()
            invariant
                k <= deps@.len(),
                self.factors == orig.factors,
                self.formulae == orig.formulae,
                self.input_map == orig.input_map,
                self.table == orig.table,
                self.formula_values@.len() == orig.formula_values@.len(),
                self.wf_structure(),
                self.leaf_dirty_ok(),
                orig.wf_structure(),
                orig.leaf_dirty_ok(),
                deps@ == if orig.input_map@.dom().contains(s) {
                    orig.input_map@[s]@
                } else {
                    Seq::<FormulaId>::empty()
                },
                self.caches_ok_except(ex@.union(pending_set(deps@, k as int))),
                forall|i: int|
                    0 <= i < orig.n() && #[trigger] orig.is_leaf(i) ==> self.cached_of(i)
                        == orig.cached_of(i),
                forall|i: int|
                    0 <= i < orig.n() && #[trigger] orig.is_dirty(i) ==> self.is_dirty(i),
                forall|m: int|
                    0 <= m < k && orig.is_leaf((#[trigger] deps@[m]).0 as int) ==> self.is_dirty(
                        deps@[m].0 as int,
                    ),
            decreases deps@.len() - k,
        {
            let id = deps[k];
            let i = id.0;
            proof {
                assert(orig.input_map@.dom().contains(s));
                assert(orig.formula_reads(i as int, s));
                Self::lemma_reads_congruent(orig, *self);
                assert(self.formula_reads(i as int, s));
                assert(self.rank(s) <= i as int);
            }
            let out_s = self.formulae[i].subject;
            if self.has_reader_exec(&out_s) {
                proof {
                    assert(!self.is_leaf(i as int));
                    assert(!self.is_dirty(i as int));
                }
                let before = self.formula_values[i].cached;
                let after = self.compute_formula(i);
                let ghost pre = *self;
                self.formula_values.set(i, FormulaValue { cached: after, dirty: false });
                proof {
                    let post = *self;
                    Self::lemma_structure_after_cache_change(pre, post);
                    Self::lemma_obs_after_cache_update(pre, post, i as int);
                    assert forall|j: int|
                        0 <= j < post.n() && #[trigger] post.is_dirty(j) implies post.is_leaf(
                        j,
                    ) by {
                        assert(pre.is_dirty(j));
                    }
                    // Every clean entry outside ex, the still-pending
                    // dependents, and the readers of the fresh output is
                    // consistent.
                    assert forall|j: int|
                        0 <= j < post.n() && !(#[trigger] post.is_dirty(j)) && !ex@.union(
                            pending_set(deps@, k as int + 1),
                        ).union(post.readers_of(out_s)).contains(j) implies post.cached_of(j)
                        == eval_fn(
                        post.formulas()[j].inner_fn,
                        post.obs_args(post.formulas()[j].inputs@),
                    ) by {
                        let inputs = pre.formulae@[j].inputs@;
                        assert forall|k2: int| 0 <= k2 < inputs.len() implies post.obs(
                            #[trigger] inputs[k2],
                        ) == pre.obs(inputs[k2]) by {
                            if inputs[k2] == out_s {
                                assert(inputs.contains(out_s));
                                assert(pre.formula_reads(j, out_s));
                                assert(post.formula_reads(j, out_s));
                                assert(post.readers_of(out_s).contains(j));
                                assert(false);
                            }
                        }
                        assert(post.obs_args(inputs) =~= pre.obs_args(inputs));
                        if j == i as int {
                            assert(post.cached_of(j) == after as int);
                        } else {
                            assert(!ex@.union(pending_set(deps@, k as int)).contains(j)) by {
                                if pending_set(deps@, k as int).contains(j) {
                                    let m = choose|m: int|
                                        k <= m < deps@.len() && (#[trigger] deps@[m]).0 == j;
                                    if m == k {
                                        assert(false);
                                    } else {
                                        assert(pending_set(deps@, k as int + 1).contains(j));
                                        assert(false);
                                    }
                                }
                            }
                            assert(!pre.is_dirty(j));
                            assert(pre.cached_of(j) == eval_fn(
                                pre.formulas()[j].inner_fn,
                                pre.obs_args(pre.formulas()[j].inputs@),
                            ));
                        }
                    }
                    assert(post.caches_ok_except(
                        ex@.union(pending_set(deps@, k as int + 1)).union(post.readers_of(out_s)),
                    ));
                }
                if before != after {
                    let ghost ex2 = ex@.union(pending_set(deps@, k as int + 1));
                    proof {
                        assert(ex2.union(self.readers_of(out_s)) =~= ex@.union(
                            pending_set(deps@, k as int + 1),
                        ).union(self.readers_of(out_s)));
                        assert(self.factors@.dom().contains(out_s));
                        assert(self.rank(out_s) == i as int + 1);
                        assert(self.n() == old(self).n());
                        assert(old(self).rank(s) == self.rank(s));
                        assert(self.rank(s) <= i as int);
                        assert(old(self).n() - old(self).rank(s) > self.n() - self.rank(out_s)
                            >= 0);
                    }
                    let ghost before_rec = *self;
                    self.propagate(out_s, Ghost(ex2));
                    proof {
                        Self::lemma_reads_congruent(orig, before_rec);
                        Self::lemma_reads_congruent(orig, *self);
                        assert forall|j: int|
                            0 <= j < orig.n() && #[trigger] orig.is_leaf(j) implies self.cached_of(
                        j) == orig.cached_of(j) by {
                            assert(j != i as int);
                            assert(before_rec.cached_of(j) == pre.cached_of(j));
                            assert(before_rec.is_leaf(j));
                        }
                        assert forall|j: int|
                            0 <= j < orig.n() && #[trigger] orig.is_dirty(j) implies self.is_dirty(
                        j) by {
                            assert(pre.is_dirty(j));
                            assert(j != i as int);
                            assert(before_rec.is_dirty(j));
                        }
                        assert forall|m: int|
                            0 <= m < k + 1 && orig.is_leaf(
                                (#[trigger] deps@[m]).0 as int,
                            ) implies self.is_dirty(deps@[m].0 as int) by {
                            let j = deps@[m].0 as int;
                            if m < k {
                                assert(before_rec.is_dirty(j));
                                assert(before_rec.is_leaf(j));
                            } else {
                                assert(!orig.is_leaf(i as int));
                            }
                        }
                    }
                } else {
                    proof {
                        let post = *self;
                        assert forall|j: int|
                            0 <= j < post.formula_values@.len() implies (
                        #[trigger] post.formula_values@[j]).cached
                            == pre.formula_values@[j].cached by {}
                        Self::lemma_obs_same_cached(pre, post);
                        assert forall|j: int|
                            0 <= j < post.n() && !(#[trigger] post.is_dirty(j)) && !ex@.union(
                                pending_set(deps@, k as int + 1),
                            ).contains(j) implies post.cached_of(j) == eval_fn(
                            post.formulas()[j].inner_fn,
                            post.obs_args(post.formulas()[j].inputs@),
                        ) by {
                            let inputs = pre.formulae@[j].inputs@;
                            assert(post.obs_args(inputs) =~= pre.obs_args(inputs));
                            if j == i as int {
                                assert(post.cached_of(j) == after as int);
                            } else {
                                assert(!ex@.union(pending_set(deps@, k as int)).contains(j)) by {
                                    if pending_set(deps@, k as int).contains(j) {
                                        let m = choose|m: int|
                                            k <= m < deps@.len() && (#[trigger] deps@[m]).0 == j;
                                        assert(m != k);
                                        assert(pending_set(deps@, k as int + 1).contains(j));
                                    }
                                }
                                assert(!pre.is_dirty(j));
                            }
                        }
                        assert(post.caches_ok_except(ex@.union(pending_set(deps@, k as int + 1))));
                        assert forall|m: int|
                            0 <= m < k + 1 && orig.is_leaf(
                                (#[trigger] deps@[m]).0 as int,
                            ) implies self.is_dirty(deps@[m].0 as int) by {
                            if m == k {
                                assert(!orig.is_leaf(i as int));
                            }
                        }
                    }
                }
            } else {
                proof {
                    assert(self.is_leaf(i as int));
                }
                let c = self.formula_values[i].cached;
                let ghost pre = *self;
                self.formula_values.set(i, FormulaValue { cached: c, dirty: true });
                proof {
                    let post = *self;
                    Self::lemma_structure_after_cache_change(pre, post);
                    assert forall|j: int|
                        0 <= j < post.formula_values@.len() implies (
                    #[trigger] post.formula_values@[j]).cached == pre.formula_values@[j].cached by {}
                    Self::lemma_obs_same_cached(pre, post);
                    assert forall|j: int|
                        0 <= j < post.n() && #[trigger] post.is_dirty(j) implies post.is_leaf(
                        j,
                    ) by {
                        if j == i as int {
                            assert(pre.is_leaf(j));
                        } else {
                            assert(pre.is_dirty(j));
                        }
                    }
                    assert forall|j: int|
                        0 <= j < post.n() && !(#[trigger] post.is_dirty(j)) && !ex@.union(
                            pending_set(deps@, k as int + 1),
                        ).contains(j) implies post.cached_of(j) == eval_fn(
                        post.formulas()[j].inner_fn,
                        post.obs_args(post.formulas()[j].inputs@),
                    ) by {
                        let inputs = pre.formulae@[j].inputs@;
                        assert(post.obs_args(inputs) =~= pre.obs_args(inputs));
                        assert(j != i as int);
                        assert(!ex@.union(pending_set(deps@, k as int)).contains(j)) by {
                            if pending_set(deps@, k as int).contains(j) {
                                let m = choose|m: int|
                                    k <= m < deps@.len() && (#[trigger] deps@[m]).0 == j;
                                assert(m != k);
                                assert(pending_set(deps@, k as int + 1).contains(j));
                            }
                        }
                        assert(!pre.is_dirty(j));
                    }
                    assert(post.caches_ok_except(ex@.union(pending_set(deps@, k as int + 1))));
                }
            }
            k = k + 1;
        }
        proof {
            assert(ex@.union(pending_set(deps@, deps@.len() as int)) =~= ex@);
            assert forall|i: int|
                #[trigger] orig.formula_reads(i, s) && orig.is_leaf(i) implies self.is_dirty(
                i,
            ) by {
                let m = choose|m: int|
                    0 <= m < orig.input_map@[s]@.len() && (#[trigger] orig.input_map@[s]@[m]).0
                        == i;
                assert(deps@[m].0 == i);
            }
        }
    }

    // ------------------------------------------------------------------
    // Base-factor mutation.

    /// What a base-factor entry looks like after writing value `v` to
    /// subject `s`: existing entries keep their variant, target and
    /// policy; a missing entry becomes a decaying factor with target 0
    /// under the kind's policy.
    pub open spec fn stored_after_write(self, s: Subject, v: i64) -> Factor {
        if self.factor_map().dom().contains(s) {
            match self.factor_map()[s] {
                Factor::Constant(c) => Factor::Constant(v),
                Factor::Decay { value, target, policy } => Factor::Decay {
                    value: v,
                    target,
                    policy,
                },
                Factor::Formula(id) => Factor::Formula(id),
            }
        } else {
            Factor::Decay { value: v, target: 0, policy: self.kind_policy(s.kind).decay }
        }
    }

    /// Structural well-formedness survives writing or removing one base
    /// (non-formula) entry; the caches stay consistent except at the
    /// subject's direct readers.
    proof fn lemma_structure_after_base_write(pre: FormulaSystem, post: FormulaSystem, s: Subject)
        requires
            pre.wf_structure(),
            pre.leaf_dirty_ok(),
            pre.caches_ok_except(Set::empty()),
            pre.is_base_subject(s),
            post.formulae == pre.formulae,
            post.input_map == pre.input_map,
            post.table == pre.table,
            post.formula_values == pre.formula_values,
            post.factors.wf(),
            forall|t: Subject|
                t != s ==> (#[trigger] post.factors@.dom().contains(t) == pre.factors@.dom(
                ).contains(t) && (pre.factors@.dom().contains(t) ==> post.factors@[t]
                    == pre.factors@[t])),
            post.factors@.dom().contains(s) ==> post.factors@[s].wf() && !(post.factors@[s]
                is Formula),
        ensures
            post.wf_structure(),
            post.leaf_dirty_ok(),
            post.caches_ok_except(Set::empty().union(post.readers_of(s))),
            forall|t: Subject| t != s ==> #[trigger] post.obs(t) == pre.obs(t),
            forall|t: Subject| #[trigger] post.rank(t) == pre.rank(t),
    {
        Self::lemma_reads_congruent(pre, post);
        Self::lemma_obs_after_factor_update(pre, post, s);
        assert forall|t: Subject| #[trigger] post.rank(t) == pre.rank(t) by {
            if t == s {
                assert(pre.rank(s) == 0);
                assert(post.rank(s) == 0);
            }
        }
        assert forall|t: Subject| #[trigger] post.factors@.dom().contains(t) implies post.factors@[
        t].wf() by {
            if t != s {
                assert(pre.factors@.dom().contains(t));
            }
        }
        assert forall|t: Subject| #[trigger] post.factors@.dom().contains(t) implies (
        post.factors@[t] matches Factor::Formula(id) ==> (id.0 as int) < post.n()
            && post.formulae@[id.0 as int].subject == t) by {
            if t != s {
                assert(pre.factors@.dom().contains(t));
            }
        }
        assert forall|i: int| 0 <= i < post.n() implies {
            &&& (#[trigger] post.formulae@[i]).wf()
            &&& post.factors@.dom().contains(post.formulae@[i].subject)
            &&& (post.factors@[post.formulae@[i].subject] matches Factor::Formula(id) && id.0 as int
                == i)
        } by {
            let t = pre.formulae@[i].subject;
            assert(pre.formulae@[i].wf());
            assert(pre.factors@.dom().contains(t));
            assert(pre.factors@[t] matches Factor::Formula(id) && id.0 as int == i);
            assert(t != s);
            assert(post.factors@.dom().contains(t));
            assert(post.factors@[t] == pre.factors@[t]);
        }
        assert forall|s2: Subject| (#[trigger] post.input_map@.dom().contains(s2)) <==> (
        #[trigger] post.has_reader(s2)) by {
            assert(pre.input_map@.dom().contains(s2) <==> pre.has_reader(s2));
        }
        assert forall|s2: Subject, i: int| #[trigger] post.formula_reads(i, s2) implies
            post.input_map@.dom().contains(s2) && exists|k: int|
            0 <= k < post.input_map@[s2]@.len() && (#[trigger] post.input_map@[s2]@[k]).0 == i by {
            assert(pre.formula_reads(i, s2));
            let k = choose|k: int|
                0 <= k < pre.input_map@[s2]@.len() && (#[trigger] pre.input_map@[s2]@[k]).0 == i;
            assert(0 <= k < post.input_map@[s2]@.len() && post.input_map@[s2]@[k].0 == i);
        }
        assert(post.wf_structure());
        assert forall|j: int| 0 <= j < post.n() && #[trigger] post.is_dirty(j) implies post.is_leaf(
        j) by {
            assert(pre.is_dirty(j));
        }
        assert forall|j: int|
            0 <= j < post.n() && !(#[trigger] post.is_dirty(j)) && !Set::empty().union(
                post.readers_of(s),
            ).contains(j) implies post.cached_of(j) == eval_fn(
            post.formulas()[j].inner_fn,
            post.obs_args(post.formulas()[j].inputs@),
        ) by {
            let inputs = pre.formulae@[j].inputs@;
            assert forall|k: int| 0 <= k < inputs.len() implies post.obs(#[trigger] inputs[k])
                == pre.obs(inputs[k]) by {
                if inputs[k] == s {
                    assert(inputs.contains(s));
                    assert(pre.formula_reads(j, s));
                    assert(post.formula_reads(j, s));
                    assert(post.readers_of(s).contains(j));
                    assert(false);
                }
            }
            assert(!pre.is_dirty(j));
            assert(post.obs_args(inputs) =~= pre.obs_args(inputs));
        }
    }

    /// Write (or remove, for `None`) the base entry of `s`, then
    /// propagate the change through every dependent formula.
    fn put_base(&mut self, s: Subject, nf: Option<Factor>)
        requires
            old(self).wf(),
            old(self).is_base_subject(s),
            nf matches Some(f) ==> f.wf() && !(f is Formula),
        ensures
            final(self).wf(),
            final(self).formulae == old(self).formulae,
            final(self).input_map == old(self).input_map,
            final(self).table == old(self).table,
            final(self).formula_values@.len() == old(self).formula_values@.len(),
            final(self).factors@ == match nf {
                Some(f) => old(self).factors@.insert(s, f),
                None => old(self).factors@.remove(s),
            },
            (nf matches Some(f) && old(self).factors@.dom().contains(s))
                ==> final(self).factors.entries().len() == old(self).factors.entries().len()
                && exists|i: int|
                0 <= i < old(self).factors.entries().len() && (#[trigger] old(self).factors.entries()[i]).0 == s && final(self).factors.entries() == old(self).factors.entries().update(i, (s, nf->0)),
            (nf matches Some(f) && !old(self).factors@.dom().contains(s))
                ==> final(self).factors.entries() == old(self).factors.entries().push((s, nf->0)),
            final(self).subject_value(s) == match nf {
                Some(f) => f.stored(),
                None => old(self).default_of(s),
            },
            forall|t: Subject|
                t != s && old(self).is_base_subject(t) ==> #[trigger] final(self).subject_value(t)
                    == old(self).subject_value(t) && final(self).is_base_subject(t),
            forall|i: int|
                0 <= i < old(self).n() && #[trigger] old(self).is_leaf(i)
                    ==> final(self).cached_of(i) == old(self).cached_of(i),
            forall|i: int|
                0 <= i < old(self).n() && #[trigger] old(self).is_dirty(i)
                    ==> final(self).is_dirty(i),
            forall|i: int|
                #[trigger] old(self).formula_reads(i, s) && old(self).is_leaf(i)
                    ==> final(self).is_dirty(i),
    {
        match nf {
            Some(f) => {
                self.factors.insert(s, f);
            },
            None => {
                let _ = self.factors.remove(&s);
            },
        }
        proof {
            let pre = *old(self);
            let mid = *self;
            Self::lemma_structure_after_base_write(pre, mid, s);
        }
        let ghost mid = *self;
        self.propagate(s, Ghost(Set::<int>::empty()));
        proof {
            let pre = *old(self);
            let post = *self;
            Self::lemma_reads_congruent(pre, mid);
            Self::lemma_reads_congruent(pre, post);
            assert(post.caches_ok_except(Set::empty()));
            assert(post.wf());
            assert(post.factors == mid.factors);
            match nf {
                Some(f) => {
                    assert(post.factors@.dom().contains(s) && post.factors@[s] == f);
                    assert(post.subject_value(s) == f.stored());
                },
                None => {
                    assert(!post.factors@.dom().contains(s));
                    assert(post.subject_value(s) == pre.default_of(s));
                },
            }
            assert forall|t: Subject|
                t != s && pre.is_base_subject(t) implies #[trigger] post.subject_value(t)
                == pre.subject_value(t) && post.is_base_subject(t) by {
                if pre.factors@.dom().contains(t) {
                    assert(post.factors@.dom().contains(t) && post.factors@[t] == pre.factors@[t]);
                } else {
                    assert(!post.factors@.dom().contains(t));
                }
            }
            assert forall|i: int|
                0 <= i < pre.n() && #[trigger] pre.is_leaf(i) implies post.cached_of(i)
                == pre.cached_of(i) by {
                assert(mid.is_leaf(i));
                assert(mid.cached_of(i) == pre.cached_of(i));
            }
            assert forall|i: int|
                0 <= i < pre.n() && #[trigger] pre.is_dirty(i) implies post.is_dirty(i) by {
                assert(mid.is_dirty(i));
            }
            assert forall|i: int|
                #[trigger] pre.formula_reads(i, s) && pre.is_leaf(i) implies post.is_dirty(i) by {
                assert(mid.formula_reads(i, s));
                assert(mid.is_leaf(i));
            }
        }
    }

    /// Add `delta` to the base value stored for `s`, creating a decaying
    /// factor (target 0, kind policy) from the kind's default when the
    /// subject was never written. Arithmetic saturates at the `i64`
    /// range. The change propagates before the call returns: formulas
    /// with downstream readers are recomputed, leaf formulas are marked
    /// dirty, and their cached values are left untouched.
    ///
    /// Fails exactly on formula-backed subjects, which hold no base
    /// value; the engine is then unchanged.
    pub fn add_factor(&mut self, s: &Subject, amount: i64) -> (r: Result<i64, FactorError>)
        requires
            old(self).wf(),
        ensures
            final(self).wf(),
            final(self).formulas() == old(self).formulas(),
            final(self).policy_table() == old(self).policy_table(),
            match r {
                Err(e) => e == FactorError::FormulaBacked && !old(self).is_base_subject(*s)
                    && *final(self) == *old(self),
                Ok(v) => {
                    &&& old(self).is_base_subject(*s)
                    &&& v as int == sat_add(old(self).subject_value(*s), amount as int)
                    &&& final(self).factor_map() == old(self).factor_map().insert(
                        *s,
                        old(self).stored_after_write(*s, v),
                    )
                    &&& final(self).subject_value(*s) == v as int
                    &&& forall|t: Subject|
                        t != *s && old(self).is_base_subject(t) ==> #[trigger] final(self).subject_value(t) == old(self).subject_value(t)
                    &&& forall|i: int|
                        0 <= i < old(self).n() && #[trigger] old(self).is_leaf(i) ==> final(self).cached_of(i) == old(self).cached_of(i)
                    &&& forall|i: int|
                        #[trigger] old(self).formula_reads(i, *s) && old(self).is_leaf(i) ==> final(self).is_dirty(i)
                },
            },
    {
        let fopt = self.factor_of(s);
        match fopt {
            Some(Factor::Formula(_)) => Err(FactorError::FormulaBacked),
            None => {
                let pol = self.policy_of(s);
                let v = saturating_add_i64(pol.default_value, amount);
                proof {
                    if (s.kind as int) < self.table@.len() {
                        assert(self.table@[s.kind as int].decay.wf());
                    }
                }
                self.put_base(*s, Some(Factor::Decay { value: v, target: 0, policy: pol.decay }));
                Ok(v)
            },
            Some(Factor::Constant(c)) => {
                let v = saturating_add_i64(c, amount);
                self.put_base(*s, Some(Factor::Constant(v)));
                Ok(v)
            },
            Some(Factor::Decay { value, target, policy }) => {
                let v = saturating_add_i64(value, amount);
                proof {
                    assert(old(self).factors@[*s].wf());
                }
                self.put_base(*s, Some(Factor::Decay { value: v, target, policy }));
                Ok(v)
            },
        }
    }

    /// Set the base value stored for `s` outright, creating a decaying
    /// factor (target 0, kind policy) when the subject was never
    /// written; existing entries keep their variant, target and policy.
    /// Propagates exactly like [`FormulaSystem::add_factor`], and fails
    /// exactly on formula-backed subjects.
    pub fn set_factor(&mut self, s: &Subject, amount: i64) -> (r: Result<i64, FactorError>)
        requires
            old(self).wf(),
        ensures
            final(self).wf(),
            final(self).formulas() == old(self).formulas(),
            final(self).policy_table() == old(self).policy_table(),
            match r {
                Err(e) => e == FactorError::FormulaBacked && !old(self).is_base_subject(*s)
                    && *final(self) == *old(self),
                Ok(v) => {
                    &&& old(self).is_base_subject(*s)
                    &&& v == amount
                    &&& final(self).factor_map() == old(self).factor_map().insert(
                        *s,
                        old(self).stored_after_write(*s, amount),
                    )
                    &&& final(self).subject_value(*s) == amount as int
                    &&& forall|t: Subject|
                        t != *s && old(self).is_base_subject(t) ==> #[trigger] final(self).subject_value(t) == old(self).subject_value(t)
                    &&& forall|i: int|
                        0 <= i < old(self).n() && #[trigger] old(self).is_leaf(i) ==> final(self).cached_of(i) == old(self).cached_of(i)
                    &&& forall|i: int|
                        #[trigger] old(self).formula_reads(i, *s) && old(self).is_leaf(i) ==> final(self).is_dirty(i)
                },
            },
    {
        let fopt = self.factor_of(s);
        match fopt {
            Some(Factor::Formula(_)) => Err(FactorError::FormulaBacked),
            None => {
                let pol = self.policy_of(s);
                proof {
                    if (s.kind as int) < self.table@.len() {
                        assert(self.table@[s.kind as int].decay.wf());
                    }
                }
                self.put_base(
                    *s,
                    Some(Factor::Decay { value: amount, target: 0, policy: pol.decay }),
                );
                Ok(amount)
            },
            Some(Factor::Constant(c)) => {
                self.put_base(*s, Some(Factor::Constant(amount)));
                Ok(amount)
            },
            Some(Factor::Decay { value, target, policy }) => {
                proof {
                    assert(old(self).factors@[*s].wf());
                }
                self.put_base(*s, Some(Factor::Decay { value: amount, target, policy }));
                Ok(amount)
            },
        }
    }

    /// Remove the factor stored for `s` entirely, returning its current
    /// value so the caller can act on it exactly once; reads of `s`
    /// afterwards resolve to the kind's default again (and a later
    /// `add_factor` recreates the subject from scratch). Propagates like
    /// every other mutation. Fails exactly on formula-backed subjects.
    pub fn clear_factor(&mut self, s: &Subject) -> (r: Result<i64, FactorError>)
        requires
            old(self).wf(),
        ensures
            final(self).wf(),
            final(self).formulas() == old(self).formulas(),
            final(self).policy_table() == old(self).policy_table(),
            match r {
                Err(e) => e == FactorError::FormulaBacked && !old(self).is_base_subject(*s)
                    && *final(self) == *old(self),
                Ok(v) => {
                    &&& old(self).is_base_subject(*s)
                    &&& v as int == old(self).subject_value(*s)
                    &&& final(self).factor_map() == old(self).factor_map().remove(*s)
                    &&& final(self).subject_value(*s) == old(self).default_of(*s)
                    &&& forall|t: Subject|
                        t != *s && old(self).is_base_subject(t) ==> #[trigger] final(self).subject_value(t) == old(self).subject_value(t)
                    &&& forall|i: int|
                        0 <= i < old(self).n() && #[trigger] old(self).is_leaf(i) ==> final(self).cached_of(i) == old(self).cached_of(i)
                    &&& forall|i: int|
                        #[trigger] old(self).formula_reads(i, *s) && old(self).is_leaf(i) ==> final(self).is_dirty(i)
                },
            },
    {
        let fopt = self.factor_of(s);
        match fopt {
            Some(Factor::Formula(_)) => Err(FactorError::FormulaBacked),
            None => {
                let prev = self.default_value_of(s);
                self.put_base(*s, None);
                Ok(prev)
            },
            Some(Factor::Constant(c)) => {
                self.put_base(*s, None);
                Ok(c)
            },
            Some(Factor::Decay { value, target, policy }) => {
                self.put_base(*s, None);
                Ok(value)
            },
        }
    }

    /// Store a base factor for a fresh subject: a constant, or a
    /// decaying value with an explicit target and policy. Rejects
    /// formula variants (formula backings are created only by
    /// registration), out-of-range decay rates, and subjects that
    /// already hold any factor — a subject's variant never switches.
    pub fn insert_factor(&mut self, s: &Subject, f: Factor) -> (r: Result<(), FactorError>)
        requires
            old(self).wf(),
        ensures
            final(self).wf(),
            final(self).formulas() == old(self).formulas(),
            final(self).policy_table() == old(self).policy_table(),
            match r {
                Err(e) => {
                    &&& *final(self) == *old(self)
                    &&& (e == FactorError::FormulaBacked <==> f is Formula)
                    &&& (e == FactorError::InvalidDecay <==> !(f is Formula) && !f.wf())
                    &&& (e == FactorError::AlreadyPresent <==> !(f is Formula) && f.wf() && old(self).factor_map().dom().contains(*s))
                },
                Ok(u) => {
                    &&& !(f is Formula) && f.wf() && !old(self).factor_map().dom().contains(*s)
                    &&& final(self).factor_map() == old(self).factor_map().insert(*s, f)
                    &&& final(self).subject_value(*s) == f.stored()
                    &&& forall|t: Subject|
                        t != *s && old(self).is_base_subject(t) ==> #[trigger] final(self).subject_value(t) == old(self).subject_value(t)
                    &&& forall|i: int|
                        0 <= i < old(self).n() && #[trigger] old(self).is_leaf(i) ==> final(self).cached_of(i) == old(self).cached_of(i)
                    &&& forall|i: int|
                        #[trigger] old(self).formula_reads(i, *s) && old(self).is_leaf(i) ==> final(self).is_dirty(i)
                },
            },
    {
        let wf_arg = match f {
            Factor::Formula(_) => {
                return Err(FactorError::FormulaBacked);
            },
            Factor::Constant(_) => true,
            Factor::Decay { value, target, policy } => policy.is_wf(),
        };
        if !wf_arg {
            return Err(FactorError::InvalidDecay);
        }
        match self.factor_of(s) {
            Some(_) => Err(FactorError::AlreadyPresent),
            None => {
                self.put_base(*s, Some(f));
                Ok(())
            },
        }
    }

    /// One decay tick over the whole graph: every decaying factor steps
    /// toward its target per its policy (never crossing it), constants
    /// and formula backings are untouched, and each change propagates
    /// through its dependent formulas exactly as an `add_factor` would.
    /// Run once per simulated day or month boundary.
    #[verifier::loop_isolation(false)]
    pub fn decay_tick(&mut self)
        requires
            old(self).wf(),
        ensures
            final(self).wf(),
            final(self).formulas() == old(self).formulas(),
            final(self).policy_table() == old(self).policy_table(),
            final(self).factor_map().dom() == old(self).factor_map().dom(),
            forall|t: Subject|
                #[trigger] old(self).factor_map().dom().contains(t) ==> final(self).factor_map()[t]
                    == decayed_factor(old(self).factor_map()[t]),
            forall|i: int|
                0 <= i < old(self).n() && #[trigger] old(self).is_leaf(i)
                    ==> final(self).cached_of(i) == old(self).cached_of(i),
    {
        let ghost orig = *self;
        let m = self.factors.len();
        let mut idx: usize = 0;
        while idx < m
            invariant
                idx <= m,
                m == orig.factors.entries().len(),
                self.formulae == orig.formulae,
                self.input_map == orig.input_map,
                self.table == orig.table,
                self.formula_values@.len() == orig.formula_values@.len(),
                self.wf(),
                self.factors.entries().len() == m,
                forall|j: int|
                    0 <= j < idx ==> (#[trigger] self.factors.entries()[j]).0
                        == orig.factors.entries()[j].0 && self.factors.entries()[j].1
                        == decayed_factor(orig.factors.entries()[j].1),
                forall|j: int|
                    idx <= j < m ==> #[trigger] self.factors.entries()[j]
                        == orig.factors.entries()[j],
                forall|i: int|
                    0 <= i < orig.n() && #[trigger] orig.is_leaf(i) ==> self.cached_of(i)
                        == orig.cached_of(i),
            decreases m - idx,
        {
            let s = self.factors.key_at(idx);
            proof {
                self.factors.lemma_entry_in_view(idx as int);
            }
            let fopt = self.factor_of(&s);
            match fopt {
                Some(Factor::Decay { value, target, policy }) => {
                    proof {
                        assert(self.factors@[s].wf());
                    }
                    let nv = decay_value(value, target, policy);
                    if nv != value {
                        let ghost pre = *self;
                        proof {
                            Self::lemma_reads_congruent(orig, pre);
                        }
                        self.put_base(s, Some(Factor::Decay { value: nv, target, policy }));
                        proof {
                            let post = *self;
                            let i = choose|i: int|
                                0 <= i < pre.factors.entries().len() && (
                                #[trigger] pre.factors.entries()[i]).0 == s
                                    && post.factors.entries() == pre.factors.entries().update(
                                    i,
                                    (s, Factor::Decay { value: nv, target, policy }),
                                );
                            assert(pre.factors.entries()[idx as int].0 == s);
                            if i < idx as int {
                                pre.factors.lemma_keys_unique(i, idx as int);
                                assert(false);
                            }
                            if i > idx as int {
                                pre.factors.lemma_keys_unique(idx as int, i);
                                assert(false);
                            }
                            assert forall|j: int|
                                0 <= j < idx + 1 implies (#[trigger] post.factors.entries()[j]).0
                                == orig.factors.entries()[j].0 && post.factors.entries()[j].1
                                == decayed_factor(orig.factors.entries()[j].1) by {
                                if j == idx as int {
                                    assert(orig.factors.entries()[j].1 == Factor::Decay {
                                        value,
                                        target,
                                        policy,
                                    });
                                }
                            }
                            assert forall|i2: int|
                                0 <= i2 < orig.n() && #[trigger] orig.is_leaf(i2) implies post.cached_of(
                            i2) == orig.cached_of(i2) by {
                                assert(pre.is_leaf(i2));
                                assert(pre.cached_of(i2) == orig.cached_of(i2));
                            }
                        }
                    } else {
                        proof {
                            assert(decayed_factor(orig.factors.entries()[idx as int].1)
                                == orig.factors.entries()[idx as int].1);
                        }
                    }
                },
                _ => {
                    proof {
                        assert(decayed_factor(orig.factors.entries()[idx as int].1)
                            == orig.factors.entries()[idx as int].1);
                    }
                },
            }
            idx = idx + 1;
        }
        proof {
            let fin = *self;
            assert forall|t: Subject| #[trigger]
                orig.factor_map().dom().contains(t) implies fin.factor_map().dom().contains(t)
                && fin.factor_map()[t] == decayed_factor(orig.factor_map()[t]) by {
                orig.factors.lemma_view_dom(t);
                let j = choose|j: int|
                    0 <= j < orig.factors.entries().len() && (#[trigger] orig.factors.entries()[j]).0
                        == t;
                orig.factors.lemma_entry_in_view(j);
                fin.factors.lemma_entry_in_view(j);
            }
            assert forall|t: Subject| #[trigger]
                fin.factor_map().dom().contains(t) implies orig.factor_map().dom().contains(
            t) by {
                fin.factors.lemma_view_dom(t);
                let j = choose|j: int|
                    0 <= j < fin.factors.entries().len() && (#[trigger] fin.factors.entries()[j]).0
                        == t;
                orig.factors.lemma_entry_in_view(j);
            }
            assert(fin.factor_map().dom() =~= orig.factor_map().dom());
        }
    }

    // ------------------------------------------------------------------
    // Formula registration.

    /// Registering a fresh formula leaves every other subject's value in
    /// place (bound-indexed form, subjects other than the new output).
    proof fn lemma_register_value(pre: FormulaSystem, post: FormulaSystem, out: Subject, s: Subject, bound: nat)
        requires
            Self::register_shift(pre, post, out),
            s != out,
            bound <= pre.n(),
        ensures
            post.value_upto(s, bound) == pre.value_upto(s, bound),
        decreases bound, 0int, 0int,
    {
        if pre.factor_map().dom().contains(s) {
            match pre.factor_map()[s] {
                Factor::Formula(id) => {
                    if id.0 < bound && (id.0 as int) < pre.n() {
                        Self::lemma_register_formula_value(pre, post, out, id.0 as int);
                    }
                },
                _ => {},
            }
        }
    }

    /// The two states a registration relates: the new output is fresh,
    /// nothing reads it yet, and everything else is shared.
    spec fn register_shift(pre: FormulaSystem, post: FormulaSystem, out: Subject) -> bool {
        &&& pre.wf_structure()
        &&& post.formulae@.len() == pre.formulae@.len() + 1
        &&& forall|i: int| 0 <= i < pre.n() ==> #[trigger] post.formulae@[i] == pre.formulae@[i]
        &&& forall|t: Subject|
            t != out ==> (#[trigger] post.factor_map().dom().contains(t) == pre.factor_map().dom(
            ).contains(t) && (pre.factor_map().dom().contains(t) ==> post.factor_map()[t]
                == pre.factor_map()[t]))
        &&& !pre.factor_map().dom().contains(out)
        &&& post.table == pre.table
        &&& forall|i: int| !(#[trigger] pre.formula_reads(i, out))
    }

    /// Old formulas evaluate unchanged after a registration.
    proof fn lemma_register_formula_value(pre: FormulaSystem, post: FormulaSystem, out: Subject, i: int)
        requires
            Self::register_shift(pre, post, out),
            0 <= i < pre.n(),
        ensures
            post.formula_value_at(i) == pre.formula_value_at(i),
        decreases i, 1int, 0int,
    {
        assert(post.formulae@[i] == pre.formulae@[i]);
        assert forall|k: int| 0 <= k < pre.formulae@[i].inputs@.len() implies (
        #[trigger] pre.formulae@[i].inputs@[k]) != out by {
            if pre.formulae@[i].inputs@[k] == out {
                assert(pre.formulae@[i].inputs@.contains(out));
                assert(pre.formula_reads(i, out));
            }
        }
        Self::lemma_register_args(pre, post, out, pre.formulae@[i].inputs@, i as nat);
    }

    /// Old input lists evaluate unchanged after a registration.
    proof fn lemma_register_args(pre: FormulaSystem, post: FormulaSystem, out: Subject, inputs: Seq<Subject>, bound: nat)
        requires
            Self::register_shift(pre, post, out),
            forall|k: int| 0 <= k < inputs.len() ==> (#[trigger] inputs[k]) != out,
            bound <= pre.n(),
        ensures
            post.args_upto(inputs, bound) == pre.args_upto(inputs, bound),
        decreases bound, 0int, inputs.len(),
    {
        if inputs.len() > 0 {
            Self::lemma_register_args(pre, post, out, inputs.drop_last(), bound);
            Self::lemma_register_value(pre, post, out, inputs.last(), bound);
        }
    }

    /// Register a formula: append it under the next dense id, back its
    /// output subject by it, index it under every input, and store an
    /// eagerly computed initial result as a clean cache entry. The
    /// initial evaluation goes through the unified read path, so dirty
    /// leaf inputs are repaired on the way.
    ///
    /// Registration is rejected — leaving the engine unchanged — when
    /// the function shape is malformed or lacks inputs, when the output
    /// subject already holds any factor (variants never switch), when a
    /// registered formula already reads the output subject, or when the
    /// formula reads its own output; the last three checks keep the
    /// dependency graph acyclic by construction, so propagation always
    /// terminates.
    #[verifier::loop_isolation(false)]
    pub fn add_formula(&mut self, formula: Formula) -> (r: Result<FormulaId, RegisterError>)
        requires
            old(self).wf(),
        ensures
            final(self).wf(),
            final(self).policy_table() == old(self).policy_table(),
            match r {
                Err(e) => {
                    &&& *final(self) == *old(self)
                    &&& (e == RegisterError::InvalidFunction <==> !formula.inner_fn.wf())
                    &&& (e == RegisterError::MissingInputs <==> formula.inner_fn.wf() && !(
                    formula.inner_fn.min_inputs() <= formula.inputs@.len()))
                    &&& (e == RegisterError::OutputDefined <==> formula.wf() && old(
                        self,
                    ).factor_map().dom().contains(formula.subject))
                    &&& (e == RegisterError::OutputInUse <==> formula.wf() && !old(
                        self,
                    ).factor_map().dom().contains(formula.subject) && old(self).has_reader(
                        formula.subject,
                    ))
                    &&& (e == RegisterError::SelfInput <==> formula.wf() && !old(
                        self,
                    ).factor_map().dom().contains(formula.subject) && !old(self).has_reader(
                        formula.subject,
                    ) && formula.inputs@.contains(formula.subject))
                },
                Ok(id) => {
                    &&& formula.wf()
                    &&& !old(self).factor_map().dom().contains(formula.subject)
                    &&& !old(self).has_reader(formula.subject)
                    &&& !formula.inputs@.contains(formula.subject)
                    &&& id.0 as int == old(self).n()
                    &&& final(self).formulas() == old(self).formulas().push(formula)
                    &&& final(self).factor_map() == old(self).factor_map().insert(
                        formula.subject,
                        Factor::Formula(id),
                    )
                    &&& final(self).subject_value(formula.subject) == eval_fn(
                        formula.inner_fn,
                        formula.inputs@.map_values(|t: Subject| old(self).subject_value(t)),
                    )
                    &&& forall|t: Subject|
                        t != formula.subject ==> #[trigger] final(self).subject_value(t) == old(
                            self,
                        ).subject_value(t)
                },
            },
    {
        if !formula.inner_fn.is_wf() {
            return Err(RegisterError::InvalidFunction);
        }
        let arity_ok = match formula.inner_fn {
            FormulaFn::Sum => true,
            FormulaFn::Ratio { num, den } => formula.inputs.len() >= 1,
            FormulaFn::Clamp { lo, hi } => formula.inputs.len() >= 1,
        };
        if !arity_ok {
            return Err(RegisterError::MissingInputs);
        }
        match self.factor_of(&formula.subject) {
            Some(_) => {
                return Err(RegisterError::OutputDefined);
            },
            None => {},
        }
        if self.has_reader_exec(&formula.subject) {
            return Err(RegisterError::OutputInUse);
        }
        let mut k: usize = 0;
        while k < formula.inputs.len()
            invariant
                k <= formula.inputs@.len(),
                forall|j: int| 0 <= j < k ==> (#[trigger] formula.inputs@[j]) != formula.subject,
            decreases formula.inputs@.len() - k,
        {
            if formula.inputs[k] == formula.subject {
                proof {
                    assert(formula.inputs@.contains(formula.subject));
                }
                return Err(RegisterError::SelfInput);
            }
            k = k + 1;
        }
        proof {
            if formula.inputs@.contains(formula.subject) {
                let j = choose|j: int|
                    0 <= j < formula.inputs@.len() && formula.inputs@[j] == formula.subject;
                assert(false);
            }
        }
        // Gather the initial input values through the unified read path.
        let ghost orig = *old(self);
        let mut vals: Vec<i64> = Vec::new();
        let mut g: usize = 0;
        while g < formula.inputs.len()
            invariant
                g <= formula.inputs@.len(),
                vals@.len() == g,
                self.wf(),
                self.factor_map() == orig.factor_map(),
                self.formulas() == orig.formulas(),
                self.policy_table() == orig.policy_table(),
                self.formula_values@.len() == orig.formula_values@.len(),
                forall|t: Subject| #[trigger] self.subject_value(t) == orig.subject_value(t),
                forall|j: int|
                    0 <= j < g ==> vals@[j] as int == orig.subject_value(
                        #[trigger] formula.inputs@[j],
                    ),
                forall|j: int|
                    0 <= j < g ==> self.obs(#[trigger] formula.inputs@[j]) == vals@[j] as int,
                forall|j: int|
                    0 <= j < g ==> ((self.factor_map().dom().contains(#[trigger] formula.inputs@[j])
                        && self.factor_map()[formula.inputs@[j]] is Formula) ==> !self.is_dirty(
                        self.factor_map()[formula.inputs@[j]]->Formula_0.0 as int,
                    )),
            decreases formula.inputs@.len() - g,
        {
            let ghost at_call = *self;
            let v = self.get_factor(&formula.inputs[g]);
            vals.push(v);
            proof {
                assert forall|j: int|
                    0 <= j < g implies self.obs(#[trigger] formula.inputs@[j]) == at_call.obs(
                    formula.inputs@[j],
                ) && ((self.factor_map().dom().contains(formula.inputs@[j])
                    && self.factor_map()[formula.inputs@[j]] is Formula) ==> !self.is_dirty(
                    self.factor_map()[formula.inputs@[j]]->Formula_0.0 as int,
                )) by {
                    let t = formula.inputs@[j];
                    if at_call.factor_map().dom().contains(t) {
                        match at_call.factor_map()[t] {
                            Factor::Formula(idb) => {
                                assert(at_call.factors@.dom().contains(t));
                                assert((idb.0 as int) < at_call.n());
                                assert(!at_call.is_dirty(idb.0 as int));
                                assert(!self.is_dirty(idb.0 as int) && self.cached_of(idb.0 as int)
                                    == at_call.cached_of(idb.0 as int));
                            },
                            _ => {},
                        }
                    }
                }
            }
            g = g + 1;
        }
        // Commit: compute the initial value, index the inputs, back the
        // output, store the cache entry and append the formula.
        let value = formula.calc(&vals);
        let idx = self.formulae.len();
        let id = FormulaId(idx);
        let ghost mid = *self;
        let mut w: usize = 0;
        while w < formula.inputs.len()
            invariant
                w <= formula.inputs@.len(),
                self.factors == mid.factors,
                self.formulae == mid.formulae,
                self.table == mid.table,
                self.formula_values == mid.formula_values,
                self.input_map.wf(),
                mid.wf(),
                idx as int == mid.n(),
                forall|t: Subject|
                    #[trigger] seen_in(formula.inputs@, w as int, t)
                        ==> (self.input_map@.dom().contains(t) && self.input_map@[t]@ == (
                    if mid.input_map@.dom().contains(t) {
                        mid.input_map@[t]@
                    } else {
                        Seq::<FormulaId>::empty()
                    }).push(FormulaId(idx))),
                forall|t: Subject|
                    !(#[trigger] seen_in(formula.inputs@, w as int, t))
                        ==> (self.input_map@.dom().contains(t) == mid.input_map@.dom().contains(t)
                        && (mid.input_map@.dom().contains(t) ==> self.input_map@[t]@
                        == mid.input_map@[t]@)),
            decreases formula.inputs@.len() - w,
        {
            let inp = formula.inputs[w];
            let cur = self.dependents_vec(&inp);
            let seen = cur.len() > 0 && cur[cur.len() - 1].0 == idx;
            proof {
                if seen_in(formula.inputs@, w as int, inp) {
                    assert(seen);
                } else {
                    if self.input_map@.dom().contains(inp) {
                        assert(mid.input_map@.dom().contains(inp));
                        assert(cur@ == mid.input_map@[inp]@);
                        if cur@.len() > 0 {
                            assert(mid.formula_reads(
                                mid.input_map@[inp]@[cur@.len() - 1].0 as int,
                                inp,
                            ));
                            assert((cur@[cur@.len() - 1].0 as int) < mid.n());
                        }
                    }
                    assert(!seen);
                }
            }
            let ghost pre_w = *self;
            if !seen {
                let mut nl = cur;
                nl.push(FormulaId(idx));
                self.input_map.insert(inp, nl);
            }
            proof {
                assert(seen_in(formula.inputs@, w as int + 1, inp)) by {
                    assert(formula.inputs@[w as int] == inp);
                }
                assert forall|t: Subject| #[trigger]
                    seen_in(formula.inputs@, w as int + 1, t) implies (self.input_map@.dom(
                ).contains(t) && self.input_map@[t]@ == (if mid.input_map@.dom().contains(t) {
                    mid.input_map@[t]@
                } else {
                    Seq::<FormulaId>::empty()
                }).push(FormulaId(idx))) by {
                    let j0 = choose|j: int| 0 <= j < w as int + 1 && formula.inputs@[j] == t;
                    if seen_in(formula.inputs@, w as int, t) {
                        assert(pre_w.input_map@.dom().contains(t) && pre_w.input_map@[t]@ == (
                        if mid.input_map@.dom().contains(t) {
                            mid.input_map@[t]@
                        } else {
                            Seq::<FormulaId>::empty()
                        }).push(FormulaId(idx)));
                        if !seen {
                            assert(t != inp) by {
                                if t == inp {
                                    assert(seen_in(formula.inputs@, w as int, inp));
                                }
                            }
                        }
                    } else {
                        assert(j0 == w as int && t == inp) by {
                            if j0 < w as int {
                                assert(seen_in(formula.inputs@, w as int, t));
                            }
                        }
                        assert(!seen);
                        assert(cur@ == (if mid.input_map@.dom().contains(inp) {
                            mid.input_map@[inp]@
                        } else {
                            Seq::<FormulaId>::empty()
                        }));
                    }
                }
                assert forall|t: Subject|
                    !(#[trigger] seen_in(formula.inputs@, w as int + 1, t)) implies (
                self.input_map@.dom().contains(t) == mid.input_map@.dom().contains(t) && (
                mid.input_map@.dom().contains(t) ==> self.input_map@[t]@
                    == mid.input_map@[t]@)) by {
                    assert(t != inp);
                    assert(!seen_in(formula.inputs@, w as int, t)) by {
                        if seen_in(formula.inputs@, w as int, t) {
                            let j1 = choose|j: int|
                                0 <= j < w as int && formula.inputs@[j] == t;
                            assert(seen_in(formula.inputs@, w as int + 1, t));
                        }
                    }
                }
            }
            w = w + 1;
        }
        self.factors.insert(formula.subject, Factor::Formula(id));
        self.formula_values.push(FormulaValue { cached: value, dirty: false });
        let ghost gformula = formula;
        self.formulae.push(formula);
        proof {
            let len = gformula.inputs@.len() as int;
            assert forall|t: Subject|
                #![auto]
                gformula.inputs@.contains(t) implies (self.input_map@.dom().contains(t)
                && self.input_map@[t]@ == (if mid.input_map@.dom().contains(t) {
                mid.input_map@[t]@
            } else {
                Seq::<FormulaId>::empty()
            }).push(FormulaId(idx))) by {
                let j = choose|j: int| 0 <= j < len && gformula.inputs@[j] == t;
                assert(seen_in(gformula.inputs@, len, t));
            }
            assert forall|t: Subject|
                #![auto]
                !gformula.inputs@.contains(t) implies (self.input_map@.dom().contains(t)
                == mid.input_map@.dom().contains(t) && (mid.input_map@.dom().contains(t)
                ==> self.input_map@[t]@ == mid.input_map@[t]@)) by {
                assert(!seen_in(gformula.inputs@, len, t)) by {
                    if seen_in(gformula.inputs@, len, t) {
                        let j = choose|j: int| 0 <= j < len && gformula.inputs@[j] == t;
                        assert(gformula.inputs@.contains(t));
                    }
                }
            }
            self.lemma_register_commit(
                orig,
                mid,
                gformula,
                vals@.map_values(|x: i64| x as int),
                value,
                idx,
            );
        }
        Ok(id)
    }

    /// The commit step of a registration: from the gathered input values
    /// and the freshly written structures, the whole invariant holds
    /// again and the value model shifts exactly by the new formula.
    proof fn lemma_register_commit(
        self,
        orig: FormulaSystem,
        mid: FormulaSystem,
        f: Formula,
        vals: Seq<int>,
        value: i64,
        idx: usize,
    )
        requires
            orig.wf(),
            mid.wf(),
            mid.factor_map() == orig.factor_map(),
            mid.formulas() == orig.formulas(),
            mid.policy_table() == orig.policy_table(),
            forall|t: Subject| #[trigger] mid.subject_value(t) == orig.subject_value(t),
            f.inner_fn.wf(),
            f.inner_fn.min_inputs() <= f.inputs@.len(),
            !orig.factor_map().dom().contains(f.subject),
            !orig.has_reader(f.subject),
            !f.inputs@.contains(f.subject),
            idx as int == mid.n(),
            vals.len() == f.inputs@.len(),
            value as int == eval_fn(f.inner_fn, vals),
            forall|j: int|
                0 <= j < f.inputs@.len() ==> mid.obs(#[trigger] f.inputs@[j]) == vals[j],
            forall|j: int|
                0 <= j < f.inputs@.len() ==> vals[j] == orig.subject_value(
                    #[trigger] f.inputs@[j],
                ),
            forall|j: int|
                0 <= j < f.inputs@.len() ==> ((mid.factor_map().dom().contains(
                    #[trigger] f.inputs@[j],
                ) && mid.factor_map()[f.inputs@[j]] is Formula) ==> !mid.is_dirty(
                    mid.factor_map()[f.inputs@[j]]->Formula_0.0 as int,
                )),
            self.formulae@ == mid.formulae@.push(f),
            self.factors@ == mid.factors@.insert(f.subject, Factor::Formula(FormulaId(idx))),
            self.factors.wf(),
            self.formula_values@ == mid.formula_values@.push(
                FormulaValue { cached: value, dirty: false },
            ),
            self.table == mid.table,
            self.input_map.wf(),
            forall|t: Subject|
                #![auto]
                f.inputs@.contains(t) ==> (self.input_map@.dom().contains(t)
                    && self.input_map@[t]@ == (if mid.input_map@.dom().contains(t) {
                    mid.input_map@[t]@
                } else {
                    Seq::<FormulaId>::empty()
                }).push(FormulaId(idx))),
            forall|t: Subject|
                #![auto]
                !f.inputs@.contains(t) ==> (self.input_map@.dom().contains(t)
                    == mid.input_map@.dom().contains(t) && (mid.input_map@.dom().contains(t)
                    ==> self.input_map@[t]@ == mid.input_map@[t]@)),
        ensures
            self.wf(),
            self.policy_table() == orig.policy_table(),
            self.formulas() == orig.formulas().push(f),
            self.factor_map() == orig.factor_map().insert(
                f.subject,
                Factor::Formula(FormulaId(idx)),
            ),
            self.subject_value(f.subject) == eval_fn(
                f.inner_fn,
                f.inputs@.map_values(|t: Subject| orig.subject_value(t)),
            ),
            forall|t: Subject|
                t != f.subject ==> #[trigger] self.subject_value(t) == orig.subject_value(t),
    {
        let n = mid.n();
        let fin = self;
        let out = f.subject;
        let nid = FormulaId(idx);
        assert(fin.n() == n + 1);
        assert(forall|i: int| 0 <= i < n ==> #[trigger] fin.formulae@[i] == mid.formulae@[i]);
        assert(fin.formulae@[n] == f);
        assert(!mid.factor_map().dom().contains(out));
        assert(!mid.has_reader(out)) by {
            if mid.has_reader(out) {
                let i = choose|i: int| mid.formula_reads(i, out);
                assert(orig.formula_reads(i, out));
                assert(orig.has_reader(out));
            }
        }
        // Who reads whom, in the new state.
        assert forall|i: int, t: Subject| #[trigger]
            fin.formula_reads(i, t) implies (if i < n {
            mid.formula_reads(i, t)
        } else {
            i == n && f.inputs@.contains(t)
        }) by {}
        assert forall|i: int, t: Subject|
            0 <= i < n && #[trigger] mid.formula_reads(i, t) implies fin.formula_reads(i, t) by {}
        // Structural clauses.
        assert forall|t: Subject| #[trigger] fin.factors@.dom().contains(t) implies fin.factors@[
        t].wf() by {
            if t != out {
                assert(mid.factors@.dom().contains(t));
            }
        }
        assert forall|t: Subject| #[trigger] fin.factors@.dom().contains(t) implies (
        fin.factors@[t] matches Factor::Formula(id2) ==> (id2.0 as int) < fin.n()
            && fin.formulae@[id2.0 as int].subject == t) by {
            if t != out {
                assert(mid.factors@.dom().contains(t));
                if mid.factors@[t] is Formula {
                    let id2 = mid.factors@[t]->Formula_0;
                    assert((id2.0 as int) < n);
                    assert(fin.formulae@[id2.0 as int] == mid.formulae@[id2.0 as int]);
                }
            }
        }
        assert forall|i: int| 0 <= i < fin.n() implies {
            &&& (#[trigger] fin.formulae@[i]).wf()
            &&& fin.factors@.dom().contains(fin.formulae@[i].subject)
            &&& (fin.factors@[fin.formulae@[i].subject] matches Factor::Formula(id2) && id2.0 as int
                == i)
        } by {
            if i < n {
                let t = mid.formulae@[i].subject;
                assert(mid.formulae@[i].wf());
                assert(mid.factors@.dom().contains(t));
                assert(mid.factors@[t] matches Factor::Formula(id2) && id2.0 as int == i);
                assert(t != out);
                assert(fin.factors@[t] == mid.factors@[t]);
            } else {
                assert(fin.formulae@[i] == f);
                assert(fin.factors@[out] == Factor::Formula(nid));
            }
        }
        assert forall|i: int, k: int|
            0 <= i < fin.n() && 0 <= k < fin.formulae@[i].inputs@.len() implies fin.rank(
            #[trigger] fin.formulae@[i].inputs@[k],
        ) <= i by {
            if i < n {
                let t = mid.formulae@[i].inputs@[k];
                assert(mid.rank(t) <= i);
                if t == out {
                    assert(t == mid.formulae@[i].inputs@[k]);
                    assert(mid.formulae@[i].inputs@.contains(t));
                    assert(mid.formula_reads(i, out));
                    assert(orig.formula_reads(i, out));
                    assert(false);
                }
                assert(fin.factors@.dom().contains(t) == mid.factors@.dom().contains(t));
                if mid.factors@.dom().contains(t) {
                    assert(fin.factors@[t] == mid.factors@[t]);
                }
            } else {
                let t = f.inputs@[k];
                assert(t != out) by {
                    if t == out {
                        assert(f.inputs@.contains(out));
                    }
                }
                if mid.factors@.dom().contains(t) {
                    assert(fin.factors@[t] == mid.factors@[t]);
                    if mid.factors@[t] is Formula {
                        let id2 = mid.factors@[t]->Formula_0;
                        assert((id2.0 as int) < n);
                    }
                }
            }
        }
        // Dependency index clauses.
        assert forall|t: Subject|
            (#[trigger] fin.input_map@.dom().contains(t)) <==> (#[trigger] fin.has_reader(
                t,
            )) by {
            if f.inputs@.contains(t) {
                assert(fin.formula_reads(n, t));
                assert(fin.has_reader(t));
                assert(fin.input_map@.dom().contains(t));
            } else {
                assert(fin.input_map@.dom().contains(t) == mid.input_map@.dom().contains(t));
                assert(mid.input_map@.dom().contains(t) <==> mid.has_reader(t));
                if fin.has_reader(t) {
                    let i = choose|i: int| fin.formula_reads(i, t);
                    assert(i < n);
                    assert(mid.formula_reads(i, t));
                    assert(mid.has_reader(t));
                }
                if mid.has_reader(t) {
                    let i = choose|i: int| mid.formula_reads(i, t);
                    assert(fin.formula_reads(i, t));
                    assert(fin.has_reader(t));
                }
            }
        }
        assert forall|t: Subject, k: int|
            fin.input_map@.dom().contains(t) && 0 <= k < fin.input_map@[t]@.len() implies fin.formula_reads(
            (#[trigger] fin.input_map@[t]@[k]).0 as int,
            t,
        ) by {
            if f.inputs@.contains(t) {
                let base = if mid.input_map@.dom().contains(t) {
                    mid.input_map@[t]@
                } else {
                    Seq::<FormulaId>::empty()
                };
                assert(fin.input_map@[t]@ == base.push(nid));
                if k < base.len() {
                    assert(mid.input_map@.dom().contains(t));
                    assert(mid.formula_reads((mid.input_map@[t]@[k]).0 as int, t));
                    assert(fin.input_map@[t]@[k] == mid.input_map@[t]@[k]);
                } else {
                    assert(fin.input_map@[t]@[k] == nid);
                    assert(fin.formula_reads(n, t));
                }
            } else {
                assert(mid.input_map@.dom().contains(t));
                assert(fin.input_map@[t]@ == mid.input_map@[t]@);
                assert(mid.formula_reads((mid.input_map@[t]@[k]).0 as int, t));
            }
        }
        assert forall|t: Subject, i: int| #[trigger] fin.formula_reads(i, t) implies
            fin.input_map@.dom().contains(t) && exists|k: int|
            0 <= k < fin.input_map@[t]@.len() && (#[trigger] fin.input_map@[t]@[k]).0 == i by {
            if i < n {
                assert(mid.formula_reads(i, t));
                let k = choose|k: int|
                    0 <= k < mid.input_map@[t]@.len() && (#[trigger] mid.input_map@[t]@[k]).0 == i;
                if f.inputs@.contains(t) {
                    let base = mid.input_map@[t]@;
                    assert(fin.input_map@[t]@ == base.push(nid));
                    assert(fin.input_map@[t]@[k].0 == i);
                } else {
                    assert(fin.input_map@[t]@[k].0 == i);
                }
            } else {
                assert(i == n && f.inputs@.contains(t));
                let base = if mid.input_map@.dom().contains(t) {
                    mid.input_map@[t]@
                } else {
                    Seq::<FormulaId>::empty()
                };
                assert(fin.input_map@[t]@ == base.push(nid));
                assert(fin.input_map@[t]@[base.len() as int].0 == i);
            }
        }
        assert forall|t: Subject, k1: int, k2: int|
            fin.input_map@.dom().contains(t) && 0 <= k1 < k2 < fin.input_map@[t]@.len() implies (
        #[trigger] fin.input_map@[t]@[k1]).0 < (#[trigger] fin.input_map@[t]@[k2]).0 by {
            if f.inputs@.contains(t) {
                let base = if mid.input_map@.dom().contains(t) {
                    mid.input_map@[t]@
                } else {
                    Seq::<FormulaId>::empty()
                };
                assert(fin.input_map@[t]@ == base.push(nid));
                if k2 < base.len() {
                    assert(mid.input_map@[t]@[k1].0 < mid.input_map@[t]@[k2].0);
                } else {
                    assert(fin.input_map@[t]@[k2] == nid);
                    if k1 < base.len() {
                        assert(mid.formula_reads((mid.input_map@[t]@[k1]).0 as int, t));
                        assert((base[k1].0 as int) < n);
                    }
                }
            } else {
                assert(mid.input_map@[t]@[k1].0 < mid.input_map@[t]@[k2].0);
            }
        }
        assert(fin.wf_structure());
        // Observations off the new output are untouched.
        assert forall|t: Subject| t != out implies #[trigger] fin.obs(t) == mid.obs(t) by {
            if mid.factors@.dom().contains(t) {
                match mid.factors@[t] {
                    Factor::Formula(id2) => {
                        assert((id2.0 as int) < n);
                        assert(fin.factors@[t] == mid.factors@[t]);
                        assert(fin.formula_values@[id2.0 as int] == mid.formula_values@[id2.0 as int]);
                    },
                    _ => {
                        assert(fin.factors@[t] == mid.factors@[t]);
                    },
                }
            }
        }
        // Leaf-only dirtiness.
        assert forall|i: int| 0 <= i < fin.n() && #[trigger] fin.is_dirty(i) implies fin.is_leaf(
        i) by {
            assert(i < n);
            assert(mid.is_dirty(i));
            assert(mid.is_leaf(i));
            let oi = mid.formulae@[i].subject;
            assert(!mid.has_reader(oi));
            if fin.has_reader(oi) {
                let r = choose|r: int| fin.formula_reads(r, oi);
                if r < n {
                    assert(mid.formula_reads(r, oi));
                    assert(false);
                } else {
                    assert(f.inputs@.contains(oi));
                    let j = choose|j: int| 0 <= j < f.inputs@.len() && f.inputs@[j] == oi;
                    assert(mid.factor_map().dom().contains(oi));
                    assert(mid.factor_map()[oi] is Formula);
                    assert(mid.factor_map()[oi]->Formula_0.0 as int == i);
                    assert(!mid.is_dirty(i));
                    assert(false);
                }
            }
        }
        // Clean caches are consistent.
        assert forall|i: int|
            0 <= i < fin.n() && !(#[trigger] fin.is_dirty(i)) implies fin.cached_of(i) == eval_fn(
            fin.formulas()[i].inner_fn,
            fin.obs_args(fin.formulas()[i].inputs@),
        ) by {
            if i < n {
                assert(!mid.is_dirty(i));
                assert(mid.cached_of(i) == eval_fn(
                    mid.formulas()[i].inner_fn,
                    mid.obs_args(mid.formulas()[i].inputs@),
                ));
                let inputs = mid.formulae@[i].inputs@;
                assert forall|k: int| 0 <= k < inputs.len() implies fin.obs(#[trigger] inputs[k])
                    == mid.obs(inputs[k]) by {
                    if inputs[k] == out {
                        assert(inputs.contains(out));
                        assert(mid.formula_reads(i, out));
                        assert(orig.formula_reads(i, out));
                        assert(false);
                    }
                }
                assert(fin.obs_args(inputs) =~= mid.obs_args(inputs));
                assert(fin.cached_of(i) == mid.cached_of(i));
            } else {
                let inputs = f.inputs@;
                assert forall|k: int| 0 <= k < inputs.len() implies fin.obs(#[trigger] inputs[k])
                    == vals[k] by {
                    assert(inputs[k] != out) by {
                        if inputs[k] == out {
                            assert(inputs.contains(out));
                        }
                    }
                    assert(mid.obs(inputs[k]) == vals[k]);
                }
                assert(fin.obs_args(inputs) =~= vals);
                assert(fin.cached_of(i) == value as int);
            }
        }
        assert(fin.caches_ok_except(Set::empty()));
        // The value model: everything but the new output is preserved.
        assert(Self::register_shift(mid, fin, out)) by {
            assert forall|i: int| !(#[trigger] mid.formula_reads(i, out)) by {
                if mid.formula_reads(i, out) {
                    assert(orig.formula_reads(i, out));
                    assert(orig.has_reader(out));
                }
            }
            assert forall|t: Subject|
                t != out implies (#[trigger] fin.factor_map().dom().contains(t)
                == mid.factor_map().dom().contains(t) && (mid.factor_map().dom().contains(t)
                ==> fin.factor_map()[t] == mid.factor_map()[t])) by {}
        }
        assert forall|t: Subject|
            t != f.subject implies #[trigger] fin.subject_value(t) == orig.subject_value(t) by {
            assert(fin.rank(t) <= n) by {
                if fin.factors@.dom().contains(t) {
                    if fin.factors@[t] is Formula {
                        let id2 = fin.factors@[t]->Formula_0;
                        assert(fin.formulae@[id2.0 as int].subject == t);
                        if id2.0 as int == n {
                            assert(t == out);
                        }
                    }
                }
            }
            fin.lemma_upto_stable(t, fin.n() as nat, n as nat);
            Self::lemma_register_value(mid, fin, out, t, n as nat);
            assert(mid.value_upto(t, n as nat) == mid.subject_value(t));
        }
        // The new output's value is the formula over the gathered inputs.
        assert(fin.factors@[out] == Factor::Formula(nid));
        assert(fin.subject_value(out) == fin.formula_value_at(n));
        Self::lemma_register_args(mid, fin, out, f.inputs@, n as nat);
        mid.lemma_args_upto_index(f.inputs@, n as nat);
        assert forall|k: int| 0 <= k < f.inputs@.len() implies mid.value_upto(
            #[trigger] f.inputs@[k],
            n as nat,
        ) == orig.subject_value(f.inputs@[k]) by {
            assert(mid.value_upto(f.inputs@[k], n as nat) == mid.subject_value(f.inputs@[k]));
        }
        assert(mid.args_upto(f.inputs@, n as nat) =~= f.inputs@.map_values(
            |t: Subject| orig.subject_value(t),
        ));
        assert(fin.subject_value(out) == eval_fn(
            f.inner_fn,
            f.inputs@.map_values(|t: Subject| orig.subject_value(t)),
        ));
        // Whole-map claims.
        assert(fin.factor_map() =~= orig.factor_map().insert(out, Factor::Formula(nid)));
        assert(fin.formulas() =~= orig.formulas().push(f));
    }

    // ------------------------------------------------------------------
    // Construction.

    /// Create an engine over a per-kind policy table. Rejects tables
    /// holding an out-of-range decay rate, and otherwise starts empty:
    /// no factors, no formulas.
    pub fn new(table: Vec<KindPolicy>) -> (r: Result<FormulaSystem, FactorError>)
        ensures
            match r {
                Ok(sys) => {
                    &&& forall|k: int|
                        0 <= k < table@.len() ==> (#[trigger] table@[k]).decay.wf()
                    &&& sys.wf()
                    &&& sys.policy_table() == table@
                    &&& sys.factor_map() == Map::<Subject, Factor>::empty()
                    &&& sys.formulas().len() == 0
                },
                Err(e) => {
                    &&& e == FactorError::InvalidDecay
                    &&& exists|k: int| 0 <= k < table@.len() && !(#[trigger] table@[k]).decay.wf()
                },
            },
    {
        let mut k: usize = 0;
        while k < table.len()
            invariant
                k <= table@.len(),
                forall|j: int| 0 <= j < k ==> (#[trigger] table@[j]).decay.wf(),
            decreases table@.len() - k,
        {
            if !table[k].decay.is_wf() {
                return Err(FactorError::InvalidDecay);
            }
            k = k + 1;
        }
        let sys = FormulaSystem {
            table,
            factors: SubjectMap::new(),
            formulae: Vec::new(),
            input_map: SubjectMap::new(),
            formula_values: Vec::new(),
        };
        Ok(sys)
    }

    // ------------------------------------------------------------------
    // Small executable helpers over the graph.

    /// The declared default for a subject's kind.
    fn default_value_of(&self, s: &Subject) -> (r: i64)
        ensures
            r as int == self.default_of(*s),
    {
        if (s.kind as usize) < self.table.len() {
            self.table[s.kind as usize].default_value
        } else {
            0
        }
    }

    /// The per-kind policy for a subject.
    fn policy_of(&self, s: &Subject) -> (r: KindPolicy)
        ensures
            r == self.kind_policy(s.kind),
    {
        if (s.kind as usize) < self.table.len() {
            self.table[s.kind as usize]
        } else {
            KindPolicy { default_value: 0, decay: FactorDecay::NoDecay }
        }
    }

    /// The stored factor for a subject, if any.
    fn factor_of(&self, s: &Subject) -> (r: Option<Factor>)
        requires
            self.wf_structure(),
        ensures
            match r {
                Some(f) => self.factor_map().dom().contains(*s) && f == self.factor_map()[*s],
                None => !self.factor_map().dom().contains(*s),
            },
    {
        match self.factors.get(s) {
            Some(f) => Some(*f),
            None => None,
        }
    }

    /// The cache-trusting read every formula evaluation gathers inputs
    /// through.
    fn observe(&self, s: &Subject) -> (r: i64)
        requires
            self.wf_structure(),
        ensures
            r as int == self.obs(*s),
    {
        match self.factors.get(s) {
            Some(f) => match *f {
                Factor::Constant(v) => v,
                Factor::Decay { value, target, policy } => value,
                Factor::Formula(id) => {
                    assert((id.0 as int) < self.n());
                    self.formula_values[id.0].cached
                },
            },
            None => self.default_value_of(s),
        }
    }

    /// Gather the cache-trusting observations of a list of inputs.
    fn gather_obs(&self, inputs: &Vec<Subject>) -> (r: Vec<i64>)
        requires
            self.wf_structure(),
        ensures
            r@.len() == inputs@.len(),
            forall|k: int| 0 <= k < inputs@.len() ==> r@[k] as int == self.obs(inputs@[k]),
    {
        let mut out: Vec<i64> = Vec::new();
        let mut k: usize = 0;
        while k < inputs.len()
            invariant
                self.wf_structure(),
                k <= inputs@.len(),
                out@.len() == k,
                forall|j: int| 0 <= j < k ==> out@[j] as int == self.obs(inputs@[j]),
            decreases inputs@.len() - k,
        {
            let v = self.observe(&inputs[k]);
            out.push(v);
            k = k + 1;
        }
        out
    }

    /// Recompute formula `i`'s result from the current cache-trusting
    /// observations of its inputs.
    fn compute_formula(&self, i: usize) -> (r: i64)
        requires
            self.wf_structure(),
            i < self.n(),
        ensures
            r as int == eval_fn(
                self.formulas()[i as int].inner_fn,
                self.obs_args(self.formulas()[i as int].inputs@),
            ),
    {
        let args = self.gather_obs(&self.formulae[i].inputs);
        let r = self.formulae[i].calc(&args);
        proof {
            assert(args@.map_values(|x: i64| x as int) =~= self.obs_args(
                self.formulae@[i as int].inputs@,
            ));
        }
        r
    }

    /// Does any formula read `s`?
    fn has_reader_exec(&self, s: &Subject) -> (r: bool)
        requires
            self.wf_structure(),
        ensures
            r == self.has_reader(*s),
    {
        match self.input_map.get(s) {
            Some(_) => true,
            None => false,
        }
    }

    /// The formulas that read `s`, each exactly once, in registration
    /// order (ids strictly ascending). This is the dependency index's
    /// view of one subject.
    pub fn get_formulae(&self, s: &Subject) -> (r: Vec<FormulaId>)
        requires
            self.wf(),
        ensures
            forall|k: int| 0 <= k < r@.len() ==> self.formula_reads((#[trigger] r@[k]).0 as int, *s),
            forall|i: int|
                #[trigger] self.formula_reads(i, *s) ==> exists|k: int|
                    0 <= k < r@.len() && (#[trigger] r@[k]).0 == i,
            forall|k1: int, k2: int|
                0 <= k1 < k2 < r@.len() ==> (#[trigger] r@[k1]).0 < (#[trigger] r@[k2]).0,
    {
        self.dependents_vec(s)
    }

    /// Copy out the dependency list of `s` (empty when nothing reads it).
    fn dependents_vec(&self, s: &Subject) -> (r: Vec<FormulaId>)
        requires
            self.input_map.wf(),
        ensures
            r@ == if self.input_map@.dom().contains(*s) {
                self.input_map@[*s]@
            } else {
                Seq::<FormulaId>::empty()
            },
    {
        match self.input_map.get(s) {
            Some(list) => {
                let mut out: Vec<FormulaId> = Vec::new();
                let mut k: usize = 0;
                while k < list.len()
                    invariant
                        k <= list@.len(),
                        out@ == list@.take(k as int),
                    decreases list@.len() - k,
                {
                    out.push(list[k]);
                    proof {
                        assert(out@ =~= list@.take(k as int + 1));
                    }
                    k = k + 1;
                }
                proof {
                    assert(out@ =~= list@);
                }
                out
            },
            None => Vec::new(),
        }
    }

    /// The definition of a registered formula, by dense index.
    pub fn lookup(&self, id: FormulaId) -> (r: &Formula)
        requires
            self.wf(),
            (id.0 as int) < self.n(),
        ensures
            *r == self.formulas()[id.0 as int],
    {
        &self.formulae[id.0]
    }

    /// The formula backing `s`. Callers must know `s` is formula-backed;
    /// reads never need this, it only exposes the graph's shape.
    pub fn get_formula(&self, s: &Subject) -> (r: FormulaId)
        requires
            self.wf(),
            self.factor_map().dom().contains(*s),
            self.factor_map()[*s] is Formula,
        ensures
            Factor::Formula(r) == self.factor_map()[*s],
    {
        match self.factors.get(s) {
            Some(f) => match *f {
                Factor::Formula(id) => id,
                _ => {
                    proof {
                        assert(false);
                    }
                    FormulaId(0)
                },
            },
            None => {
                proof {
                    assert(false);
                }
                FormulaId(0)
            },
        }
    }
}

} // verus!
