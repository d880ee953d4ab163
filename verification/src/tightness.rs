//! Exhaustive tightness evaluation: for every mutant of the neighborhood,
//! the first implementation whose satisfaction differs between the spec
//! and the mutant kills it.
use vstd::prelude::*;
use crate::formula::{formulas_view, Formula, FormulaV};
use crate::lattice::SpecElement;
use crate::metric::{all_evaluable, JaccardMetric};
use crate::model::FiniteModel;

verus! {

/// Which side a [`MutantWitness`] satisfies.
#[derive(Debug, Clone, Copy, PartialEq, Eq)]
pub enum WitnessDirection {
    /// The witness satisfies the mutant but not the original spec.
    MutantAdmits,
    /// The witness satisfies the original spec but not the mutant.
    MutantRejects,
}

/// Explanation attached to a surviving mutant: a model distinguishing the
/// mutant from the spec, with a short interpretation.
#[derive(Debug, Clone, PartialEq)]
pub struct MutantWitness {
    /// One-line summary of the distinguishing model.
    pub model_description: String,
    /// Which side the witness model lives on.
    pub direction: WitnessDirection,
    /// Relation / function values that drive the distinction.
    pub distinguishing_facts: Vec<String>,
    /// Interpretation derived from the mutation class.
    pub interpretation: String,
}

/// Per-mutant result of a tightness evaluation.
#[derive(Debug, Clone, PartialEq)]
pub struct MutantStatus {
    /// Index of the mutant.
    pub mutant_index: usize,
    /// True iff some implementation distinguished the spec from the mutant.
    pub killed: bool,
    /// The implementations that distinguished the mutant (empty when
    /// alive).
    pub killing_implementations: Vec<usize>,
    /// `Some(true)`: the killer satisfies the spec but not the mutant;
    /// `Some(false)`: the mutant but not the spec; `None`: alive.
    pub direction: Option<bool>,
    /// Explanation of a surviving mutant, filled in by later reporting.
    pub witness: Option<MutantWitness>,
}

/// Integer part of a tightness evaluation; the score is
/// `killed_count / neighborhood_size` (0 for an empty neighborhood).
#[derive(Debug, Clone, PartialEq)]
pub struct TightnessCounts {
    /// Number of mutants evaluated.
    pub neighborhood_size: usize,
    /// Number of mutants killed.
    pub killed_count: usize,
    /// Number of mutants alive.
    pub alive_count: usize,
    /// Per-mutant detail, in neighborhood order.
    pub mutant_statuses: Vec<MutantStatus>,
}

/// `m` satisfies exactly one of `s` and `t`.
pub open spec fn distinguishes(m: FiniteModel, s: Seq<FormulaV>, t: Seq<FormulaV>) -> bool {
    m.models(s) != m.models(t)
}

/// `k` is the first implementation distinguishing `s` from `t`.
pub open spec fn first_killer(impls: Seq<FiniteModel>, s: Seq<FormulaV>, t: Seq<FormulaV>, k: int) -> bool {
    &&& 0 <= k < impls.len()
    &&& distinguishes(impls[k], s, t)
    &&& forall|j: int| 0 <= j < k ==> !distinguishes(#[trigger] impls[j], s, t)
}

/// The status the exhaustive evaluation gives mutant `idx` with axioms `t`.
pub open spec fn exhaustive_status(
    st: MutantStatus,
    idx: usize,
    impls: Seq<FiniteModel>,
    s: Seq<FormulaV>,
    t: Seq<FormulaV>,
) -> bool {
    &&& st.mutant_index == idx
    &&& st.witness is None
    &&& st.killed == exists|k: int| 0 <= k < impls.len() && distinguishes(#[trigger] impls[k], s, t)
    &&& st.killed ==> {
        &&& st.killing_implementations@.len() == 1
        &&& first_killer(impls, s, t, st.killing_implementations@[0] as int)
        &&& st.direction == Some(impls[st.killing_implementations@[0] as int].models(s))
    }
    &&& !st.killed ==> st.killing_implementations@.len() == 0 && st.direction is None
}

/// Tightness evaluator backed by a Jaccard metric.
pub struct TightnessEvaluator {
    metric: JaccardMetric,
}

impl TightnessEvaluator {
    /// An evaluator backed by `metric`.
    pub fn new(metric: JaccardMetric) -> (r: Self)
        ensures
            r.metric_spec() == metric,
    {
        TightnessEvaluator { metric }
    }

    /// The metric.
    pub closed spec fn metric_spec(&self) -> JaccardMetric {
        self.metric
    }

    /// Status of mutant `idx`: killed by the first implementation whose
    /// satisfaction of `spec_axioms` and `mutant_axioms` differs.
    pub fn evaluate_one(
        idx: usize,
        spec_axioms: &[Formula],
        mutant_axioms: &[Formula],
        implementations: &[FiniteModel],
    ) -> (r: MutantStatus)
        requires
            all_evaluable(implementations@, formulas_view(spec_axioms@)),
            all_evaluable(implementations@, formulas_view(mutant_axioms@)),
        ensures
            exhaustive_status(
                r,
                idx,
                implementations@,
                formulas_view(spec_axioms@),
                formulas_view(mutant_axioms@),
            ),
            r.killed <==> exists|k: int|
                0 <= k < implementations@.len() && #[trigger] implementations@[k].models(formulas_view(spec_axioms@))
                    != implementations@[k].models(formulas_view(mutant_axioms@)),
            r.killed ==> r.direction == Some(
                implementations@[r.killing_implementations@[0] as int].models(formulas_view(spec_axioms@)),
            ),
    {
        let ghost s = formulas_view(spec_axioms@);
        let ghost t = formulas_view(mutant_axioms@);
        let mut i: usize = 0;
        while i < implementations.len()
            invariant
                i <= implementations@.len(),
                s == formulas_view(spec_axioms@),
                t == formulas_view(mutant_axioms@),
                all_evaluable(implementations@, s),
                all_evaluable(implementations@, t),
                forall|j: int| 0 <= j < i ==> !distinguishes(#[trigger] implementations@[j], s, t),
            decreases implementations.len() - i,
        {
            assert(implementations@[i as int].evaluable(s));
            assert(implementations@[i as int].evaluable(t));
            let sat_spec = implementations[i].satisfies_spec(spec_axioms);
            let sat_mutant = implementations[i].satisfies_spec(mutant_axioms);
            if sat_spec != sat_mutant {
                let mut killers: Vec<usize> = Vec::new();
                killers.push(i);
                assert(distinguishes(implementations@[i as int], s, t));
                assert(implementations@[i as int].models(s) != implementations@[i as int].models(t));
                return MutantStatus {
                    mutant_index: idx,
                    killed: true,
                    killing_implementations: killers,
                    direction: Some(sat_spec),
                    witness: None,
                };
            }
            i = i + 1;
        }
        assert(forall|k: int| 0 <= k < implementations@.len() ==> #[trigger] implementations@[k].models(s)
            == implementations@[k].models(t)) by {
            assert forall|k: int| 0 <= k < implementations@.len() implies #[trigger] implementations@[k].models(s)
                == implementations@[k].models(t) by {
                assert(!distinguishes(implementations@[k], s, t));
            }
        }
        MutantStatus {
            mutant_index: idx,
            killed: false,
            killing_implementations: Vec::new(),
            direction: None,
            witness: None,
        }
    }

    /// Evaluate every mutant of the neighborhood (indices into
    /// `mutant_specs`) against every implementation.
    pub fn evaluate(
        &self,
        spec: &SpecElement,
        mutant_specs: &[SpecElement],
        neighborhood: &[usize],
        implementations: &[FiniteModel],
    ) -> (r: TightnessCounts)
        requires
            all_evaluable(implementations@, spec.axiom_views()),
            forall|i: int| 0 <= i < neighborhood@.len() ==> #[trigger] neighborhood@[i] < mutant_specs@.len(),
            forall|k: int| 0 <= k < mutant_specs@.len() ==> all_evaluable(implementations@, (#[trigger] mutant_specs@[k]).axiom_views()),
        ensures
            r.neighborhood_size == neighborhood@.len(),
            r.mutant_statuses@.len() == neighborhood@.len(),
            forall|i: int|
                0 <= i < neighborhood@.len() ==> exhaustive_status(
                    #[trigger] r.mutant_statuses@[i],
                    neighborhood@[i],
                    implementations@,
                    spec.axiom_views(),
                    mutant_specs@[neighborhood@[i] as int].axiom_views(),
                ),
            r.killed_count == r.mutant_statuses@.filter(|st: MutantStatus| st.killed).len(),
            r.killed_count + r.alive_count == r.neighborhood_size,
    {
        let mut statuses: Vec<MutantStatus> = Vec::new();
        let mut killed: usize = 0;
        let mut i: usize = 0;
        while i < neighborhood.len()
            invariant
                i <= neighborhood@.len(),
                all_evaluable(implementations@, spec.axiom_views()),
                forall|q: int| 0 <= q < neighborhood@.len() ==> #[trigger] neighborhood@[q] < mutant_specs@.len(),
                forall|k: int|
                    0 <= k < mutant_specs@.len() ==> all_evaluable(implementations@, (#[trigger] mutant_specs@[k]).axiom_views()),
                statuses@.len() == i,
                forall|q: int|
                    0 <= q < i ==> exhaustive_status(
                        #[trigger] statuses@[q],
                        neighborhood@[q],
                        implementations@,
                        spec.axiom_views(),
                        mutant_specs@[neighborhood@[q] as int].axiom_views(),
                    ),
                killed == statuses@.filter(|st: MutantStatus| st.killed).len(),
                killed <= i,
            decreases neighborhood.len() - i,
        {
            let idx = neighborhood[i];
            let st = TightnessEvaluator::evaluate_one(
                idx,
                spec.axioms.as_slice(),
                mutant_specs[idx].axioms.as_slice(),
                implementations,
            );
            let k = st.killed;
            let ghost before = statuses@;
            statuses.push(st);
            proof {
                reveal(Seq::filter);
                assert(statuses@.drop_last() =~= before);
            }
            if k {
                killed = killed + 1;
            }
            i = i + 1;
        }
        TightnessCounts {
            neighborhood_size: neighborhood.len(),
            killed_count: killed,
            alive_count: neighborhood.len() - killed,
            mutant_statuses: statuses,
        }
    }
}

} // verus!
