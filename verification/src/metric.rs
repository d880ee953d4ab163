//! The Jaccard metric over specifications: model-set sizes over a fixed,
//! pre-enumerated list of models.
//!
//! The distance itself, `|Mod(S₁) △ Mod(S₂)| / |Mod(S₁) ∪ Mod(S₂)|` (0 when
//! the union is empty), is a ratio of the counts computed here.
use vstd::prelude::*;
use crate::formula::{formulas_view, Formula, FormulaV};
use crate::model::{enumerable_for, is_enumeration, lemma_enumerable_same, FiniteModel, ModelEnumerator};
use crate::signature::Signature;

verus! {

/// Number of models of `ms` satisfying every sentence of `fs`.
pub open spec fn count_models(ms: Seq<FiniteModel>, fs: Seq<FormulaV>) -> nat
    decreases ms.len(),
{
    if ms.len() == 0 {
        0
    } else {
        count_models(ms.drop_last(), fs) + if ms.last().models(fs) { 1nat } else { 0nat }
    }
}

/// Number of models of `ms` satisfying both `f1` and `f2`.
pub open spec fn count_both(ms: Seq<FiniteModel>, f1: Seq<FormulaV>, f2: Seq<FormulaV>) -> nat
    decreases ms.len(),
{
    if ms.len() == 0 {
        0
    } else {
        count_both(ms.drop_last(), f1, f2) + if ms.last().models(f1) && ms.last().models(f2) {
            1nat
        } else {
            0nat
        }
    }
}

/// Every model of `ms` can evaluate every sentence of `fs`.
pub open spec fn all_evaluable(ms: Seq<FiniteModel>, fs: Seq<FormulaV>) -> bool {
    forall|i: int| 0 <= i < ms.len() ==> (#[trigger] ms[i]).evaluable(fs)
}

proof fn lemma_count_both_bounds(ms: Seq<FiniteModel>, f1: Seq<FormulaV>, f2: Seq<FormulaV>)
    ensures
        count_both(ms, f1, f2) <= count_models(ms, f1),
        count_both(ms, f1, f2) <= count_models(ms, f2),
        count_models(ms, f1) <= ms.len(),
        count_models(ms, f2) <= ms.len(),
        count_models(ms, f1) + count_models(ms, f2) - count_both(ms, f1, f2) <= ms.len(),
    decreases ms.len(),
{
    if ms.len() > 0 {
        lemma_count_both_bounds(ms.drop_last(), f1, f2);
    }
}

/// Model-set sizes of two specifications.
#[derive(Debug, Clone, PartialEq, Eq)]
pub struct ModelCounts {
    /// `|Mod(S₁) ∩ Mod(S₂)|`.
    pub intersection_size: usize,
    /// `|Mod(S₁) ∪ Mod(S₂)|`.
    pub union_size: usize,
    /// `|Mod(S₁) △ Mod(S₂)|`.
    pub symmetric_difference_size: usize,
    /// `|Mod(S₁)|`.
    pub left_size: usize,
    /// `|Mod(S₂)|`.
    pub right_size: usize,
}

/// A Jaccard metric backed by a pre-enumerated model list.
pub struct JaccardMetric {
    models: Vec<FiniteModel>,
}

impl JaccardMetric {
    /// The model list.
    pub closed spec fn model_list(&self) -> Seq<FiniteModel> {
        self.models@
    }

    /// A metric over an externally supplied model list.
    pub fn new(models: Vec<FiniteModel>) -> (r: Self)
        ensures
            r.model_list() == models@,
    {
        JaccardMetric { models }
    }

    /// A metric over every Σ-structure with carrier size `max_domain_size`.
    pub fn from_signature(signature: &Signature, max_domain_size: usize) -> (r: Self)
        requires
            enumerable_for(*signature, max_domain_size),
        ensures
            exists|s: Signature| s.same_as(signature) && is_enumeration(r.model_list(), s, max_domain_size),
    {
        let sig = signature.copy();
        proof {
            lemma_enumerable_same(sig, *signature, max_domain_size);
        }
        let e = ModelEnumerator::new(sig, max_domain_size);
        let models = e.enumerate();
        JaccardMetric { models }
    }

    /// The underlying model list.
    pub fn models(&self) -> (r: &[FiniteModel])
        ensures
            r@ == self.model_list(),
    {
        self.models.as_slice()
    }

    /// Which models satisfy `spec`, in model order.
    pub fn membership(&self, spec: &[Formula]) -> (r: Vec<bool>)
        requires
            all_evaluable(self.model_list(), formulas_view(spec@)),
        ensures
            r@.len() == self.model_list().len(),
            forall|i: int| 0 <= i < r@.len() ==> #[trigger] r@[i] == self.model_list()[i].models(formulas_view(spec@)),
    {
        let mut out: Vec<bool> = Vec::new();
        let mut i: usize = 0;
        while i < self.models.len()
            invariant
                i <= self.models@.len(),
                all_evaluable(self.models@, formulas_view(spec@)),
                out@.len() == i,
                forall|k: int| 0 <= k < i ==> #[trigger] out@[k] == self.models@[k].models(formulas_view(spec@)),
            decreases self.models.len() - i,
        {
            assert(self.models@[i as int].evaluable(formulas_view(spec@)));
            out.push(self.models[i].satisfies_spec(spec));
            i = i + 1;
        }
        out
    }

    /// Model-set sizes of two specifications over the model list.
    pub fn counts(&self, s1: &[Formula], s2: &[Formula]) -> (r: ModelCounts)
        requires
            all_evaluable(self.model_list(), formulas_view(s1@)),
            all_evaluable(self.model_list(), formulas_view(s2@)),
        ensures
            r.left_size == count_models(self.model_list(), formulas_view(s1@)),
            r.right_size == count_models(self.model_list(), formulas_view(s2@)),
            r.intersection_size == count_both(self.model_list(), formulas_view(s1@), formulas_view(s2@)),
            r.union_size == r.left_size + r.right_size - r.intersection_size,
            r.symmetric_difference_size == r.union_size - r.intersection_size,
    {
        let ghost ms = self.models@;
        let ghost f1 = formulas_view(s1@);
        let ghost f2 = formulas_view(s2@);
        let mut left: usize = 0;
        let mut right: usize = 0;
        let mut both: usize = 0;
        let mut i: usize = 0;
        assert(ms.take(0) =~= Seq::<FiniteModel>::empty());
        while i < self.models.len()
            invariant
                ms == self.models@,
                f1 == formulas_view(s1@),
                f2 == formulas_view(s2@),
                i <= ms.len(),
                all_evaluable(ms, f1),
                all_evaluable(ms, f2),
                left == count_models(ms.take(i as int), f1),
                right == count_models(ms.take(i as int), f2),
                both == count_both(ms.take(i as int), f1, f2),
            decreases ms.len() - i,
        {
            proof {
                lemma_count_both_bounds(ms.take(i as int), f1, f2);
                assert(ms.take(i + 1).drop_last() =~= ms.take(i as int));
                assert(ms.take(i + 1).last() == ms[i as int]);
                assert(ms[i as int].evaluable(f1));
                assert(ms[i as int].evaluable(f2));
            }
            let in_left = self.models[i].satisfies_spec(s1);
            let in_right = self.models[i].satisfies_spec(s2);
            if in_left {
                left = left + 1;
            }
            if in_right {
                right = right + 1;
            }
            if in_left && in_right {
                both = both + 1;
            }
            i = i + 1;
        }
        proof {
            assert(ms.take(i as int) =~= ms);
            lemma_count_both_bounds(ms, f1, f2);
        }
        let union_size = left + (right - both);
        ModelCounts {
            intersection_size: both,
            union_size,
            symmetric_difference_size: union_size - both,
            left_size: left,
            right_size: right,
        }
    }
}

} // verus!
