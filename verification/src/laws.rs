//! Properties of the library as a whole, each proved from the contracts
//! of the functions it speaks of.
use vstd::prelude::*;
use crate::formula::{is_nnf, nnf, nnf_pol, lemma_nnf_pol_compose, lemma_nnf_pol_is_nnf, FormulaV};
use crate::lattice::{holds_normal_forms, key_of, lemma_strictly_ordered_unique, strictly_ordered, EntailmentChecker, ModelEntailmentChecker, SpecElement, SpecLattice};
use crate::metric::{count_both, count_models};
use crate::model::FiniteModel;
use crate::lean_pipeline::satisfying;
use crate::slicer::{fun_names, is_slice, reduced_from, rel_names, slice_with, TheoremSlice};
use crate::passes::OriginV;
use crate::signature::{fun_views, rel_views, sort_names, FunSym, RelSym, Signature};
use crate::witness::safe_sat;
use crate::analysis::{class_of, killed_set, tally};
use crate::mutation::{MutantCandidate, MutantClass};
use crate::tightness::MutantStatus;
use crate::model::{bit_offset, enumerable_for, function_option_count, function_space, is_enumeration, pow_nat, table_count, tuple_count};
use crate::signature::{cap_u32, relation_space, FunctionSymbol, RelationSymbol};
use crate::mutation::saturating_pow;
use crate::mutation::{all_candidates, first_by_key, irreducible, without, CandidateV};
use crate::lattice::normalize_all;
use crate::tightness::exhaustive_status;
use crate::translation::{prop_tr, TrS};
use crate::ir_types::IRExprV;

verus! {

/// Normal form is idempotent: normalizing a normalized formula changes
/// nothing, and the result has no negation node.
pub proof fn lemma_nnf_idempotent(f: FormulaV)
    ensures
        nnf(nnf(f)) == nnf(f),
        is_nnf(nnf(f)),
{
    lemma_nnf_pol_compose(f, true, true);
    lemma_nnf_pol_is_nnf(f, true);
}

/// The overlap of two model sets does not depend on the order of the two
/// specifications, so neither does their Jaccard distance.
pub proof fn lemma_overlap_symmetric(ms: Seq<FiniteModel>, f1: Seq<FormulaV>, f2: Seq<FormulaV>)
    ensures
        count_both(ms, f1, f2) == count_both(ms, f2, f1),
    decreases ms.len(),
{
    if ms.len() > 0 {
        lemma_overlap_symmetric(ms.drop_last(), f1, f2);
    }
}

/// The overlap of two model sets is no larger than either set, so the
/// symmetric difference never exceeds the union: the Jaccard distance lies
/// in `[0, 1]`.
pub proof fn lemma_overlap_bounded(ms: Seq<FiniteModel>, f1: Seq<FormulaV>, f2: Seq<FormulaV>)
    ensures
        count_both(ms, f1, f2) <= count_models(ms, f1),
        count_both(ms, f1, f2) <= count_models(ms, f2),
        count_models(ms, f1) + count_models(ms, f2) - count_both(ms, f1, f2) >= count_models(ms, f1) + count_models(ms, f2)
            - 2 * count_both(ms, f1, f2) >= 0,
    decreases ms.len(),
{
    if ms.len() > 0 {
        lemma_overlap_bounded(ms.drop_last(), f1, f2);
    }
}

/// The canonical key of a specification does not depend on the order of
/// its axioms, nor on repeats: two elements built from lists with the same
/// axioms have the same key.
pub proof fn lemma_key_order_independent(e1: SpecElement, e2: SpecElement, fs1: Seq<FormulaV>, fs2: Seq<FormulaV>)
    requires
        e1.wf(),
        e2.wf(),
        holds_normal_forms(e1.axiom_views(), fs1),
        holds_normal_forms(e2.axiom_views(), fs2),
        forall|g: FormulaV| #[trigger] fs1.contains(g) <==> fs2.contains(g),
    ensures
        e1.axiom_views() == e2.axiom_views(),
        e1.key() == e2.key(),
{
    let a = e1.axiom_views();
    let b = e2.axiom_views();
    assert forall|g: FormulaV| #[trigger] a.contains(g) <==> b.contains(g) by {
        if a.contains(g) {
            let i = choose|i: int| 0 <= i < fs1.len() && g == crate::lattice::normal_form(#[trigger] fs1[i]);
            assert(fs1.contains(fs1[i]));
            assert(fs2.contains(fs1[i]));
            let j = choose|j: int| 0 <= j < fs2.len() && fs2[j] == fs1[i];
            assert(g == crate::lattice::normal_form(fs2[j]));
        }
        if b.contains(g) {
            let i = choose|i: int| 0 <= i < fs2.len() && g == crate::lattice::normal_form(#[trigger] fs2[i]);
            assert(fs2.contains(fs2[i]));
            assert(fs1.contains(fs2[i]));
            let j = choose|j: int| 0 <= j < fs1.len() && fs1[j] == fs2[i];
            assert(g == crate::lattice::normal_form(fs1[j]));
        }
    }
    lemma_strictly_ordered_unique(a, b);
}

/// Over a model-based checker, the order of a lattice is a preorder:
/// every element is below itself, and `a ≤ b ≤ c` gives `a ≤ c`.
pub proof fn lemma_model_order_preorder(l: SpecLattice, checker: ModelEntailmentChecker, a: int, b: int, c: int)
    requires
        forall|i: int, j: int|
            0 <= i < l.size() && 0 <= j < l.size() ==> (#[trigger] l.order_spec()[i][j]) == checker.entails_spec(
                l.elements_spec()[j].axiom_views(),
                l.elements_spec()[i].axiom_views(),
            ),
        0 <= a < l.size(),
        0 <= b < l.size(),
        0 <= c < l.size(),
    ensures
        l.order_spec()[a][a],
        l.order_spec()[a][b] && l.order_spec()[b][c] ==> l.order_spec()[a][c],
{
    assert(l.order_spec()[a][a] == checker.entails_spec(l.elements_spec()[a].axiom_views(), l.elements_spec()[a].axiom_views()));
    assert(l.order_spec()[a][b] == checker.entails_spec(l.elements_spec()[b].axiom_views(), l.elements_spec()[a].axiom_views()));
    assert(l.order_spec()[b][c] == checker.entails_spec(l.elements_spec()[c].axiom_views(), l.elements_spec()[b].axiom_views()));
    assert(l.order_spec()[a][c] == checker.entails_spec(l.elements_spec()[c].axiom_views(), l.elements_spec()[a].axiom_views()));
}

/// Every implementation selected automatically satisfies the axioms.
pub proof fn lemma_selected_satisfy(ms: Seq<FiniteModel>, fs: Seq<FormulaV>, i: int)
    requires
        0 <= i < satisfying(ms, fs).len(),
    ensures
        safe_sat(satisfying(ms, fs)[i], fs),
        ms.contains(satisfying(ms, fs)[i]),
    decreases ms.len(),
{
    let s = satisfying(ms, fs);
    if safe_sat(ms.last(), fs) && i == s.len() - 1 {
        assert(ms[ms.len() - 1] == ms.last());
    } else {
        lemma_selected_satisfy(ms.drop_last(), fs, i);
        let w = choose|w: int| 0 <= w < ms.drop_last().len() && ms.drop_last()[w] == satisfying(ms.drop_last(), fs)[i];
        assert(ms[w] == ms.drop_last()[w]);
    }
}

/// A slice's signature is part of the global one: its sorts, relations
/// and functions all come from it.
pub proof fn lemma_slice_within_global(sl: TheoremSlice, global: Signature, fv: Seq<FormulaV>, ov: Seq<OriginV>)
    requires
        is_slice(sl, global, fv, ov),
    ensures
        forall|x: Seq<char>| #[trigger] sort_names(sl.signature.sorts@).contains(x) ==> sort_names(global.sorts@).contains(x),
        forall|g: RelSym| #[trigger] rel_views(sl.signature.relations@).contains(g) ==> rel_views(global.relations@).contains(g),
        forall|f: FunSym| #[trigger] fun_views(sl.signature.functions@).contains(f) ==> fun_views(global.functions@).contains(f),
{
    let seeds = crate::slicer::seed_marks(ov, sl.theorem_name@);
    let m = choose|m: Seq<bool>| #[trigger] crate::slicer::least_idx(fv, ov, seeds, m) && slice_with(sl, global, fv, seeds, m);
    assert(slice_with(sl, global, fv, seeds, m));
}

/// When every status speaks of a known mutant, the per-class tallies
/// partition the neighborhood: the class totals add up to the number of
/// statuses and the class kill counts to the number of killed statuses.
pub proof fn lemma_taxonomy_partitions(mutants: Seq<MutantCandidate>, st: Seq<MutantStatus>)
    requires
        forall|i: int| 0 <= i < st.len() ==> (#[trigger] st[i]).mutant_index < mutants.len(),
    ensures
        tally(mutants, st, MutantClass::Weakening, false) + tally(mutants, st, MutantClass::Strengthening, false)
            + tally(mutants, st, MutantClass::Replacement, false) == st.len(),
        tally(mutants, st, MutantClass::Weakening, true) + tally(mutants, st, MutantClass::Strengthening, true)
            + tally(mutants, st, MutantClass::Replacement, true) == st.filter(|s: MutantStatus| s.killed).len(),
    decreases st.len(),
{
    reveal(Seq::filter);
    if st.len() > 0 {
        let rest = st.drop_last();
        assert forall|i: int| 0 <= i < rest.len() implies (#[trigger] rest[i]).mutant_index < mutants.len() by {
            assert(rest[i] == st[i]);
        }
        lemma_taxonomy_partitions(mutants, rest);
        assert(st.last() == st[st.len() - 1]);
        assert(class_of(mutants, st.last()) is Some);
    }
}

/// Every mutant the full evaluation kills is either killed by the baseline
/// too (shared) or not (unique): the two counts add up to the total.
pub proof fn lemma_contribution_split(full: Seq<MutantStatus>, baseline: Seq<MutantStatus>)
    ensures
        killed_set(full).difference(killed_set(baseline)).len() + killed_set(full).intersect(killed_set(baseline)).len()
            == killed_set(full).len(),
        killed_set(full).difference(killed_set(baseline)).len() <= killed_set(full).len(),
{
    let f = killed_set(full);
    let b = killed_set(baseline);
    let ids = full.map_values(|s: MutantStatus| s.mutant_index).to_set();
    assert(f.subset_of(ids)) by {
        assert forall|x: usize| f.contains(x) implies ids.contains(x) by {
            let k = choose|k: int| 0 <= k < full.len() && (#[trigger] full[k]).killed && full[k].mutant_index == x;
            assert(full.map_values(|s: MutantStatus| s.mutant_index)[k] == x);
        }
    }
    vstd::seq_lib::seq_to_set_is_finite(full.map_values(|s: MutantStatus| s.mutant_index));
    vstd::set_lib::lemma_len_subset(f, ids);
    let d = f.difference(b);
    let i = f.intersect(b);
    vstd::set_lib::lemma_len_subset(d, f);
    vstd::set_lib::lemma_len_subset(i, f);
    vstd::set_lib::lemma_set_disjoint_lens(d, i);
    assert(d + i =~= f);
}

/// Tallying two runs of statuses one after the other gives the sum of
/// their tallies, which is what merging two taxonomies adds up.
pub proof fn lemma_tally_concat(mutants: Seq<MutantCandidate>, s1: Seq<MutantStatus>, s2: Seq<MutantStatus>, c: MutantClass, killed_only: bool)
    ensures
        tally(mutants, s1 + s2, c, killed_only) == tally(mutants, s1, c, killed_only) + tally(mutants, s2, c, killed_only),
    decreases s2.len(),
{
    if s2.len() == 0 {
        assert(s1 + s2 =~= s1);
    } else {
        lemma_tally_concat(mutants, s1, s2.drop_last(), c, killed_only);
        assert((s1 + s2).drop_last() =~= s1 + s2.drop_last());
        assert((s1 + s2).last() == s2.last());
    }
}

proof fn lemma_pow_one(e: nat)
    ensures
        pow_nat(1, e) == 1,
    decreases e,
{
    if e > 0 {
        lemma_pow_one((e - 1) as nat);
    }
}

proof fn lemma_pow_add(b: nat, x: nat, y: nat)
    ensures
        pow_nat(b, x + y) == pow_nat(b, x) * pow_nat(b, y),
    decreases y,
{
    if y > 0 {
        let y1 = (y - 1) as nat;
        lemma_pow_add(b, x, y1);
        let s1 = x + y1;
        assert(x + y == s1 + 1);
        assert(pow_nat(b, s1 + 1) == b * pow_nat(b, s1));
        assert(pow_nat(b, y) == b * pow_nat(b, y1));
        let px = pow_nat(b, x);
        let py = pow_nat(b, y1);
        assert(b * (px * py) == px * (b * py)) by (nonlinear_arith);
        assert(pow_nat(b, x + y) == pow_nat(b, s1 + 1));
        assert(pow_nat(b, x + y) == b * (px * py));
    } else {
        assert(x + y == x);
        assert(pow_nat(b, 0) == 1);
        assert(pow_nat(b, x) * 1 == pow_nat(b, x));
    }
}

proof fn lemma_pow_ge_two_pow(n: nat, e: nat)
    requires
        n >= 2,
    ensures
        pow_nat(n, e) >= pow_nat(2, e),
    decreases e,
{
    if e > 0 {
        lemma_pow_ge_two_pow(n, (e - 1) as nat);
        let a = pow_nat(n, (e - 1) as nat);
        let c = pow_nat(2, (e - 1) as nat);
        assert(n * a >= 2 * c) by (nonlinear_arith)
            requires
                n >= 2,
                a >= c,
                c >= 0,
        ;
    }
}

proof fn lemma_two_pow_mono(x: nat, y: nat)
    requires
        x <= y,
    ensures
        pow_nat(2, x) <= pow_nat(2, y),
    decreases y,
{
    if x < y {
        lemma_two_pow_mono(x, (y - 1) as nat);
    }
}

/// For a base of at least 2 and an exponent of at least 65 the power
/// overflows any machine word.
proof fn lemma_pow_huge(n: nat, e: nat)
    requires
        n >= 2,
        e >= 65,
    ensures
        pow_nat(n, e) > u64::MAX,
{
    assert(pow_nat(2, 65) == 36893488147419103232nat) by {
        reveal_with_fuel(pow_nat, 66);
    }
    lemma_two_pow_mono(65, e);
    lemma_pow_ge_two_pow(n, e);
}

proof fn lemma_relation_space_prefix(rels: Seq<RelationSymbol>, n: nat, i: nat)
    requires
        n > 0,
        i <= rels.len(),
        bit_offset(rels, rels.len(), n) < 64,
    ensures
        relation_space(n, rels.take(i as int)) == pow_nat(2, bit_offset(rels, i, n)),
    decreases i,
{
    if i == 0 {
        assert(rels.take(0) =~= Seq::<RelationSymbol>::empty());
    } else {
        lemma_relation_space_prefix(rels, n, (i - 1) as nat);
        assert(rels.take(i as int).drop_last() =~= rels.take(i - 1));
        let r = rels[i - 1];
        assert(rels.take(i as int).last() == r);
        assert(bit_offset(rels, i, n) <= bit_offset(rels, rels.len(), n)) by {
            lemma_bit_offset_le(rels, i, rels.len(), n);
        }
        let t = tuple_count(r, n);
        assert(t < 64);
        assert(pow_nat(n, cap_u32(r.arity@.len())) == t) by {
            if n == 1 {
                lemma_pow_one(r.arity@.len());
                lemma_pow_one(cap_u32(r.arity@.len()));
            } else if r.arity@.len() > u32::MAX {
                lemma_pow_huge(n, r.arity@.len());
            }
        }
        lemma_pow_add(2, bit_offset(rels, (i - 1) as nat, n), t);
    }
}

proof fn lemma_bit_offset_le(rels: Seq<RelationSymbol>, i: nat, j: nat, n: nat)
    requires
        i <= j <= rels.len(),
    ensures
        bit_offset(rels, i, n) <= bit_offset(rels, j, n),
    decreases j,
{
    if i < j {
        lemma_bit_offset_le(rels, i, (j - 1) as nat, n);
    }
}

proof fn lemma_function_space_eq(fs: Seq<FunctionSymbol>, n: nat)
    requires
        n > 0,
        forall|i: int| 0 <= i < fs.len() ==> pow_nat(n, (#[trigger] fs[i]).domain@.len()) <= usize::MAX,
        forall|i: int| 0 <= i < fs.len() ==> table_count(#[trigger] fs[i], n) <= usize::MAX,
    ensures
        function_space(n, fs) == function_option_count(fs, n),
    decreases fs.len(),
{
    if fs.len() > 0 {
        let p = fs.drop_last();
        assert forall|i: int| 0 <= i < p.len() implies pow_nat(n, (#[trigger] p[i]).domain@.len()) <= usize::MAX by {
            assert(p[i] == fs[i]);
        }
        assert forall|i: int| 0 <= i < p.len() implies table_count(#[trigger] p[i], n) <= usize::MAX by {
            assert(p[i] == fs[i]);
        }
        lemma_function_space_eq(p, n);
        let f = fs.last();
        assert(f == fs[fs.len() - 1]);
        let d = f.domain@.len();
        assert(pow_nat(n, d) <= usize::MAX);
        assert(table_count(f, n) <= usize::MAX);
        if n == 1 {
            lemma_pow_one(d);
            lemma_pow_one(cap_u32(d));
            lemma_pow_one(1);
        } else {
            assert(cap_u32(d) == d) by {
                if d > u32::MAX {
                    lemma_pow_huge(n, d);
                }
            }
            assert(saturating_pow(n, d) == pow_nat(n, d));
            assert(cap_u32(pow_nat(n, d)) == pow_nat(n, d)) by {
                if pow_nat(n, d) > u32::MAX {
                    lemma_pow_huge(n, pow_nat(n, d));
                }
            }
        }
    }
}

/// The count of the model space equals the number of models the
/// enumeration produces, for a non-empty carrier whose sizes fit.
pub proof fn lemma_count_matches_enumeration(models: Seq<crate::model::FiniteModel>, sig: Signature, n: usize)
    requires
        n > 0,
        enumerable_for(sig, n),
        is_enumeration(models, sig, n),
    ensures
        models.len() == relation_space(n as nat, sig.relations@) * function_space(n as nat, sig.functions@),
{
    lemma_relation_space_prefix(sig.relations@, n as nat, sig.relations@.len());
    assert(sig.relations@.take(sig.relations@.len() as int) =~= sig.relations@);
    lemma_function_space_eq(sig.functions@, n as nat);
}

// ---------------------------------------------------------------------------
// Truth in a finite model
// ---------------------------------------------------------------------------

/// Truth in a model follows the connectives: under every assignment `⊤`
/// holds, `⊥` does not, a conjunction holds exactly when both conjuncts
/// do, a disjunction exactly when at least one disjunct does, and a
/// negation exactly when the negated formula does not.
pub proof fn lemma_truth_of_connectives(m: FiniteModel, l: FormulaV, r: FormulaV, a: Seq<usize>)
    ensures
        m.sat(FormulaV::Top, a),
        !m.sat(FormulaV::Bot, a),
        m.sat(FormulaV::And(Box::new(l), Box::new(r)), a) <==> (m.sat(l, a) && m.sat(r, a)),
        m.sat(FormulaV::Or(Box::new(l), Box::new(r)), a) <==> (m.sat(l, a) || m.sat(r, a)),
        m.sat(FormulaV::Not(Box::new(l)), a) <==> !m.sat(l, a),
{
}

/// De Morgan: `l ∨ r` holds exactly when `¬(¬l ∧ ¬r)` does, and `l ∧ r`
/// exactly when `¬(¬l ∨ ¬r)` does; a disjunction holds as soon as one
/// side does, and a conjunction only when both do.
pub proof fn lemma_de_morgan(m: FiniteModel, l: FormulaV, r: FormulaV, a: Seq<usize>)
    ensures
        m.sat(FormulaV::Or(Box::new(l), Box::new(r)), a) == m.sat(
            FormulaV::Not(Box::new(FormulaV::And(Box::new(FormulaV::Not(Box::new(l))), Box::new(FormulaV::Not(Box::new(r)))))),
            a,
        ),
        m.sat(FormulaV::And(Box::new(l), Box::new(r)), a) == m.sat(
            FormulaV::Not(Box::new(FormulaV::Or(Box::new(FormulaV::Not(Box::new(l))), Box::new(FormulaV::Not(Box::new(r)))))),
            a,
        ),
        m.sat(l, a) ==> m.sat(FormulaV::Or(Box::new(l), Box::new(r)), a),
        m.sat(r, a) ==> m.sat(FormulaV::Or(Box::new(l), Box::new(r)), a),
        m.sat(FormulaV::And(Box::new(l), Box::new(r)), a) ==> m.sat(l, a) && m.sat(r, a),
{
    let nl = FormulaV::Not(Box::new(l));
    let nr = FormulaV::Not(Box::new(r));
    assert(m.sat(nl, a) == !m.sat(l, a));
    assert(m.sat(nr, a) == !m.sat(r, a));
    let c = FormulaV::And(Box::new(nl), Box::new(nr));
    let d = FormulaV::Or(Box::new(nl), Box::new(nr));
    assert(m.sat(c, a) == (m.sat(nl, a) && m.sat(nr, a)));
    assert(m.sat(d, a) == (m.sat(nl, a) || m.sat(nr, a)));
    assert(m.sat(FormulaV::Not(Box::new(c)), a) == !m.sat(c, a));
    assert(m.sat(FormulaV::Not(Box::new(d)), a) == !m.sat(d, a));
    assert(m.sat(FormulaV::Or(Box::new(l), Box::new(r)), a) == (m.sat(l, a) || m.sat(r, a)));
    assert(m.sat(FormulaV::And(Box::new(l), Box::new(r)), a) == (m.sat(l, a) && m.sat(r, a)));
}

/// `(x → y) ∧ (y → x)` is true exactly when `x` and `y` have the same
/// truth value.
pub proof fn lemma_biconditional_truth(m: FiniteModel, x: FormulaV, y: FormulaV, a: Seq<usize>)
    ensures
        m.sat(crate::translation::iff_v(x, y), a) == (m.sat(x, a) == m.sat(y, a)),
        m.sat(crate::translation::implies_v(x, y), a) == (m.sat(x, a) ==> m.sat(y, a)),
{
    let nx = FormulaV::Not(Box::new(x));
    let ny = FormulaV::Not(Box::new(y));
    assert(m.sat(nx, a) == !m.sat(x, a));
    assert(m.sat(ny, a) == !m.sat(y, a));
    let i1 = crate::translation::implies_v(x, y);
    let i2 = crate::translation::implies_v(y, x);
    assert(i1 == FormulaV::Or(Box::new(nx), Box::new(y)));
    assert(i2 == FormulaV::Or(Box::new(ny), Box::new(x)));
    assert(m.sat(i1, a) == (m.sat(nx, a) || m.sat(y, a)));
    assert(m.sat(i2, a) == (m.sat(ny, a) || m.sat(x, a)));
    assert(crate::translation::iff_v(x, y) == FormulaV::And(Box::new(i1), Box::new(i2)));
    assert(m.sat(FormulaV::And(Box::new(i1), Box::new(i2)), a) == (m.sat(i1, a) && m.sat(i2, a)));
}

proof fn lemma_below_pol(m: FiniteModel, b: FormulaV, q: FormulaV, pos: bool, a: Seq<usize>, k: nat)
    requires
        forall|a2: Seq<usize>| #[trigger] m.sat(q, a2) == (if pos { m.sat(b, a2) } else { !m.sat(b, a2) }),
    ensures
        m.all_below(q, a, k) == (if pos { m.all_below(b, a, k) } else { !m.some_below(b, a, k) }),
        m.some_below(q, a, k) == (if pos { m.some_below(b, a, k) } else { !m.all_below(b, a, k) }),
    decreases k,
{
    if k > 0 {
        lemma_below_pol(m, b, q, pos, a, (k - 1) as nat);
        let a2 = seq![(k - 1) as usize] + a;
        assert(m.sat(q, a2) == (if pos { m.sat(b, a2) } else { !m.sat(b, a2) }));
    }
}

/// Normalizing with polarity `pos` keeps the truth value when `pos` holds
/// and negates it otherwise, in every model under every assignment.
pub proof fn lemma_nnf_pol_truth(m: FiniteModel, f: FormulaV, pos: bool, a: Seq<usize>)
    ensures
        m.sat(nnf_pol(f, pos), a) == (if pos { m.sat(f, a) } else { !m.sat(f, a) }),
    decreases f,
{
    match f {
        FormulaV::And(l, r) => {
            lemma_nnf_pol_truth(m, *l, pos, a);
            lemma_nnf_pol_truth(m, *r, pos, a);
        },
        FormulaV::Or(l, r) => {
            lemma_nnf_pol_truth(m, *l, pos, a);
            lemma_nnf_pol_truth(m, *r, pos, a);
        },
        FormulaV::Not(g) => {
            lemma_nnf_pol_truth(m, *g, !pos, a);
        },
        FormulaV::Forall(srt, b) => {
            let q = nnf_pol(*b, pos);
            assert forall|a2: Seq<usize>| #[trigger] m.sat(q, a2) == (if pos { m.sat(*b, a2) } else { !m.sat(*b, a2) }) by {
                lemma_nnf_pol_truth(m, *b, pos, a2);
            }
            lemma_below_pol(m, *b, q, pos, a, m.size_of(srt));
        },
        FormulaV::Exists(srt, b) => {
            let q = nnf_pol(*b, pos);
            assert forall|a2: Seq<usize>| #[trigger] m.sat(q, a2) == (if pos { m.sat(*b, a2) } else { !m.sat(*b, a2) }) by {
                lemma_nnf_pol_truth(m, *b, pos, a2);
            }
            lemma_below_pol(m, *b, q, pos, a, m.size_of(srt));
        },
        _ => {},
    }
}

/// A formula and its negation normal form are true in the same models,
/// under every assignment.
pub proof fn lemma_nnf_preserves_truth(m: FiniteModel, f: FormulaV, a: Seq<usize>)
    ensures
        m.sat(nnf(f), a) == m.sat(f, a),
{
    lemma_nnf_pol_truth(m, f, true, a);
}

// ---------------------------------------------------------------------------
// Translation of a biconditional
// ---------------------------------------------------------------------------

/// The translation of `p ↔ q` is true, in every model and under every
/// assignment, exactly when the translations of `p` and `q` (in that
/// order, `q` after the state `p` leaves) have the same truth value.
pub proof fn lemma_iff_translation(
    st: TrS,
    l: IRExprV,
    r: IRExprV,
    stack: Seq<(Seq<char>, Seq<char>)>,
    m: FiniteModel,
    a: Seq<usize>,
)
    requires
        prop_tr(st, IRExprV::Iff(Box::new(l), Box::new(r)), stack).1 is Some,
    ensures
        ({
            let (s1, x) = prop_tr(st, l, stack);
            let (s2, y) = prop_tr(s1, r, stack);
            let res = prop_tr(st, IRExprV::Iff(Box::new(l), Box::new(r)), stack);
            &&& x is Some
            &&& y is Some
            &&& res.0 == s2
            &&& m.sat(res.1->0, a) == (m.sat(x->0, a) == m.sat(y->0, a))
        }),
{
    let e = IRExprV::Iff(Box::new(l), Box::new(r));
    let (s1, x) = prop_tr(st, l, stack);
    let (s2, y) = prop_tr(s1, r, stack);
    crate::translation::lemma_prop_tr_iff(st, l, r, stack);
    if x is Some && y is Some {
        lemma_biconditional_truth(m, x->0, y->0, a);
    }
}

// ---------------------------------------------------------------------------
// Killing a mutant
// ---------------------------------------------------------------------------

/// A mutant is killed exactly when some implementation satisfies one of
/// the spec and the mutant but not the other, in either direction; the
/// killer is such an implementation, and the direction says whether it
/// satisfies the spec.
pub proof fn lemma_killed_iff_disagreement(
    st: MutantStatus,
    idx: usize,
    impls: Seq<FiniteModel>,
    s: Seq<FormulaV>,
    t: Seq<FormulaV>,
)
    requires
        exhaustive_status(st, idx, impls, s, t),
    ensures
        st.killed <==> exists|k: int| 0 <= k < impls.len() && #[trigger] impls[k].models(s) != impls[k].models(t),
        (exists|k: int| 0 <= k < impls.len() && #[trigger] impls[k].models(t) && !impls[k].models(s)) ==> st.killed,
        st.killed ==> {
            let k = st.killing_implementations@[0] as int;
            &&& 0 <= k < impls.len()
            &&& impls[k].models(s) != impls[k].models(t)
            &&& st.direction == Some(impls[k].models(s))
        },
{
    if exists|k: int| 0 <= k < impls.len() && #[trigger] impls[k].models(t) && !impls[k].models(s) {
        let k = choose|k: int| 0 <= k < impls.len() && #[trigger] impls[k].models(t) && !impls[k].models(s);
        assert(crate::tightness::distinguishes(impls[k], s, t));
    }
    if exists|k: int| 0 <= k < impls.len() && #[trigger] impls[k].models(s) != impls[k].models(t) {
        let k = choose|k: int| 0 <= k < impls.len() && #[trigger] impls[k].models(s) != impls[k].models(t);
        assert(crate::tightness::distinguishes(impls[k], s, t));
    }
    if st.killed {
        let k = choose|k: int| 0 <= k < impls.len() && crate::tightness::distinguishes(#[trigger] impls[k], s, t);
        assert(impls[k].models(s) != impls[k].models(t));
    }
}

// ---------------------------------------------------------------------------
// Decomposition
// ---------------------------------------------------------------------------

proof fn lemma_irreducible_members<C: EntailmentChecker>(checker: &C, axs: Seq<FormulaV>, k: nat, x: FormulaV)
    requires
        k <= axs.len(),
    ensures
        irreducible(checker, axs, k).contains(x) <==> exists|i: int|
            0 <= i < k && axs[i] == x && !#[trigger] checker.entails_spec(without(axs, i), seq![axs[i]]),
    decreases k,
{
    if k > 0 {
        lemma_irreducible_members(checker, axs, (k - 1) as nat, x);
        let prev = irreducible(checker, axs, (k - 1) as nat);
        let i = k - 1;
        if !checker.entails_spec(without(axs, i), seq![axs[i]]) {
            crate::translator::lemma_push_contains(prev, axs[i], x);
        }
        if exists|j: int| 0 <= j < k && axs[j] == x && !#[trigger] checker.entails_spec(without(axs, j), seq![axs[j]]) {
            let j = choose|j: int| 0 <= j < k && axs[j] == x && !#[trigger] checker.entails_spec(without(axs, j), seq![axs[j]]);
            if j < k - 1 {
                assert(prev.contains(x));
                if !checker.entails_spec(without(axs, i), seq![axs[i]]) {
                    crate::translator::lemma_push_contains(prev, axs[i], x);
                }
            }
        }
    }
}

/// Of distinct axioms, an axiom is a component of the decomposition
/// exactly when the other axioms do not entail it: every axiom the others
/// entail is dropped, every other one kept.
pub proof fn lemma_decomposition_components<C: EntailmentChecker>(checker: &C, axs: Seq<FormulaV>)
    requires
        forall|i: int, j: int| 0 <= i < j < axs.len() ==> axs[i] != axs[j],
    ensures
        forall|i: int|
            0 <= i < axs.len() ==> (irreducible(checker, axs, axs.len()).contains(#[trigger] axs[i]) <==> !checker.entails_spec(
                without(axs, i),
                seq![axs[i]],
            )),
{
    assert forall|i: int| 0 <= i < axs.len() implies (irreducible(checker, axs, axs.len()).contains(#[trigger] axs[i])
        <==> !checker.entails_spec(without(axs, i), seq![axs[i]])) by {
        lemma_irreducible_members(checker, axs, axs.len(), axs[i]);
        if irreducible(checker, axs, axs.len()).contains(axs[i]) {
            let j = choose|j: int|
                0 <= j < axs.len() && axs[j] == axs[i] && !#[trigger] checker.entails_spec(without(axs, j), seq![axs[j]]);
            assert(j == i);
        }
    }
}

/// The axioms of a well-formed specification are distinct, so the
/// decomposition of a specification keeps exactly its axioms that the
/// other axioms do not entail.
pub proof fn lemma_spec_decomposition<C: EntailmentChecker>(checker: &C, e: SpecElement)
    requires
        e.wf(),
    ensures
        forall|i: int|
            0 <= i < e.axiom_views().len() ==> (irreducible(checker, e.axiom_views(), e.axiom_views().len()).contains(
                #[trigger] e.axiom_views()[i],
            ) <==> !checker.entails_spec(without(e.axiom_views(), i), seq![e.axiom_views()[i]])),
{
    let axs = e.axiom_views();
    assert forall|i: int, j: int| 0 <= i < j < axs.len() implies axs[i] != axs[j] by {
        crate::formula::lemma_formula_order_zero(axs[i], axs[j]);
    }
    lemma_decomposition_components(checker, axs);
}

// ---------------------------------------------------------------------------
// Strengthening mutants
// ---------------------------------------------------------------------------

proof fn lemma_strengthenings_members<C: EntailmentChecker>(checker: &C, s: Seq<FormulaV>, i: nat, atoms: Seq<FormulaV>, c: CandidateV)
    ensures
        crate::mutation::strengthenings(checker, s, i, atoms).contains(c) <==> exists|k: int|
            0 <= k < atoms.len() && !s.contains(atoms[k]) && !#[trigger] checker.entails_spec(s, seq![atoms[k]]) && c == (
            MutantClass::Strengthening,
            i,
            normalize_all(s.push(atoms[k])),
            None::<FormulaV>,
            Some(atoms[k]),
        ),
    decreases atoms.len(),
{
    if atoms.len() > 0 {
        let a0 = atoms.drop_last();
        lemma_strengthenings_members(checker, s, i, a0, c);
        let prev = crate::mutation::strengthenings(checker, s, i, a0);
        let p = atoms.last();
        let n = (MutantClass::Strengthening, i, normalize_all(s.push(p)), None::<FormulaV>, Some(p));
        if !s.contains(p) && !checker.entails_spec(s, seq![p]) {
            crate::translator::lemma_push_contains(prev, n, c);
        }
        if exists|k: int|
            0 <= k < atoms.len() && !s.contains(atoms[k]) && !#[trigger] checker.entails_spec(s, seq![atoms[k]]) && c == (
            MutantClass::Strengthening,
            i,
            normalize_all(s.push(atoms[k])),
            None::<FormulaV>,
            Some(atoms[k]),
        ) {
            let k = choose|k: int|
                0 <= k < atoms.len() && !s.contains(atoms[k]) && !#[trigger] checker.entails_spec(s, seq![atoms[k]]) && c == (
                MutantClass::Strengthening,
                i,
                normalize_all(s.push(atoms[k])),
                None::<FormulaV>,
                Some(atoms[k]),
            );
            if k < atoms.len() - 1 {
                assert(a0[k] == atoms[k]);
                assert(prev.contains(c));
                if !s.contains(p) && !checker.entails_spec(s, seq![p]) {
                    crate::translator::lemma_push_contains(prev, n, c);
                }
            }
        }
        if exists|k: int|
            0 <= k < a0.len() && !s.contains(a0[k]) && !#[trigger] checker.entails_spec(s, seq![a0[k]]) && c == (
            MutantClass::Strengthening,
            i,
            normalize_all(s.push(a0[k])),
            None::<FormulaV>,
            Some(a0[k]),
        ) {
            let k = choose|k: int|
                0 <= k < a0.len() && !s.contains(a0[k]) && !#[trigger] checker.entails_spec(s, seq![a0[k]]) && c == (
                MutantClass::Strengthening,
                i,
                normalize_all(s.push(a0[k])),
                None::<FormulaV>,
                Some(a0[k]),
            );
            assert(atoms[k] == a0[k]);
        }
    }
}

/// Every closed atom that is not an axiom of the specification and that
/// the specification does not entail gives, for every component, a
/// strengthening candidate: the specification with the atom added.
pub proof fn lemma_strengthening_for_each_new_atom<C: EntailmentChecker>(
    checker: &C,
    s: Seq<FormulaV>,
    comps: Seq<FormulaV>,
    atoms: Seq<FormulaV>,
    i: nat,
    k: int,
)
    requires
        i < comps.len(),
        0 <= k < atoms.len(),
        !s.contains(atoms[k]),
        !checker.entails_spec(s, seq![atoms[k]]),
    ensures
        all_candidates(checker, s, comps, atoms, comps.len()).contains(
            (MutantClass::Strengthening, i, normalize_all(s.push(atoms[k])), None::<FormulaV>, Some(atoms[k])),
        ),
{
    let c = (MutantClass::Strengthening, i, normalize_all(s.push(atoms[k])), None::<FormulaV>, Some(atoms[k]));
    lemma_strengthenings_members(checker, s, i, atoms, c);
    lemma_all_candidates_has_component(checker, s, comps, atoms, comps.len(), i, c);
}

proof fn lemma_replacements_class(s: Seq<FormulaV>, i: nat, ji: FormulaV, atoms: Seq<FormulaV>, c: CandidateV)
    requires
        crate::mutation::replacements(s, i, ji, atoms).contains(c),
    ensures
        c.0 == MutantClass::Replacement,
    decreases atoms.len(),
{
    if atoms.len() > 0 {
        let prev = crate::mutation::replacements(s, i, ji, atoms.drop_last());
        let q = atoms.last();
        let n = (MutantClass::Replacement, i, normalize_all(crate::mutation::remove_axiom(s, ji).push(q)), Some(ji), Some(q));
        if q != ji {
            crate::translator::lemma_push_contains(prev, n, c);
        }
        if prev.contains(c) {
            lemma_replacements_class(s, i, ji, atoms.drop_last(), c);
        }
    }
}

/// Every strengthening candidate adds one closed atom that is not an axiom
/// of the specification and that the specification does not entail.
pub proof fn lemma_strengthenings_add_new_atoms<C: EntailmentChecker>(
    checker: &C,
    s: Seq<FormulaV>,
    comps: Seq<FormulaV>,
    atoms: Seq<FormulaV>,
    n: nat,
    c: CandidateV,
)
    requires
        n <= comps.len(),
        all_candidates(checker, s, comps, atoms, n).contains(c),
        c.0 == MutantClass::Strengthening,
    ensures
        exists|k: int|
            0 <= k < atoms.len() && !s.contains(atoms[k]) && !#[trigger] checker.entails_spec(s, seq![atoms[k]])
                && c == crate::mutation::strengthening_view(s, c.1, atoms[k]),
    decreases n,
{
    let prev = all_candidates(checker, s, comps, atoms, (n - 1) as nat);
    let i = (n - 1) as nat;
    let wk = seq![(MutantClass::Weakening, i, normalize_all(crate::mutation::remove_axiom(s, comps[n - 1])), Some(comps[n - 1]), None::<FormulaV>)];
    let st = crate::mutation::strengthenings(checker, s, i, atoms);
    let rp = crate::mutation::replacements(s, i, comps[n - 1], atoms);
    let cc = crate::mutation::component_candidates(checker, s, i, comps[n - 1], atoms);
    assert(cc == wk + st + rp);
    let all = prev + cc;
    let w = choose|w: int| 0 <= w < all.len() && all[w] == c;
    if w < prev.len() {
        assert(prev[w] == c);
        lemma_strengthenings_add_new_atoms(checker, s, comps, atoms, (n - 1) as nat, c);
    } else {
        let v = w - prev.len();
        assert(cc[v] == c);
        if v == 0 {
            assert(wk[0] == c);
        } else if v < 1 + st.len() {
            assert(st[v - 1] == c);
            lemma_strengthenings_members(checker, s, i, atoms, c);
        } else {
            assert(rp[v - 1 - st.len()] == c);
            lemma_replacements_class(s, i, comps[n - 1], atoms, c);
        }
    }
}

proof fn lemma_first_by_key_within(cands: Seq<CandidateV>, seen: Set<Seq<u8>>, c: CandidateV)
    requires
        first_by_key(cands, seen).contains(c),
    ensures
        cands.contains(c),
    decreases cands.len(),
{
    if cands.len() > 0 {
        let k = key_of(cands[0].2);
        let rest = cands.drop_first();
        if seen.contains(k) {
            lemma_first_by_key_within(rest, seen, c);
        } else {
            let tail = first_by_key(rest, seen.insert(k));
            let w = choose|w: int| 0 <= w < (seq![cands[0]] + tail).len() && (seq![cands[0]] + tail)[w] == c;
            if w > 0 {
                assert(tail[w - 1] == c);
                lemma_first_by_key_within(rest, seen.insert(k), c);
            }
        }
        if rest.contains(c) {
            let w = choose|w: int| 0 <= w < rest.len() && rest[w] == c;
            assert(cands[w + 1] == c);
        }
    }
}

/// Every strengthening in the neighborhood (the candidates after the
/// removal of those whose key was already seen) adds one closed atom that
/// is not an axiom of the specification and that the specification does
/// not entail.
pub proof fn lemma_neighborhood_strengthenings<C: EntailmentChecker>(
    checker: &C,
    s: Seq<FormulaV>,
    comps: Seq<FormulaV>,
    atoms: Seq<FormulaV>,
    seen: Set<Seq<u8>>,
    c: CandidateV,
)
    requires
        first_by_key(all_candidates(checker, s, comps, atoms, comps.len()), seen).contains(c),
        c.0 == MutantClass::Strengthening,
    ensures
        exists|k: int|
            0 <= k < atoms.len() && !s.contains(atoms[k]) && !#[trigger] checker.entails_spec(s, seq![atoms[k]])
                && c == crate::mutation::strengthening_view(s, c.1, atoms[k]),
{
    lemma_first_by_key_within(all_candidates(checker, s, comps, atoms, comps.len()), seen, c);
    lemma_strengthenings_add_new_atoms(checker, s, comps, atoms, comps.len(), c);
}

proof fn lemma_all_candidates_has_component<C: EntailmentChecker>(
    checker: &C,
    s: Seq<FormulaV>,
    comps: Seq<FormulaV>,
    atoms: Seq<FormulaV>,
    n: nat,
    i: nat,
    c: CandidateV,
)
    requires
        i < n <= comps.len(),
        crate::mutation::strengthenings(checker, s, i, atoms).contains(c),
    ensures
        all_candidates(checker, s, comps, atoms, n).contains(c),
    decreases n,
{
    let prev = all_candidates(checker, s, comps, atoms, (n - 1) as nat);
    let cc = crate::mutation::component_candidates(checker, s, (n - 1) as nat, comps[n - 1], atoms);
    if i < n - 1 {
        lemma_all_candidates_has_component(checker, s, comps, atoms, (n - 1) as nat, i, c);
        let w = choose|w: int| 0 <= w < prev.len() && prev[w] == c;
        assert((prev + cc)[w] == c);
    } else {
        let st = crate::mutation::strengthenings(checker, s, i, atoms);
        let w = choose|w: int| 0 <= w < st.len() && st[w] == c;
        let wk = seq![(MutantClass::Weakening, i, normalize_all(crate::mutation::remove_axiom(s, comps[n - 1])), Some(comps[n - 1]), None::<FormulaV>)];
        assert(cc == wk + st + crate::mutation::replacements(s, i, comps[n - 1], atoms));
        assert(cc[1 + w] == c);
        assert((prev + cc)[prev.len() + 1 + w] == c);
    }
}

} // verus!
