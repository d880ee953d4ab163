//! What the Lean pipeline reports of a translation, and how it picks the
//! implementation models it checks mutants against.
use vstd::prelude::*;
use crate::formula::{formulas_view, Formula};
use crate::ir_types::strings_view;
use crate::model::{same_structure, FiniteModel};
use crate::translation::decimal;
use crate::translator::{origin_view, AxiomOrigin, SortFilterReport, TranslationResult};
use crate::passes::OriginV;
use crate::slicer::TheoremSlice;
use crate::formula::{formulas_view as fviews, FormulaV};
use crate::metric::{count_both, count_models, JaccardMetric};
use crate::witness::{join, ranks_fit, safe_sat};
use crate::lattice::{normalize_all, SpecElement};
use crate::metric::all_evaluable;
use crate::tightness::{TightnessCounts, TightnessEvaluator};

verus! {

broadcast use vstd::std_specs::vec::group_vec_axioms;

/// A slice's dependency closure, as reported.
#[derive(Debug, Clone)]
pub struct DependencyClosure {
    /// Sort names in the slice signature.
    pub sorts: Vec<String>,
    /// Relation names in the slice signature.
    pub relations: Vec<String>,
    /// Function names in the slice signature.
    pub functions: Vec<String>,
    /// Number of axioms in the slice (predicate equations and theorem).
    pub axiom_count: usize,
    /// Origin names, e.g. `"Sorted.eq_1"`, `"find_insert"`, one per axiom
    /// of the slice, in order.
    pub axiom_origins: Vec<String>,
}

/// What a translation reports next to the tightness results.
#[derive(Debug, Clone)]
pub struct TranslationSummary {
    /// Names of theorems that translated.
    pub translated_theorems: Vec<String>,
    /// Names of predicates that gave at least one axiom.
    pub translated_predicates: Vec<String>,
    /// `(name, reason)` for theorems skipped.
    pub skipped_theorems: Vec<(String, String)>,
    /// `(name, reason)` for predicates skipped.
    pub skipped_predicates: Vec<(String, String)>,
    /// Non-fatal warnings.
    pub warnings: Vec<String>,
    /// The sort filter's report.
    pub sort_filter: SortFilterReport,
    /// Number of implementation models selected from the satisfying set
    /// (0 when implementations were given explicitly); in sliced mode, the
    /// total over the slices.
    pub auto_implementations: usize,
}

/// Abstract value of a list of `(name, reason)` pairs.
pub open spec fn pairs_view(v: Seq<(String, String)>) -> Seq<(Seq<char>, Seq<char>)> {
    v.map_values(|p: (String, String)| (p.0@, p.1@))
}

fn copy_strings(v: &Vec<String>) -> (r: Vec<String>)
    ensures
        strings_view(r@) == strings_view(v@),
{
    let mut out: Vec<String> = Vec::new();
    let mut i: usize = 0;
    while i < v.len()
        invariant
            i <= v@.len(),
            strings_view(out@) == strings_view(v@).take(i as int),
        decreases v.len() - i,
    {
        let ghost b = strings_view(out@);
        out.push(crate::signature::copy_string(&v[i]));
        proof {
            assert(strings_view(out@) =~= b.push(v@[i as int]@));
            assert(strings_view(v@).take(i + 1) =~= strings_view(v@).take(i as int).push(v@[i as int]@));
        }
        i = i + 1;
    }
    proof {
        assert(strings_view(v@).take(i as int) =~= strings_view(v@));
    }
    out
}

fn copy_pairs(v: &Vec<(String, String)>) -> (r: Vec<(String, String)>)
    ensures
        pairs_view(r@) == pairs_view(v@),
{
    let mut out: Vec<(String, String)> = Vec::new();
    let mut i: usize = 0;
    while i < v.len()
        invariant
            i <= v@.len(),
            pairs_view(out@) == pairs_view(v@).take(i as int),
        decreases v.len() - i,
    {
        let ghost b = pairs_view(out@);
        out.push((crate::signature::copy_string(&v[i].0), crate::signature::copy_string(&v[i].1)));
        proof {
            assert(pairs_view(out@) =~= b.push((v@[i as int].0@, v@[i as int].1@)));
            assert(pairs_view(v@).take(i + 1) =~= pairs_view(v@).take(i as int).push((v@[i as int].0@, v@[i as int].1@)));
        }
        i = i + 1;
    }
    proof {
        assert(pairs_view(v@).take(i as int) =~= pairs_view(v@));
    }
    out
}

impl TranslationSummary {
    /// The summary of a translation, with no implementation selected yet.
    pub fn from_result(r: &TranslationResult) -> (s: TranslationSummary)
        ensures
            strings_view(s.translated_theorems@) == strings_view(r.translated_theorems@),
            strings_view(s.translated_predicates@) == strings_view(r.translated_predicates@),
            pairs_view(s.skipped_theorems@) == pairs_view(r.skipped_theorems@),
            pairs_view(s.skipped_predicates@) == pairs_view(r.skipped_predicates@),
            strings_view(s.warnings@) == strings_view(r.warnings@),
            s.sort_filter.original_sorts == r.sort_filter.original_sorts,
            s.sort_filter.filtered_sorts == r.sort_filter.filtered_sorts,
            strings_view(s.sort_filter.removed@) == strings_view(r.sort_filter.removed@),
            s.auto_implementations == 0,
    {
        TranslationSummary {
            translated_theorems: copy_strings(&r.translated_theorems),
            translated_predicates: copy_strings(&r.translated_predicates),
            skipped_theorems: copy_pairs(&r.skipped_theorems),
            skipped_predicates: copy_pairs(&r.skipped_predicates),
            warnings: copy_strings(&r.warnings),
            sort_filter: SortFilterReport {
                original_sorts: r.sort_filter.original_sorts,
                filtered_sorts: r.sort_filter.filtered_sorts,
                removed: copy_strings(&r.sort_filter.removed),
            },
            auto_implementations: 0,
        }
    }
}

/// `head name: reason` lines, one per pair.
pub open spec fn skipped_lines(v: Seq<(Seq<char>, Seq<char>)>, head: Seq<char>) -> Seq<char>
    decreases v.len(),
{
    if v.len() == 0 {
        seq![]
    } else {
        skipped_lines(v.drop_last(), head) + head + v.last().0 + ": "@ + v.last().1 + "\n"@
    }
}

/// `head` and the names joined by `, `, on a line, when there are names.
pub open spec fn names_block(names: Seq<Seq<char>>, head: Seq<char>) -> Seq<char> {
    if names.len() > 0 {
        head + join(names, ", "@) + "\n"@
    } else {
        seq![]
    }
}

/// The sort filter's line, when it removed sorts.
pub open spec fn filter_block(f: SortFilterReport) -> Seq<char> {
    if f.original_sorts != f.filtered_sorts {
        "  Sort filter: "@ + decimal(f.original_sorts as nat) + " → "@ + decimal(f.filtered_sorts as nat)
            + " sorts (removed: "@ + (if f.removed@.len() == 0 {
            "—"@
        } else {
            join(strings_view(f.removed@), ", "@)
        }) + ")\n"@
    } else {
        seq![]
    }
}

/// The line on selected implementations, when some were.
pub open spec fn auto_block(n: usize) -> Seq<char> {
    if n > 0 {
        "  Auto-selected "@ + decimal(n as nat) + " implementation model(s) from satisfying set\n"@
    } else {
        seq![]
    }
}

/// The line on warnings, when there are some.
pub open spec fn warn_block(n: nat) -> Seq<char> {
    if n > 0 {
        "  ("@ + decimal(n) + " warnings)\n"@
    } else {
        seq![]
    }
}

/// The text block that [`format_translation_summary`] renders.
pub open spec fn summary_text(s: TranslationSummary) -> Seq<char> {
    "Lean analysis: "@ + decimal(s.translated_theorems@.len()) + " theorems, "@ + decimal(s.translated_predicates@.len())
        + " predicates translated\n"@ + names_block(strings_view(s.translated_theorems@), "  Translated theorems: "@)
        + names_block(strings_view(s.translated_predicates@), "  Translated predicates: "@) + skipped_lines(
        pairs_view(s.skipped_theorems@),
        "  Skipped theorem "@,
    ) + skipped_lines(pairs_view(s.skipped_predicates@), "  Skipped predicate "@) + filter_block(s.sort_filter)
        + auto_block(s.auto_implementations) + warn_block(s.warnings@.len())
}

fn join_all(v: &Vec<String>, sep: &str) -> (r: String)
    ensures
        r@ == join(strings_view(v@), sep@),
{
    let ghost pv = strings_view(v@);
    let mut out = String::new();
    let mut i: usize = 0;
    proof {
        assert(pv.take(0) =~= Seq::<Seq<char>>::empty());
    }
    while i < v.len()
        invariant
            i <= v@.len(),
            pv == strings_view(v@),
            out@ == join(pv.take(i as int), sep@),
        decreases v.len() - i,
    {
        if i > 0 {
            out.append(sep);
        }
        out.append(v[i].as_str());
        proof {
            assert(pv.take(i + 1).drop_last() =~= pv.take(i as int));
            assert(pv.take(i + 1).last() == v@[i as int]@);
            if i == 0 {
                assert(pv.take(1) =~= seq![v@[0]@]);
            }
        }
        i = i + 1;
    }
    proof {
        assert(pv.take(i as int) =~= pv);
    }
    out
}

fn push_skipped(out: &mut String, v: &Vec<(String, String)>, head: &str)
    ensures
        final(out)@ == old(out)@ + skipped_lines(pairs_view(v@), head@),
{
    let ghost pv = pairs_view(v@);
    let ghost start = out@;
    let mut i: usize = 0;
    proof {
        assert(pv.take(0) =~= Seq::<(Seq<char>, Seq<char>)>::empty());
    }
    while i < v.len()
        invariant
            i <= v@.len(),
            pv == pairs_view(v@),
            out@ == start + skipped_lines(pv.take(i as int), head@),
        decreases v.len() - i,
    {
        out.append(head);
        out.append(v[i].0.as_str());
        out.append(": ");
        out.append(v[i].1.as_str());
        out.append("\n");
        proof {
            assert(pv.take(i + 1).drop_last() =~= pv.take(i as int));
            assert(pv.take(i + 1).last() == (v@[i as int].0@, v@[i as int].1@));
        }
        i = i + 1;
    }
    proof {
        assert(pv.take(i as int) =~= pv);
    }
}

fn names_string(names: &Vec<String>, head: &str) -> (r: String)
    ensures
        r@ == names_block(strings_view(names@), head@),
{
    let mut out = String::new();
    if names.len() > 0 {
        out.append(head);
        let j = join_all(names, ", ");
        out.append(j.as_str());
        out.append("\n");
    }
    out
}

fn filter_string(f: &SortFilterReport) -> (r: String)
    ensures
        r@ == filter_block(*f),
{
    let mut out = String::new();
    if f.original_sorts != f.filtered_sorts {
        out.append("  Sort filter: ");
        let o = crate::translation::decimal_string(f.original_sorts as u64);
        out.append(o.as_str());
        out.append(" → ");
        let g = crate::translation::decimal_string(f.filtered_sorts as u64);
        out.append(g.as_str());
        out.append(" sorts (removed: ");
        if f.removed.len() == 0 {
            out.append("—");
        } else {
            let j = join_all(&f.removed, ", ");
            out.append(j.as_str());
        }
        out.append(")\n");
    }
    out
}

fn auto_string(n: usize) -> (r: String)
    ensures
        r@ == auto_block(n),
{
    let mut out = String::new();
    if n > 0 {
        out.append("  Auto-selected ");
        let d = crate::translation::decimal_string(n as u64);
        out.append(d.as_str());
        out.append(" implementation model(s) from satisfying set\n");
    }
    out
}

fn warn_string(n: usize) -> (r: String)
    ensures
        r@ == warn_block(n as nat),
{
    let mut out = String::new();
    if n > 0 {
        out.append("  (");
        let d = crate::translation::decimal_string(n as u64);
        out.append(d.as_str());
        out.append(" warnings)\n");
    }
    out
}

/// The translation summary as a text block: counts, the translated names,
/// one line per skipped declaration, the sort filter when it removed
/// sorts, the number of selected implementations when positive, and the
/// number of warnings when positive.
pub fn format_translation_summary(s: &TranslationSummary) -> (r: String)
    ensures
        r@ == summary_text(*s),
{
    let mut out = String::from_str("Lean analysis: ");
    let a = crate::translation::decimal_string(s.translated_theorems.len() as u64);
    out.append(a.as_str());
    out.append(" theorems, ");
    let b = crate::translation::decimal_string(s.translated_predicates.len() as u64);
    out.append(b.as_str());
    out.append(" predicates translated\n");
    let t1 = names_string(&s.translated_theorems, "  Translated theorems: ");
    out.append(t1.as_str());
    let t2 = names_string(&s.translated_predicates, "  Translated predicates: ");
    out.append(t2.as_str());
    push_skipped(&mut out, &s.skipped_theorems, "  Skipped theorem ");
    push_skipped(&mut out, &s.skipped_predicates, "  Skipped predicate ");
    let f = filter_string(&s.sort_filter);
    out.append(f.as_str());
    let g = auto_string(s.auto_implementations);
    out.append(g.as_str());
    let w = warn_string(s.warnings.len());
    out.append(w.as_str());
    proof {
        assert(out@ =~= summary_text(*s));
    }
    out
}

/// The models of the list that satisfy the axioms, in order.
pub open spec fn satisfying(ms: Seq<FiniteModel>, fs: Seq<crate::formula::FormulaV>) -> Seq<FiniteModel>
    decreases ms.len(),
{
    if ms.len() == 0 {
        seq![]
    } else if safe_sat(ms.last(), fs) {
        satisfying(ms.drop_last(), fs).push(ms.last())
    } else {
        satisfying(ms.drop_last(), fs)
    }
}

proof fn lemma_satisfying_grows(ms: Seq<FiniteModel>, fs: Seq<crate::formula::FormulaV>, k: int)
    requires
        0 <= k <= ms.len(),
    ensures
        satisfying(ms.take(k), fs).len() <= satisfying(ms, fs).len(),
        forall|j: int| 0 <= j < satisfying(ms.take(k), fs).len() ==> satisfying(ms.take(k), fs)[j] == satisfying(ms, fs)[j],
    decreases ms.len(),
{
    if k < ms.len() {
        assert(ms.drop_last().take(k) =~= ms.take(k));
        lemma_satisfying_grows(ms.drop_last(), fs, k);
    } else {
        assert(ms.take(k) =~= ms);
    }
}

/// The first `max_impls` models that satisfy every axiom, in order; a
/// model that cannot evaluate the axioms does not satisfy them.
pub fn auto_select_implementations(models: &[FiniteModel], axioms: &[Formula], max_impls: usize) -> (r: Vec<FiniteModel>)
    requires
        ranks_fit(axioms@),
    ensures
        r@.len() == (if satisfying(models@, formulas_view(axioms@)).len() < max_impls {
            satisfying(models@, formulas_view(axioms@)).len()
        } else {
            max_impls as nat
        }),
        forall|i: int| 0 <= i < r@.len() ==> same_structure(#[trigger] r@[i], satisfying(models@, formulas_view(axioms@))[i]),
{
    let ghost fs = formulas_view(axioms@);
    let ghost all = satisfying(models@, fs);
    let mut out: Vec<FiniteModel> = Vec::new();
    let mut i: usize = 0;
    proof {
        assert(models@.take(0) =~= Seq::<FiniteModel>::empty());
    }
    while i < models.len() && out.len() < max_impls
        invariant
            i <= models@.len(),
            fs == formulas_view(axioms@),
            all == satisfying(models@, fs),
            ranks_fit(axioms@),
            out@.len() == satisfying(models@.take(i as int), fs).len(),
            out@.len() <= max_impls,
            forall|j: int| 0 <= j < out@.len() ==> same_structure(#[trigger] out@[j], satisfying(models@.take(i as int), fs)[j]),
        decreases models.len() - i,
    {
        proof {
            assert(models@.take(i + 1).drop_last() =~= models@.take(i as int));
            assert(models@.take(i + 1).last() == models@[i as int]);
        }
        if crate::witness::safely_satisfies(&models[i], axioms) {
            out.push(models[i].copy());
        }
        i = i + 1;
    }
    proof {
        lemma_satisfying_grows(models@, fs, i as int);
        if out@.len() < max_impls {
            assert(models@.take(i as int) =~= models@);
        }
    }
    out
}

/// The name of an axiom's origin: `P.eq_k` for equation `k` (from one)
/// of predicate `P`, `P.body` for its body, the theorem's name for a
/// theorem.
pub open spec fn origin_name(o: OriginV) -> Seq<char> {
    match o {
        OriginV::Equation(p, i) => p + ".eq_"@ + decimal(i + 1),
        OriginV::Body(p) => p + ".body"@,
        OriginV::Theorem(t) => t,
    }
}

/// The name of an axiom's origin, as [`origin_name`] gives it.
pub fn format_origin(origin: &AxiomOrigin) -> (r: String)
    requires
        origin matches AxiomOrigin::PredicateEquation { equation_index, .. } ==> equation_index < u64::MAX,
    ensures
        r@ == origin_name(origin_view(*origin)),
{
    match origin {
        AxiomOrigin::PredicateEquation { predicate_name, equation_index } => {
            let mut out = crate::signature::copy_string(predicate_name);
            out.append(".eq_");
            let d = crate::translation::decimal_string(*equation_index as u64 + 1);
            out.append(d.as_str());
            out
        },
        AxiomOrigin::PredicateBody { predicate_name } => {
            let mut out = crate::signature::copy_string(predicate_name);
            out.append(".body");
            out
        },
        AxiomOrigin::TheoremStatement { theorem_name } => crate::signature::copy_string(theorem_name),
    }
}

/// The origin name of the first global axiom equal to `f`, or
/// `<unknown>` when none is.
pub open spec fn origin_of_axiom(f: FormulaV, axs: Seq<FormulaV>, ov: Seq<OriginV>) -> Seq<char> {
    if exists|i: int| 0 <= i < axs.len() && axs[i] == f {
        origin_name(ov[choose|i: int| 0 <= i < axs.len() && axs[i] == f && forall|j: int| 0 <= j < i ==> axs[j] != f])
    } else {
        "<unknown>"@
    }
}

/// A slice's dependency closure: its symbol names, its number of axioms,
/// and for each of its axioms the origin of the first equal axiom of the
/// translation.
pub fn build_dependency_closure(slice: &TheoremSlice, translation: &TranslationResult) -> (r: DependencyClosure)
    requires
        translation.axioms@.len() == translation.axiom_origins@.len(),
        forall|i: int| 0 <= i < translation.axiom_origins@.len() ==> (#[trigger] translation.axiom_origins@[i] matches AxiomOrigin::PredicateEquation { equation_index, .. } ==> equation_index < u64::MAX),
    ensures
        strings_view(r.sorts@) == strings_view(slice.included_sorts@),
        strings_view(r.relations@) == strings_view(slice.included_relations@),
        strings_view(r.functions@) == strings_view(slice.included_functions@),
        r.axiom_count == slice.all_axioms@.len(),
        r.axiom_origins@.len() == slice.all_axioms@.len(),
        forall|k: int| 0 <= k < slice.all_axioms@.len() ==> (#[trigger] r.axiom_origins@[k])@ == origin_of_axiom(
            slice.all_axioms@[k]@,
            fviews(translation.axioms@),
            translation.axiom_origins@.map_values(|o: AxiomOrigin| origin_view(o)),
        ),
{
    let ghost axs = fviews(translation.axioms@);
    let ghost ov = translation.axiom_origins@.map_values(|o: AxiomOrigin| origin_view(o));
    let mut names: Vec<String> = Vec::new();
    let mut k: usize = 0;
    while k < slice.all_axioms.len()
        invariant
            k <= slice.all_axioms@.len(),
            names@.len() == k,
            axs == fviews(translation.axioms@),
            ov == translation.axiom_origins@.map_values(|o: AxiomOrigin| origin_view(o)),
            translation.axioms@.len() == translation.axiom_origins@.len(),
            forall|i: int| 0 <= i < translation.axiom_origins@.len() ==> (#[trigger] translation.axiom_origins@[i] matches AxiomOrigin::PredicateEquation { equation_index, .. } ==> equation_index < u64::MAX),
            forall|q: int| 0 <= q < k ==> (#[trigger] names@[q])@ == origin_of_axiom(slice.all_axioms@[q]@, axs, ov),
        decreases slice.all_axioms.len() - k,
    {
        let f = &slice.all_axioms[k];
        let mut i: usize = 0;
        let mut found = false;
        while i < translation.axioms.len()
            invariant_except_break
                !found,
            invariant
                i <= translation.axioms@.len(),
                axs == fviews(translation.axioms@),
                forall|j: int| 0 <= j < i ==> axs[j] != f@,
            ensures
                found ==> i < axs.len() && axs[i as int] == f@,
                !found ==> forall|j: int| 0 <= j < axs.len() ==> axs[j] != f@,
            decreases translation.axioms.len() - i,
        {
            let c = crate::formula::compare_formulas(&translation.axioms[i], f);
            proof {
                crate::formula::lemma_formula_order_zero(translation.axioms@[i as int]@, f@);
            }
            if c == 0 {
                found = true;
                break;
            }
            i = i + 1;
        }
        if found {
            let nm = format_origin(&translation.axiom_origins[i]);
            proof {
                let w = choose|w: int| 0 <= w < axs.len() && axs[w] == f@ && forall|j: int| 0 <= j < w ==> axs[j] != f@;
                if w < i {
                } else if w > i as int {
                    assert(axs[i as int] != f@);
                }
                assert(ov[i as int] == origin_view(translation.axiom_origins@[i as int]));
            }
            names.push(nm);
        } else {
            names.push(String::from_str("<unknown>"));
        }
        k = k + 1;
    }
    DependencyClosure {
        sorts: copy_strings(&slice.included_sorts),
        relations: copy_strings(&slice.included_relations),
        functions: copy_strings(&slice.included_functions),
        axiom_count: slice.all_axioms.len(),
        axiom_origins: names,
    }
}

/// `|Mod(spec) △ Mod(mutant)|` over the model pool, for each mutant of the
/// neighborhood, in order.
pub fn compute_sym_diff_sizes(
    spec_axioms: &[Formula],
    mutant_axioms: &Vec<Vec<Formula>>,
    neighborhood: &[usize],
    models: Vec<FiniteModel>,
) -> (r: Vec<usize>)
    requires
        crate::metric::all_evaluable(models@, fviews(spec_axioms@)),
        forall|i: int| 0 <= i < neighborhood@.len() ==> #[trigger] neighborhood@[i] < mutant_axioms@.len(),
        forall|k: int| 0 <= k < mutant_axioms@.len() ==> crate::metric::all_evaluable(models@, fviews((#[trigger] mutant_axioms@[k])@)),
    ensures
        r@.len() == neighborhood@.len(),
        forall|i: int| 0 <= i < r@.len() ==> #[trigger] r@[i] == count_models(models@, fviews(spec_axioms@)) + count_models(
            models@,
            fviews(mutant_axioms@[neighborhood@[i] as int]@),
        ) - 2 * count_both(models@, fviews(spec_axioms@), fviews(mutant_axioms@[neighborhood@[i] as int]@)),
{
    let ghost ms = models@;
    let metric = JaccardMetric::new(models);
    let mut out: Vec<usize> = Vec::new();
    let mut i: usize = 0;
    while i < neighborhood.len()
        invariant
            i <= neighborhood@.len(),
            out@.len() == i,
            metric.model_list() == ms,
            crate::metric::all_evaluable(ms, fviews(spec_axioms@)),
            forall|q: int| 0 <= q < neighborhood@.len() ==> #[trigger] neighborhood@[q] < mutant_axioms@.len(),
            forall|k: int| 0 <= k < mutant_axioms@.len() ==> crate::metric::all_evaluable(ms, fviews((#[trigger] mutant_axioms@[k])@)),
            forall|q: int| 0 <= q < i ==> #[trigger] out@[q] == count_models(ms, fviews(spec_axioms@)) + count_models(
                ms,
                fviews(mutant_axioms@[neighborhood@[q] as int]@),
            ) - 2 * count_both(ms, fviews(spec_axioms@), fviews(mutant_axioms@[neighborhood@[q] as int]@)),
        decreases neighborhood.len() - i,
    {
        let idx = neighborhood[i];
        proof {
            assert(crate::metric::all_evaluable(ms, fviews(mutant_axioms@[idx as int]@)));
        }
        let c = metric.counts(spec_axioms, mutant_axioms[idx].as_slice());
        out.push(c.symmetric_difference_size);
        i = i + 1;
    }
    out
}

/// `f` is, in the translation, first found as an axiom stated by the
/// theorem `name`.
pub open spec fn stated_by(f: FormulaV, axs: Seq<FormulaV>, ov: Seq<OriginV>, name: Seq<char>) -> bool {
    exists|i: int|
        0 <= i < axs.len() && axs[i] == f && ov[i] == OriginV::Theorem(name) && forall|j: int| 0 <= j < i ==> axs[j] != f
}

/// The axioms of `fs` that the theorem `name` does not state: the
/// supporting axioms of its slice.
pub open spec fn supporting(fs: Seq<FormulaV>, axs: Seq<FormulaV>, ov: Seq<OriginV>, name: Seq<char>) -> Seq<FormulaV> {
    fs.filter(|f: FormulaV| !stated_by(f, axs, ov, name))
}

/// The supporting axioms of a slice, in order: its axioms without those
/// its theorem states.  `None` when the theorem states none of them.
pub fn supporting_axioms(slice: &TheoremSlice, translation: &TranslationResult) -> (r: Option<Vec<Formula>>)
    requires
        translation.axioms@.len() == translation.axiom_origins@.len(),
    ensures
        ({
            let axs = fviews(translation.axioms@);
            let ov = translation.axiom_origins@.map_values(|o: AxiomOrigin| origin_view(o));
            let sup = supporting(fviews(slice.all_axioms@), axs, ov, slice.theorem_name@);
            &&& r is None <==> sup.len() == slice.all_axioms@.len()
            &&& r matches Some(v) ==> fviews(v@) == sup
        }),
{
    let ghost axs = fviews(translation.axioms@);
    let ghost ov = translation.axiom_origins@.map_values(|o: AxiomOrigin| origin_view(o));
    let ghost name = slice.theorem_name@;
    let ghost fs = fviews(slice.all_axioms@);
    let mut out: Vec<Formula> = Vec::new();
    let mut k: usize = 0;
    while k < slice.all_axioms.len()
        invariant
            k <= slice.all_axioms@.len(),
            axs == fviews(translation.axioms@),
            ov == translation.axiom_origins@.map_values(|o: AxiomOrigin| origin_view(o)),
            name == slice.theorem_name@,
            fs == fviews(slice.all_axioms@),
            translation.axioms@.len() == translation.axiom_origins@.len(),
            fviews(out@) == supporting(fs.take(k as int), axs, ov, name),
        decreases slice.all_axioms.len() - k,
    {
        let f = &slice.all_axioms[k];
        let mut i: usize = 0;
        let mut found = false;
        while i < translation.axioms.len()
            invariant_except_break
                !found,
            invariant
                i <= translation.axioms@.len(),
                axs == fviews(translation.axioms@),
                forall|j: int| 0 <= j < i ==> axs[j] != f@,
            ensures
                found ==> i < axs.len() && axs[i as int] == f@,
                !found ==> forall|j: int| 0 <= j < axs.len() ==> axs[j] != f@,
            decreases translation.axioms.len() - i,
        {
            let c = crate::formula::compare_formulas(&translation.axioms[i], f);
            proof {
                crate::formula::lemma_formula_order_zero(translation.axioms@[i as int]@, f@);
            }
            if c == 0 {
                found = true;
                break;
            }
            i = i + 1;
        }
        let stated = if found {
            match &translation.axiom_origins[i] {
                AxiomOrigin::TheoremStatement { theorem_name } => crate::names::str_eq(
                    theorem_name.as_str(),
                    slice.theorem_name.as_str(),
                ),
                _ => false,
            }
        } else {
            false
        };
        proof {
            assert(fs[k as int] == f@);
            if found {
                assert(ov[i as int] == origin_view(translation.axiom_origins@[i as int]));
                if stated {
                    assert(stated_by(f@, axs, ov, name));
                } else {
                    if stated_by(f@, axs, ov, name) {
                        let w = choose|w: int|
                            0 <= w < axs.len() && axs[w] == f@ && ov[w] == OriginV::Theorem(name) && forall|j: int|
                                0 <= j < w ==> axs[j] != f@;
                        if w < i {
                        } else if w > i {
                            assert(axs[i as int] != f@);
                        }
                    }
                }
            }
            assert(stated == stated_by(f@, axs, ov, name));
            reveal(Seq::filter);
            assert(fs.take(k + 1).drop_last() =~= fs.take(k as int));
            assert(fs.take(k + 1).last() == f@);
        }
        if !stated {
            let ghost before = out@;
            out.push(crate::formula::copy_formula(f));
            proof {
                assert(fviews(out@) =~= fviews(before).push(f@));
            }
        }
        k = k + 1;
    }
    proof {
        assert(fs.take(k as int) =~= fs);
        assert(fs.len() == slice.all_axioms@.len());
        let sup = supporting(fs, axs, ov, name);
        assert(sup.len() <= fs.len()) by {
            fs.lemma_filter_len(|f: FormulaV| !stated_by(f, axs, ov, name));
        }
    }
    if out.len() == slice.all_axioms.len() {
        None
    } else {
        Some(out)
    }
}

/// The tightness of the mutants of a slice against its supporting axioms
/// alone, the baseline of its theorem's contribution; `None` when the
/// theorem states none of the slice's axioms.
pub fn compute_baseline_tightness(
    slice: &TheoremSlice,
    translation: &TranslationResult,
    mutant_specs: &[SpecElement],
    neighborhood: &[usize],
    models: Vec<FiniteModel>,
    implementations: &[FiniteModel],
) -> (r: Option<TightnessCounts>)
    requires
        translation.axioms@.len() == translation.axiom_origins@.len(),
        all_evaluable(
            implementations@,
            normalize_all(
                supporting(
                    fviews(slice.all_axioms@),
                    fviews(translation.axioms@),
                    translation.axiom_origins@.map_values(|o: AxiomOrigin| origin_view(o)),
                    slice.theorem_name@,
                ),
            ),
        ),
        forall|i: int| 0 <= i < neighborhood@.len() ==> #[trigger] neighborhood@[i] < mutant_specs@.len(),
        forall|k: int| 0 <= k < mutant_specs@.len() ==> all_evaluable(implementations@, (#[trigger] mutant_specs@[k]).axiom_views()),
    ensures
        ({
            let sup = supporting(
                fviews(slice.all_axioms@),
                fviews(translation.axioms@),
                translation.axiom_origins@.map_values(|o: AxiomOrigin| origin_view(o)),
                slice.theorem_name@,
            );
            &&& r is None <==> sup.len() == slice.all_axioms@.len()
            &&& r matches Some(t) ==> {
                &&& t.neighborhood_size == neighborhood@.len()
                &&& t.mutant_statuses@.len() == neighborhood@.len()
                &&& forall|i: int|
                    0 <= i < neighborhood@.len() ==> crate::tightness::exhaustive_status(
                        #[trigger] t.mutant_statuses@[i],
                        neighborhood@[i],
                        implementations@,
                        normalize_all(sup),
                        mutant_specs@[neighborhood@[i] as int].axiom_views(),
                    )
                &&& t.killed_count + t.alive_count == t.neighborhood_size
            }
        }),
{
    match supporting_axioms(slice, translation) {
        None => None,
        Some(sup) => {
            let spec = SpecElement::from_axioms(sup);
            let evaluator = TightnessEvaluator::new(JaccardMetric::new(models));
            Some(evaluator.evaluate(&spec, mutant_specs, neighborhood, implementations))
        },
    }
}

} // verus!
