//! Witnesses for surviving mutants: among the models already enumerated,
//! the simplest one on which the spec and the mutant disagree, described
//! in one line and itemised relation by relation.
use vstd::prelude::*;
use crate::formula::{formulas_view, rank, Formula, FormulaV};
use crate::model::{tuples_view, FiniteModel, RelationInterp};
use crate::mutation::MutantClass;
use crate::signature::SortSymbol;
use crate::tightness::{MutantStatus, MutantWitness, WitnessDirection};
use crate::translation::decimal;

verus! {

broadcast use vstd::std_specs::vec::group_vec_axioms;

// ---------------------------------------------------------------------------
// Text
// ---------------------------------------------------------------------------

/// The parts with `sep` between each two.
pub open spec fn join(parts: Seq<Seq<char>>, sep: Seq<char>) -> Seq<char>
    decreases parts.len(),
{
    if parts.len() == 0 {
        seq![]
    } else if parts.len() == 1 {
        parts[0]
    } else {
        join(parts.drop_last(), sep) + sep + parts.last()
    }
}

/// The numbers of a tuple in decimal, `sep` between each two.
pub open spec fn nums_text(t: Seq<usize>, sep: Seq<char>) -> Seq<char> {
    join(t.map_values(|x: usize| decimal(x as nat)), sep)
}

/// `|Sort| = n`.
pub open spec fn carrier_text(c: (SortSymbol, usize)) -> Seq<char> {
    "|"@ + c.0.name@ + "| = "@ + decimal(c.1 as nat)
}

/// `(a,b)`.
pub open spec fn tuple_text(t: Seq<usize>) -> Seq<char> {
    "("@ + nums_text(t, ","@) + ")"@
}

/// `R = {(a,b), (c,d)}`.
pub open spec fn relation_text(r: RelationInterp) -> Seq<char> {
    r.name@ + " = {"@ + join(tuples_view(r.tuples@).map_values(|t: Seq<usize>| tuple_text(t)), ", "@) + "}"@
}

/// One-line description of a model: its carriers, then its relations.
pub open spec fn describe_spec(m: FiniteModel) -> Seq<char> {
    let cs = m.carriers@;
    let rs = m.relation_interps@;
    let parts = (if cs.len() > 0 {
        seq![join(cs.map_values(|c: (SortSymbol, usize)| carrier_text(c)), ", "@)]
    } else {
        Seq::<Seq<char>>::empty()
    }) + (if rs.len() > 0 {
        seq![join(rs.map_values(|r: RelationInterp| relation_text(r)), "; "@)]
    } else {
        Seq::<Seq<char>>::empty()
    });
    if parts.len() == 0 {
        "<empty model>"@
    } else {
        join(parts, " | "@)
    }
}

/// `R(a, b), R(c, d)`.
pub open spec fn fact_text(r: RelationInterp) -> Seq<char> {
    join(tuples_view(r.tuples@).map_values(|t: Seq<usize>| r.name@ + "("@ + nums_text(t, ", "@) + ")"@), ", "@)
}

/// The facts of the relations holding somewhere, in order.
pub open spec fn nonempty_facts(rs: Seq<RelationInterp>) -> Seq<Seq<char>>
    decreases rs.len(),
{
    if rs.len() == 0 {
        seq![]
    } else if rs.last().tuples@.len() > 0 {
        nonempty_facts(rs.drop_last()).push(fact_text(rs.last()))
    } else {
        nonempty_facts(rs.drop_last())
    }
}

/// The facts of a model, or a line saying there are none.
pub open spec fn facts_spec(m: FiniteModel) -> Seq<Seq<char>> {
    let fs = nonempty_facts(m.relation_interps@);
    if fs.len() == 0 {
        seq!["(no non-empty relations in witness)"@]
    } else {
        fs
    }
}

fn join_strings(parts: &Vec<String>, sep: &str) -> (r: String)
    ensures
        r@ == join(crate::ir_types::strings_view(parts@), sep@),
{
    let ghost pv = crate::ir_types::strings_view(parts@);
    let mut out = String::new();
    let mut i: usize = 0;
    proof {
        assert(pv.take(0) =~= Seq::<Seq<char>>::empty());
    }
    while i < parts.len()
        invariant
            i <= parts@.len(),
            pv == crate::ir_types::strings_view(parts@),
            out@ == join(pv.take(i as int), sep@),
        decreases parts.len() - i,
    {
        if i > 0 {
            out.append(sep);
        }
        out.append(parts[i].as_str());
        proof {
            assert(pv.take(i + 1).drop_last() =~= pv.take(i as int));
            assert(pv.take(i + 1).last() == parts@[i as int]@);
            if i == 0 {
                assert(pv.take(1) =~= seq![parts@[0]@]);
            }
        }
        i = i + 1;
    }
    proof {
        assert(pv.take(i as int) =~= pv);
    }
    out
}

fn nums_string(t: &Vec<usize>, sep: &str) -> (r: String)
    ensures
        r@ == nums_text(t@, sep@),
{
    let mut parts: Vec<String> = Vec::new();
    let mut i: usize = 0;
    while i < t.len()
        invariant
            i <= t@.len(),
            crate::ir_types::strings_view(parts@) == t@.take(i as int).map_values(|x: usize| decimal(x as nat)),
        decreases t.len() - i,
    {
        let ghost b = crate::ir_types::strings_view(parts@);
        parts.push(crate::translation::decimal_string(t[i] as u64));
        proof {
            assert(crate::ir_types::strings_view(parts@) =~= b.push(decimal(t@[i as int] as nat)));
            assert(t@.take(i + 1).map_values(|x: usize| decimal(x as nat)) =~= t@.take(i as int).map_values(
                |x: usize| decimal(x as nat),
            ).push(decimal(t@[i as int] as nat)));
        }
        i = i + 1;
    }
    proof {
        assert(t@.take(i as int) =~= t@);
    }
    join_strings(&parts, sep)
}

fn carrier_string(c: &(SortSymbol, usize)) -> (r: String)
    ensures
        r@ == carrier_text(*c),
{
    let mut out = String::from_str("|");
    out.append(c.0.name.as_str());
    out.append("| = ");
    let d = crate::translation::decimal_string(c.1 as u64);
    out.append(d.as_str());
    out
}

fn tuple_string(t: &Vec<usize>) -> (r: String)
    ensures
        r@ == tuple_text(t@),
{
    let mut out = String::from_str("(");
    let n = nums_string(t, ",");
    out.append(n.as_str());
    out.append(")");
    out
}

fn relation_string(r: &RelationInterp) -> (s: String)
    ensures
        s@ == relation_text(*r),
{
    let mut parts: Vec<String> = Vec::new();
    let ghost tv = tuples_view(r.tuples@);
    let mut i: usize = 0;
    while i < r.tuples.len()
        invariant
            i <= r.tuples@.len(),
            tv == tuples_view(r.tuples@),
            crate::ir_types::strings_view(parts@) == tv.take(i as int).map_values(|t: Seq<usize>| tuple_text(t)),
        decreases r.tuples.len() - i,
    {
        let ghost b = crate::ir_types::strings_view(parts@);
        parts.push(tuple_string(&r.tuples[i]));
        proof {
            assert(crate::ir_types::strings_view(parts@) =~= b.push(tuple_text(tv[i as int])));
            assert(tv.take(i + 1).map_values(|t: Seq<usize>| tuple_text(t)) =~= tv.take(i as int).map_values(
                |t: Seq<usize>| tuple_text(t),
            ).push(tuple_text(tv[i as int])));
        }
        i = i + 1;
    }
    proof {
        assert(tv.take(i as int) =~= tv);
    }
    let mut out = String::new();
    out.append(r.name.as_str());
    out.append(" = {");
    let inner = join_strings(&parts, ", ");
    out.append(inner.as_str());
    out.append("}");
    out
}

/// One-line description of a model: `|S| = n, ...` for the carriers,
/// then `R = {(a,b), ...}; ...` for the relations, joined by ` | `, or
/// `<empty model>` when it has neither.
pub fn describe_model(model: &FiniteModel) -> (r: String)
    ensures
        r@ == describe_spec(*model),
{
    let mut parts: Vec<String> = Vec::new();
    let ghost cs = model.carriers@;
    let ghost rs = model.relation_interps@;
    if model.carriers.len() > 0 {
        let mut items: Vec<String> = Vec::new();
        let mut i: usize = 0;
        while i < model.carriers.len()
            invariant
                i <= cs.len(),
                cs == model.carriers@,
                crate::ir_types::strings_view(items@) == cs.take(i as int).map_values(|c: (SortSymbol, usize)| carrier_text(c)),
            decreases cs.len() - i,
        {
            let ghost b = crate::ir_types::strings_view(items@);
            items.push(carrier_string(&model.carriers[i]));
            proof {
                assert(crate::ir_types::strings_view(items@) =~= b.push(carrier_text(cs[i as int])));
                assert(cs.take(i + 1).map_values(|c: (SortSymbol, usize)| carrier_text(c)) =~= cs.take(i as int).map_values(
                    |c: (SortSymbol, usize)| carrier_text(c),
                ).push(carrier_text(cs[i as int])));
            }
            i = i + 1;
        }
        proof {
            assert(cs.take(i as int) =~= cs);
        }
        parts.push(join_strings(&items, ", "));
    }
    if model.relation_interps.len() > 0 {
        let mut items: Vec<String> = Vec::new();
        let mut i: usize = 0;
        while i < model.relation_interps.len()
            invariant
                i <= rs.len(),
                rs == model.relation_interps@,
                crate::ir_types::strings_view(items@) == rs.take(i as int).map_values(|r: RelationInterp| relation_text(r)),
            decreases rs.len() - i,
        {
            let ghost b = crate::ir_types::strings_view(items@);
            items.push(relation_string(&model.relation_interps[i]));
            proof {
                assert(crate::ir_types::strings_view(items@) =~= b.push(relation_text(rs[i as int])));
                assert(rs.take(i + 1).map_values(|r: RelationInterp| relation_text(r)) =~= rs.take(i as int).map_values(
                    |r: RelationInterp| relation_text(r),
                ).push(relation_text(rs[i as int])));
            }
            i = i + 1;
        }
        proof {
            assert(rs.take(i as int) =~= rs);
        }
        parts.push(join_strings(&items, "; "));
    }
    proof {
        let c1 = if cs.len() > 0 {
            seq![join(cs.map_values(|c: (SortSymbol, usize)| carrier_text(c)), ", "@)]
        } else {
            Seq::<Seq<char>>::empty()
        };
        let r1 = if rs.len() > 0 {
            seq![join(rs.map_values(|r: RelationInterp| relation_text(r)), "; "@)]
        } else {
            Seq::<Seq<char>>::empty()
        };
        assert(crate::ir_types::strings_view(parts@) =~= c1 + r1);
    }
    if parts.len() == 0 {
        String::from_str("<empty model>")
    } else {
        join_strings(&parts, " | ")
    }
}

fn fact_string(r: &RelationInterp) -> (s: String)
    ensures
        s@ == fact_text(*r),
{
    let mut parts: Vec<String> = Vec::new();
    let ghost tv = tuples_view(r.tuples@);
    let mut i: usize = 0;
    while i < r.tuples.len()
        invariant
            i <= r.tuples@.len(),
            tv == tuples_view(r.tuples@),
            crate::ir_types::strings_view(parts@) == tv.take(i as int).map_values(
                |t: Seq<usize>| r.name@ + "("@ + nums_text(t, ", "@) + ")"@,
            ),
        decreases r.tuples.len() - i,
    {
        let ghost b = crate::ir_types::strings_view(parts@);
        let mut item = String::new();
        item.append(r.name.as_str());
        item.append("(");
        let n = nums_string(&r.tuples[i], ", ");
        item.append(n.as_str());
        item.append(")");
        parts.push(item);
        proof {
            assert(crate::ir_types::strings_view(parts@) =~= b.push(r.name@ + "("@ + nums_text(tv[i as int], ", "@) + ")"@));
            assert(tv.take(i + 1).map_values(|t: Seq<usize>| r.name@ + "("@ + nums_text(t, ", "@) + ")"@) =~= tv.take(
                i as int,
            ).map_values(|t: Seq<usize>| r.name@ + "("@ + nums_text(t, ", "@) + ")"@).push(
                r.name@ + "("@ + nums_text(tv[i as int], ", "@) + ")"@,
            ));
        }
        i = i + 1;
    }
    proof {
        assert(tv.take(i as int) =~= tv);
    }
    join_strings(&parts, ", ")
}

/// One line per relation that holds somewhere, `R(a, b), R(c, d)`; a
/// single line saying so when none does.
pub fn distinguishing_facts(model: &FiniteModel) -> (r: Vec<String>)
    ensures
        crate::ir_types::strings_view(r@) == facts_spec(*model),
{
    let ghost rs = model.relation_interps@;
    let mut facts: Vec<String> = Vec::new();
    let mut i: usize = 0;
    while i < model.relation_interps.len()
        invariant
            i <= rs.len(),
            rs == model.relation_interps@,
            crate::ir_types::strings_view(facts@) == nonempty_facts(rs.take(i as int)),
        decreases rs.len() - i,
    {
        proof {
            assert(rs.take(i + 1).drop_last() =~= rs.take(i as int));
            assert(rs.take(i + 1).last() == rs[i as int]);
        }
        if model.relation_interps[i].tuples.len() > 0 {
            let ghost b = crate::ir_types::strings_view(facts@);
            facts.push(fact_string(&model.relation_interps[i]));
            proof {
                assert(crate::ir_types::strings_view(facts@) =~= b.push(fact_text(rs[i as int])));
            }
        }
        i = i + 1;
    }
    proof {
        assert(rs.take(i as int) =~= rs);
    }
    if facts.len() == 0 {
        let mut one: Vec<String> = Vec::new();
        one.push(String::from_str("(no non-empty relations in witness)"));
        proof {
            assert(crate::ir_types::strings_view(one@) =~= seq!["(no non-empty relations in witness)"@]);
        }
        one
    } else {
        facts
    }
}

// ---------------------------------------------------------------------------
// Choosing a witness
// ---------------------------------------------------------------------------

/// Sum of the carrier sizes.
pub open spec fn carrier_total(cs: Seq<(SortSymbol, usize)>) -> nat
    decreases cs.len(),
{
    if cs.len() == 0 {
        0
    } else {
        carrier_total(cs.drop_last()) + cs.last().1 as nat
    }
}

/// Number of listed relation tuples.
pub open spec fn tuple_total(rs: Seq<RelationInterp>) -> nat
    decreases rs.len(),
{
    if rs.len() == 0 {
        0
    } else {
        tuple_total(rs.drop_last()) + rs.last().tuples@.len()
    }
}

/// Simplicity of a witness: total carrier size first, then the number of
/// relation tuples.
pub open spec fn weight_spec(m: FiniteModel) -> nat {
    carrier_total(m.carriers@) * 1_000_000 + tuple_total(m.relation_interps@)
}

/// Lower is simpler: `1_000_000 ×` the total carrier size, plus the number
/// of relation tuples.
pub fn witness_weight(model: &FiniteModel) -> (r: usize)
    requires
        weight_spec(*model) <= usize::MAX,
    ensures
        r == weight_spec(*model),
{
    let ghost cs = model.carriers@;
    let ghost rs = model.relation_interps@;
    proof {
        lemma_carrier_total_prefix(cs, cs.len() as int);
        lemma_tuple_total_prefix(rs, rs.len() as int);
    }
    let mut c: usize = 0;
    let mut i: usize = 0;
    while i < model.carriers.len()
        invariant
            i <= cs.len(),
            cs == model.carriers@,
            c == carrier_total(cs.take(i as int)),
            carrier_total(cs) * 1_000_000 <= usize::MAX,
        decreases cs.len() - i,
    {
        proof {
            assert(cs.take(i + 1).drop_last() =~= cs.take(i as int));
            lemma_carrier_total_prefix(cs, i + 1);
        }
        c = c + model.carriers[i].1;
        i = i + 1;
    }
    proof {
        assert(cs.take(i as int) =~= cs);
    }
    let mut t: usize = 0;
    let mut j: usize = 0;
    while j < model.relation_interps.len()
        invariant
            j <= rs.len(),
            rs == model.relation_interps@,
            t == tuple_total(rs.take(j as int)),
            c * 1_000_000 + tuple_total(rs) <= usize::MAX,
        decreases rs.len() - j,
    {
        proof {
            assert(rs.take(j + 1).drop_last() =~= rs.take(j as int));
            lemma_tuple_total_prefix(rs, j + 1);
        }
        t = t + model.relation_interps[j].tuples.len();
        j = j + 1;
    }
    proof {
        assert(rs.take(j as int) =~= rs);
    }
    c * 1_000_000 + t
}

proof fn lemma_carrier_total_prefix(cs: Seq<(SortSymbol, usize)>, k: int)
    requires
        0 <= k <= cs.len(),
    ensures
        carrier_total(cs.take(k)) <= carrier_total(cs),
    decreases cs.len(),
{
    if k < cs.len() {
        assert(cs.drop_last().take(k) =~= cs.take(k));
        lemma_carrier_total_prefix(cs.drop_last(), k);
    } else {
        assert(cs.take(k) =~= cs);
    }
}

proof fn lemma_tuple_total_prefix(rs: Seq<RelationInterp>, k: int)
    requires
        0 <= k <= rs.len(),
    ensures
        tuple_total(rs.take(k)) <= tuple_total(rs),
    decreases rs.len(),
{
    if k < rs.len() {
        assert(rs.drop_last().take(k) =~= rs.take(k));
        lemma_tuple_total_prefix(rs.drop_last(), k);
    } else {
        assert(rs.take(k) =~= rs);
    }
}

/// Every formula has a quantifier depth that a machine word holds.
pub open spec fn ranks_fit(fs: Seq<Formula>) -> bool {
    forall|i: int| 0 <= i < fs.len() ==> rank((#[trigger] fs[i])@) <= usize::MAX
}

/// `m` can evaluate the axioms and satisfies them; a model that cannot
/// evaluate them counts as not satisfying.
pub open spec fn safe_sat(m: FiniteModel, fs: Seq<FormulaV>) -> bool {
    m.evaluable(fs) && m.models(fs)
}

/// [`safe_sat`], computed.
pub fn safely_satisfies(model: &FiniteModel, axioms: &[Formula]) -> (r: bool)
    requires
        ranks_fit(axioms@),
    ensures
        r == safe_sat(*model, formulas_view(axioms@)),
{
    if model.can_evaluate(axioms) {
        model.satisfies_spec(axioms)
    } else {
        false
    }
}

/// The spec and the mutant disagree on `m`.
pub open spec fn distinguishes(m: FiniteModel, sfs: Seq<FormulaV>, mfs: Seq<FormulaV>) -> bool {
    safe_sat(m, sfs) != safe_sat(m, mfs)
}

/// Model `k` distinguishes, no distinguishing model weighs less, and none
/// before it weighs as little.
pub open spec fn simplest_at(models: Seq<FiniteModel>, sfs: Seq<FormulaV>, mfs: Seq<FormulaV>, k: int) -> bool {
    &&& 0 <= k < models.len()
    &&& distinguishes(models[k], sfs, mfs)
    &&& forall|j: int| 0 <= j < models.len() && distinguishes(#[trigger] models[j], sfs, mfs) ==> weight_spec(models[k]) <= weight_spec(models[j])
    &&& forall|j: int| 0 <= j < k && distinguishes(#[trigger] models[j], sfs, mfs) ==> weight_spec(models[k]) < weight_spec(models[j])
}

/// The side the witness `m` lives on.
pub open spec fn direction_spec(m: FiniteModel, sfs: Seq<FormulaV>, mfs: Seq<FormulaV>) -> WitnessDirection {
    if !safe_sat(m, sfs) && safe_sat(m, mfs) {
        WitnessDirection::MutantAdmits
    } else {
        WitnessDirection::MutantRejects
    }
}

/// Text before the model summary in an interpretation.
pub open spec fn interp_head(c: MutantClass, d: WitnessDirection) -> Seq<char> {
    match (c, d) {
        (MutantClass::Weakening, WitnessDirection::MutantAdmits) => "Removing the axiom admits a model the spec rejects ("@,
        (MutantClass::Weakening, WitnessDirection::MutantRejects) => "After removing the axiom, the spec admits a model the mutant rejects ("@,
        (MutantClass::Strengthening, WitnessDirection::MutantAdmits) => "Adding the new conjunct admits a model the original rejects ("@,
        (MutantClass::Strengthening, WitnessDirection::MutantRejects) => "Adding the new conjunct would reject a model the spec admits ("@,
        (MutantClass::Replacement, WitnessDirection::MutantAdmits) => "After predicate replacement, a model the spec rejects becomes admissible ("@,
        (MutantClass::Replacement, WitnessDirection::MutantRejects) => "After predicate replacement, a model the spec admits becomes inadmissible ("@,
    }
}

/// Text after the model summary in an interpretation.
pub open spec fn interp_tail(c: MutantClass, d: WitnessDirection) -> Seq<char> {
    match (c, d) {
        (MutantClass::Weakening, WitnessDirection::MutantAdmits) => "). The dropped axiom carries constraint not derivable from the rest of the spec."@,
        (MutantClass::Weakening, WitnessDirection::MutantRejects) => "). The axiom is partially redundant — its removal weakens constraint, but in this direction."@,
        (MutantClass::Strengthening, WitnessDirection::MutantAdmits) => "). Unexpected: typically strengthening should never enlarge the model set."@,
        (MutantClass::Strengthening, WitnessDirection::MutantRejects) => "). The spec currently allows this — the constraint is missing."@,
        (MutantClass::Replacement, WitnessDirection::MutantAdmits) => "). The original axiom carries a distinction the replacement loses."@,
        (MutantClass::Replacement, WitnessDirection::MutantRejects) => "). The replacement is strictly stronger on this model."@,
    }
}

fn interp_parts(c: MutantClass, d: WitnessDirection) -> (r: (&'static str, &'static str))
    ensures
        r.0@ == interp_head(c, d),
        r.1@ == interp_tail(c, d),
{
    match (c, d) {
        (MutantClass::Weakening, WitnessDirection::MutantAdmits) => (
            "Removing the axiom admits a model the spec rejects (",
            "). The dropped axiom carries constraint not derivable from the rest of the spec.",
        ),
        (MutantClass::Weakening, WitnessDirection::MutantRejects) => (
            "After removing the axiom, the spec admits a model the mutant rejects (",
            "). The axiom is partially redundant — its removal weakens constraint, but in this direction.",
        ),
        (MutantClass::Strengthening, WitnessDirection::MutantAdmits) => (
            "Adding the new conjunct admits a model the original rejects (",
            "). Unexpected: typically strengthening should never enlarge the model set.",
        ),
        (MutantClass::Strengthening, WitnessDirection::MutantRejects) => (
            "Adding the new conjunct would reject a model the spec admits (",
            "). The spec currently allows this — the constraint is missing.",
        ),
        (MutantClass::Replacement, WitnessDirection::MutantAdmits) => (
            "After predicate replacement, a model the spec rejects becomes admissible (",
            "). The original axiom carries a distinction the replacement loses.",
        ),
        (MutantClass::Replacement, WitnessDirection::MutantRejects) => (
            "After predicate replacement, a model the spec admits becomes inadmissible (",
            "). The replacement is strictly stronger on this model.",
        ),
    }
}

/// Why a witness of the given side matters for a mutant of class `c`,
/// with the model summary quoted.
pub fn generate_interpretation(c: MutantClass, model_summary: &str, d: WitnessDirection) -> (r: String)
    ensures
        r@ == interp_head(c, d) + model_summary@ + interp_tail(c, d),
{
    let (head, tail) = interp_parts(c, d);
    let mut out = String::from_str(head);
    out.append(model_summary);
    out.append(tail);
    out
}

/// `w` is the witness built from the simplest distinguishing model.
pub open spec fn is_witness(w: MutantWitness, models: Seq<FiniteModel>, sfs: Seq<FormulaV>, mfs: Seq<FormulaV>, c: MutantClass) -> bool {
    exists|k: int| #[trigger] simplest_at(models, sfs, mfs, k) && {
        let m = models[k];
        let d = direction_spec(m, sfs, mfs);
        &&& w.model_description@ == describe_spec(m)
        &&& w.direction == d
        &&& crate::ir_types::strings_view(w.distinguishing_facts@) == facts_spec(m)
        &&& w.interpretation@ == interp_head(c, d) + describe_spec(m) + interp_tail(c, d)
    }
}

/// Some model of the pool distinguishes the spec from the mutant.
pub open spec fn has_distinguishing(models: Seq<FiniteModel>, sfs: Seq<FormulaV>, mfs: Seq<FormulaV>) -> bool {
    exists|k: int| 0 <= k < models.len() && distinguishes(#[trigger] models[k], sfs, mfs)
}

/// The witness for a mutant of class `class`: the distinguishing model
/// of the pool with the least [`witness_weight`] (the first such on a
/// tie), described, itemised and interpreted.  `None` when no model of the
/// pool distinguishes the two.
pub fn extract_witness(spec_axioms: &[Formula], mutant_axioms: &[Formula], class: MutantClass, models: &[FiniteModel]) -> (r: Option<MutantWitness>)
    requires
        ranks_fit(spec_axioms@),
        ranks_fit(mutant_axioms@),
        forall|k: int| 0 <= k < models@.len() ==> weight_spec(#[trigger] models@[k]) <= usize::MAX,
    ensures
        r is None <==> !has_distinguishing(models@, formulas_view(spec_axioms@), formulas_view(mutant_axioms@)),
        r matches Some(w) ==> is_witness(w, models@, formulas_view(spec_axioms@), formulas_view(mutant_axioms@), class),
{
    let ghost sfs = formulas_view(spec_axioms@);
    let ghost mfs = formulas_view(mutant_axioms@);
    let mut best: Option<(usize, usize, WitnessDirection)> = None;
    let mut i: usize = 0;
    while i < models.len()
        invariant
            i <= models@.len(),
            sfs == formulas_view(spec_axioms@),
            mfs == formulas_view(mutant_axioms@),
            ranks_fit(spec_axioms@),
            ranks_fit(mutant_axioms@),
            forall|k: int| 0 <= k < models@.len() ==> weight_spec(#[trigger] models@[k]) <= usize::MAX,
            match best {
                None => forall|j: int| 0 <= j < i ==> !distinguishes(#[trigger] models@[j], sfs, mfs),
                Some((w, k, d)) => {
                    &&& k < i
                    &&& distinguishes(models@[k as int], sfs, mfs)
                    &&& w == weight_spec(models@[k as int])
                    &&& d == direction_spec(models@[k as int], sfs, mfs)
                    &&& forall|j: int| 0 <= j < i && distinguishes(#[trigger] models@[j], sfs, mfs) ==> w <= weight_spec(models@[j])
                    &&& forall|j: int| 0 <= j < k && distinguishes(#[trigger] models@[j], sfs, mfs) ==> w < weight_spec(models@[j])
                },
            },
        decreases models.len() - i,
    {
        let sat_spec = safely_satisfies(&models[i], spec_axioms);
        let sat_mutant = safely_satisfies(&models[i], mutant_axioms);
        if sat_spec != sat_mutant {
            let direction = if !sat_spec && sat_mutant {
                WitnessDirection::MutantAdmits
            } else {
                WitnessDirection::MutantRejects
            };
            let weight = witness_weight(&models[i]);
            match best {
                None => {
                    best = Some((weight, i, direction));
                },
                Some((w, _, _)) => {
                    if weight < w {
                        best = Some((weight, i, direction));
                    }
                },
            }
        }
        i = i + 1;
    }
    match best {
        None => None,
        Some((_, k, direction)) => {
            let model = &models[k];
            let model_description = describe_model(model);
            let distinguishing_facts = distinguishing_facts(model);
            let interpretation = generate_interpretation(class, model_description.as_str(), direction);
            let w = MutantWitness { model_description, direction, distinguishing_facts, interpretation };
            proof {
                assert(simplest_at(models@, sfs, mfs, k as int));
            }
            Some(w)
        },
    }
}

/// Attach a witness to every surviving mutant that the pool can
/// distinguish from the spec.  `mutant_axioms[i]` and `classes[i]` describe
/// mutant `i`; a status naming no mutant, a killed one, or one without a
/// distinguishing model keeps its witness.
pub fn attach_witnesses_for_alive(
    spec_axioms: &[Formula],
    mutant_axioms: &Vec<Vec<Formula>>,
    classes: &Vec<MutantClass>,
    models: &[FiniteModel],
    statuses: &mut Vec<MutantStatus>,
)
    requires
        ranks_fit(spec_axioms@),
        forall|i: int| 0 <= i < mutant_axioms@.len() ==> ranks_fit((#[trigger] mutant_axioms@[i])@),
        forall|k: int| 0 <= k < models@.len() ==> weight_spec(#[trigger] models@[k]) <= usize::MAX,
    ensures
        final(statuses)@.len() == old(statuses)@.len(),
        forall|k: int| 0 <= k < old(statuses)@.len() ==> {
            let o = #[trigger] old(statuses)@[k];
            let n = final(statuses)@[k];
            &&& n.mutant_index == o.mutant_index
            &&& n.killed == o.killed
            &&& n.killing_implementations@ == o.killing_implementations@
            &&& n.direction == o.direction
            &&& if !o.killed && o.mutant_index < mutant_axioms@.len() && o.mutant_index < classes@.len()
                && has_distinguishing(models@, formulas_view(spec_axioms@), formulas_view(mutant_axioms@[o.mutant_index as int]@)) {
                n.witness matches Some(w) && is_witness(
                    w,
                    models@,
                    formulas_view(spec_axioms@),
                    formulas_view(mutant_axioms@[o.mutant_index as int]@),
                    classes@[o.mutant_index as int],
                )
            } else {
                n.witness == o.witness
            }
        },
{
    let mut k: usize = 0;
    while k < statuses.len()
        invariant
            k <= statuses@.len(),
            statuses@.len() == old(statuses)@.len(),
            ranks_fit(spec_axioms@),
            forall|i: int| 0 <= i < mutant_axioms@.len() ==> ranks_fit((#[trigger] mutant_axioms@[i])@),
            forall|q: int| 0 <= q < models@.len() ==> weight_spec(#[trigger] models@[q]) <= usize::MAX,
            forall|q: int| k <= q < statuses@.len() ==> #[trigger] statuses@[q] == old(statuses)@[q],
            forall|q: int| 0 <= q < k ==> {
                let o = #[trigger] old(statuses)@[q];
                let n = statuses@[q];
                &&& n.mutant_index == o.mutant_index
                &&& n.killed == o.killed
                &&& n.killing_implementations@ == o.killing_implementations@
                &&& n.direction == o.direction
                &&& if !o.killed && o.mutant_index < mutant_axioms@.len() && o.mutant_index < classes@.len()
                    && has_distinguishing(models@, formulas_view(spec_axioms@), formulas_view(mutant_axioms@[o.mutant_index as int]@)) {
                    n.witness matches Some(w) && is_witness(
                        w,
                        models@,
                        formulas_view(spec_axioms@),
                        formulas_view(mutant_axioms@[o.mutant_index as int]@),
                        classes@[o.mutant_index as int],
                    )
                } else {
                    n.witness == o.witness
                }
            },
        decreases statuses.len() - k,
    {
        let idx = statuses[k].mutant_index;
        if !statuses[k].killed && idx < mutant_axioms.len() && idx < classes.len() {
            match extract_witness(spec_axioms, mutant_axioms[idx].as_slice(), classes[idx], models) {
                Some(w) => {
                    let s = &statuses[k];
                    let mut kills: Vec<usize> = Vec::new();
                    let mut q: usize = 0;
                    while q < s.killing_implementations.len()
                        invariant
                            q <= s.killing_implementations@.len(),
                            kills@ == s.killing_implementations@.take(q as int),
                        decreases s.killing_implementations@.len() - q,
                    {
                        kills.push(s.killing_implementations[q]);
                        proof {
                            assert(kills@ =~= s.killing_implementations@.take(q + 1));
                        }
                        q = q + 1;
                    }
                    proof {
                        assert(kills@ =~= s.killing_implementations@);
                    }
                    let n = MutantStatus {
                        mutant_index: s.mutant_index,
                        killed: s.killed,
                        killing_implementations: kills,
                        direction: s.direction,
                        witness: Some(w),
                    };
                    statuses.set(k, n);
                },
                None => {},
            }
        }
        k = k + 1;
    }
}

} // verus!
