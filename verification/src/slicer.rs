//! Theorem-scoped slicing: for each translated theorem, the axioms that
//! define the relations it (transitively) mentions, and the signature
//! reduced to the symbols those axioms use.
use vstd::prelude::*;
use crate::formula::{formulas_view, Formula, FormulaV, Term, TermV};
use crate::names::{lex_lt, lemma_lex_order_antisym, lemma_lex_lt_trans, lemma_lex_order_zero_eq, str_eq, str_lt};
use crate::translator::{
    axioms_sorts, axioms_with_origins, formula_sorts, names_set, args_sorts, origin_view, term_sorts, AxiomOrigin,
    TranslationResult,
};
use crate::passes::OriginV;
use crate::signature::{fun_views, keys, rel_views, sort_names, Named, FunSym, FunctionSymbol, RelSym, RelationSymbol, Signature, SortSymbol};

verus! {

broadcast use vstd::std_specs::vec::group_vec_axioms;

/// Names strictly increasing in lexicographic order.
pub open spec fn sorted_names(v: Seq<String>) -> bool {
    forall|i: int, j: int| 0 <= i < j < v.len() ==> lex_lt((#[trigger] v[i])@, (#[trigger] v[j])@)
}

/// The symbol names a list of formulas refers to, each kind as a sorted
/// list without repeats.
#[derive(Debug, Clone, PartialEq, Eq)]
pub struct SymbolSet {
    /// Sort names (quantifier sorts and the sorts of the symbols).
    pub sorts: Vec<String>,
    /// Relation names.
    pub relation_names: Vec<String>,
    /// Function names, constants included.
    pub function_names: Vec<String>,
}

/// Function names of a term.
pub open spec fn term_funs(t: TermV) -> Set<Seq<char>>
    decreases t, 0nat,
{
    match t {
        TermV::Var(_) => Set::empty(),
        TermV::App(f, args) => args_funs(args).insert(f.name),
    }
}

/// Function names of a list of terms.
pub open spec fn args_funs(args: Seq<TermV>) -> Set<Seq<char>>
    decreases args, 1nat,
{
    if args.len() == 0 {
        Set::empty()
    } else {
        proof {
            assert(decreases_to!(args => args[args.len() - 1]));
        }
        args_funs(args.drop_last()).union(term_funs(args.last()))
    }
}

/// Function names of a formula.
pub open spec fn formula_funs(f: FormulaV) -> Set<Seq<char>>
    decreases f,
{
    match f {
        FormulaV::Bot | FormulaV::Top => Set::empty(),
        FormulaV::Atom(_, args) | FormulaV::NegAtom(_, args) => args_funs(args),
        FormulaV::Eq(a, b) | FormulaV::Neq(a, b) => term_funs(a).union(term_funs(b)),
        FormulaV::And(l, r) | FormulaV::Or(l, r) => formula_funs(*l).union(formula_funs(*r)),
        FormulaV::Forall(_, b) | FormulaV::Exists(_, b) | FormulaV::Not(b) => formula_funs(*b),
    }
}

/// Relation names of a formula.
pub open spec fn formula_rels(f: FormulaV) -> Set<Seq<char>>
    decreases f,
{
    match f {
        FormulaV::Atom(r, _) | FormulaV::NegAtom(r, _) => set![r.name],
        FormulaV::And(l, r) | FormulaV::Or(l, r) => formula_rels(*l).union(formula_rels(*r)),
        FormulaV::Forall(_, b) | FormulaV::Exists(_, b) | FormulaV::Not(b) => formula_rels(*b),
        _ => Set::empty(),
    }
}

/// Function names of a list of formulas.
pub open spec fn all_funs(fs: Seq<FormulaV>) -> Set<Seq<char>>
    decreases fs.len(),
{
    if fs.len() == 0 {
        Set::empty()
    } else {
        all_funs(fs.drop_last()).union(formula_funs(fs.last()))
    }
}

/// Relation names of a list of formulas.
pub open spec fn all_rels(fs: Seq<FormulaV>) -> Set<Seq<char>>
    decreases fs.len(),
{
    if fs.len() == 0 {
        Set::empty()
    } else {
        all_rels(fs.drop_last()).union(formula_rels(fs.last()))
    }
}

/// Insert `name` into a sorted list without repeats.
fn insert_sorted(v: &mut Vec<String>, name: &str)
    requires
        sorted_names(old(v)@),
    ensures
        sorted_names(final(v)@),
        names_set(final(v)@) == names_set(old(v)@).insert(name@),
{
    let mut i: usize = 0;
    while i < v.len()
        invariant
            i <= v@.len(),
            sorted_names(v@),
            v@ == old(v)@,
            forall|k: int| 0 <= k < i ==> lex_lt((#[trigger] v@[k])@, name@),
        ensures
            i <= v@.len(),
            sorted_names(v@),
            v@ == old(v)@,
            forall|k: int| 0 <= k < i ==> lex_lt((#[trigger] v@[k])@, name@),
            i < v@.len() ==> lex_lt(name@, v@[i as int]@),
        decreases v.len() - i,
    {
        if str_eq(v[i].as_str(), name) {
            proof {
                assert(names_set(v@).contains(name@));
                assert(names_set(v@) =~= names_set(v@).insert(name@));
            }
            return;
        }
        if str_lt(name, v[i].as_str()) {
            break;
        }
        proof {
            lemma_lex_order_antisym(v@[i as int]@, name@);
            lemma_lex_order_zero_eq(v@[i as int]@, name@);
        }
        i = i + 1;
    }
    let ghost before = v@;
    v.insert(i, String::from_str(name));
    proof {
        assert(v@ == before.insert(i as int, v@[i as int]));
        assert forall|a: int, b: int| 0 <= a < b < v@.len() implies lex_lt((#[trigger] v@[a])@, (#[trigger] v@[b])@) by {
            if a < i && b == i {
            } else if a < i && b > i {
                assert(v@[b] == before[b - 1]);
                assert(v@[a] == before[a]);
                if b - 1 > i {
                    assert(lex_lt(before[i as int]@, before[b - 1]@));
                    lemma_lex_lt_trans(name@, before[i as int]@, before[b - 1]@);
                }
                lemma_lex_lt_trans(v@[a]@, name@, before[b - 1]@);
            } else if a == i && b > i {
                assert(v@[b] == before[b - 1]);
                if b - 1 > i {
                    lemma_lex_lt_trans(name@, before[i as int]@, before[b - 1]@);
                }
            } else if a > i {
                assert(v@[a] == before[a - 1] && v@[b] == before[b - 1]);
            } else {
                assert(v@[a] == before[a] && v@[b] == before[b]);
            }
        }
        assert forall|x: Seq<char>| names_set(v@).contains(x) <==> names_set(before).insert(name@).contains(x) by {
            if names_set(v@).contains(x) {
                let k = choose|k: int| 0 <= k < v@.len() && (#[trigger] v@[k])@ == x;
                if k < i {
                    assert(before[k]@ == x);
                } else if k > i {
                    assert(before[k - 1]@ == x);
                }
            }
            if names_set(before).contains(x) {
                let k = choose|k: int| 0 <= k < before.len() && (#[trigger] before[k])@ == x;
                if k < i {
                    assert(v@[k]@ == x);
                } else {
                    assert(v@[k + 1]@ == x);
                }
            }
        }
        assert(names_set(v@) =~= names_set(before).insert(name@));
    }
}

fn term_symbols(t: &Term, out: &mut SymbolSet)
    requires
        sorted_names(old(out).sorts@),
        sorted_names(old(out).function_names@),
    ensures
        sorted_names(final(out).sorts@),
        sorted_names(final(out).function_names@),
        final(out).relation_names@ == old(out).relation_names@,
        names_set(final(out).sorts@) == names_set(old(out).sorts@).union(term_sorts(t@)),
        names_set(final(out).function_names@) == names_set(old(out).function_names@).union(term_funs(t@)),
    decreases t, 0nat,
{
    match t {
        Term::Var(_) => {
            assert(names_set(out.sorts@) =~= names_set(out.sorts@).union(Set::empty()));
            assert(names_set(out.function_names@) =~= names_set(out.function_names@).union(Set::empty()));
        },
        Term::App { function, args } => {
            insert_sorted(&mut out.function_names, function.name.as_str());
            let mut i: usize = 0;
            let ghost s0 = names_set(out.sorts@);
            let ghost fnames = out.function_names@;
            while i < function.domain.len()
                invariant
                    i <= function.domain@.len(),
                    sorted_names(out.sorts@),
                    out.function_names@ == fnames,
                    sorted_names(fnames),
                    out.relation_names@ == old(out).relation_names@,
                    names_set(out.sorts@) == s0.union(crate::signature::sort_names(function.domain@).subrange(0, i as int).to_set()),
                decreases function.domain.len() - i,
            {
                insert_sorted(&mut out.sorts, function.domain[i].name.as_str());
                proof {
                    let sn = crate::signature::sort_names(function.domain@);
                    assert(sn.subrange(0, i + 1) =~= sn.subrange(0, i as int).push(sn[i as int]));
                    sn.subrange(0, i as int).lemma_push_to_set_commute(sn[i as int]);
                    assert(names_set(out.sorts@) =~= s0.union(sn.subrange(0, i + 1).to_set()));
                }
                i = i + 1;
            }
            insert_sorted(&mut out.sorts, function.codomain.name.as_str());
            args_symbols(args, out);
            proof {
                let sn = crate::signature::sort_names(function.domain@);
                assert(sn.subrange(0, i as int) =~= sn);
                assert(function@.domain == sn);
                assert(names_set(out.sorts@) =~= names_set(old(out).sorts@).union(term_sorts(t@)));
                assert(names_set(out.function_names@) =~= names_set(old(out).function_names@).union(term_funs(t@)));
            }
        },
    }
}

fn args_symbols(ts: &Vec<Term>, out: &mut SymbolSet)
    requires
        sorted_names(old(out).sorts@),
        sorted_names(old(out).function_names@),
    ensures
        sorted_names(final(out).sorts@),
        sorted_names(final(out).function_names@),
        final(out).relation_names@ == old(out).relation_names@,
        names_set(final(out).sorts@) == names_set(old(out).sorts@).union(args_sorts(crate::formula::terms_view(ts@))),
        names_set(final(out).function_names@) == names_set(old(out).function_names@).union(
            args_funs(crate::formula::terms_view(ts@)),
        ),
    decreases ts, 1nat,
{
    let ghost tv = crate::formula::terms_view(ts@);
    let mut i: usize = 0;
    while i < ts.len()
        invariant
            i <= ts@.len(),
            tv == crate::formula::terms_view(ts@),
            sorted_names(out.sorts@),
            sorted_names(out.function_names@),
            out.relation_names@ == old(out).relation_names@,
            names_set(out.sorts@) == names_set(old(out).sorts@).union(args_sorts(tv.subrange(0, i as int))),
            names_set(out.function_names@) == names_set(old(out).function_names@).union(args_funs(tv.subrange(0, i as int))),
        decreases ts.len() - i,
    {
        proof {
            assert(decreases_to!(ts => ts[i as int]));
            assert(tv.subrange(0, i + 1).drop_last() =~= tv.subrange(0, i as int));
            assert(tv.subrange(0, i + 1).last() == ts@[i as int]@);
        }
        term_symbols(&ts[i], out);
        proof {
            assert(names_set(out.sorts@) =~= names_set(old(out).sorts@).union(args_sorts(tv.subrange(0, i + 1))));
            assert(names_set(out.function_names@) =~= names_set(old(out).function_names@).union(args_funs(tv.subrange(0, i + 1))));
        }
        i = i + 1;
    }
    proof {
        assert(tv.subrange(0, i as int) =~= tv);
    }
}

fn arity_symbols(arity: &Vec<crate::signature::SortSymbol>, out: &mut Vec<String>)
    requires
        sorted_names(old(out)@),
    ensures
        sorted_names(final(out)@),
        names_set(final(out)@) == names_set(old(out)@).union(crate::signature::sort_names(arity@).to_set()),
{
    let ghost s0 = names_set(out@);
    let mut i: usize = 0;
    while i < arity.len()
        invariant
            i <= arity@.len(),
            sorted_names(out@),
            names_set(out@) == s0.union(crate::signature::sort_names(arity@).subrange(0, i as int).to_set()),
        decreases arity.len() - i,
    {
        insert_sorted(out, arity[i].name.as_str());
        proof {
            let sn = crate::signature::sort_names(arity@);
            assert(sn.subrange(0, i + 1) =~= sn.subrange(0, i as int).push(sn[i as int]));
            sn.subrange(0, i as int).lemma_push_to_set_commute(sn[i as int]);
            assert(names_set(out@) =~= s0.union(sn.subrange(0, i + 1).to_set()));
        }
        i = i + 1;
    }
    proof {
        assert(crate::signature::sort_names(arity@).subrange(0, i as int) =~= crate::signature::sort_names(arity@));
    }
}

fn formula_symbols(f: &Formula, out: &mut SymbolSet)
    requires
        sorted_names(old(out).sorts@),
        sorted_names(old(out).function_names@),
        sorted_names(old(out).relation_names@),
    ensures
        sorted_names(final(out).sorts@),
        sorted_names(final(out).function_names@),
        sorted_names(final(out).relation_names@),
        names_set(final(out).sorts@) == names_set(old(out).sorts@).union(formula_sorts(f@)),
        names_set(final(out).function_names@) == names_set(old(out).function_names@).union(formula_funs(f@)),
        names_set(final(out).relation_names@) == names_set(old(out).relation_names@).union(formula_rels(f@)),
    decreases f,
{
    match f {
        Formula::Bot | Formula::Top => {
            assert(names_set(out.sorts@) =~= names_set(out.sorts@).union(Set::empty()));
            assert(names_set(out.function_names@) =~= names_set(out.function_names@).union(Set::empty()));
            assert(names_set(out.relation_names@) =~= names_set(out.relation_names@).union(Set::empty()));
        },
        Formula::Atom { relation, args } | Formula::NegAtom { relation, args } => {
            insert_sorted(&mut out.relation_names, relation.name.as_str());
            arity_symbols(&relation.arity, &mut out.sorts);
            args_symbols(args, out);
            proof {
                assert(names_set(out.sorts@) =~= names_set(old(out).sorts@).union(formula_sorts(f@)));
                assert(names_set(out.function_names@) =~= names_set(old(out).function_names@).union(formula_funs(f@)));
                assert(names_set(out.relation_names@) =~= names_set(old(out).relation_names@).union(formula_rels(f@)));
            }
        },
        Formula::Eq(a, b) | Formula::Neq(a, b) => {
            term_symbols(a, out);
            term_symbols(b, out);
            proof {
                assert(names_set(out.sorts@) =~= names_set(old(out).sorts@).union(formula_sorts(f@)));
                assert(names_set(out.function_names@) =~= names_set(old(out).function_names@).union(formula_funs(f@)));
                assert(names_set(out.relation_names@) =~= names_set(old(out).relation_names@).union(formula_rels(f@)));
            }
        },
        Formula::And(l, r) | Formula::Or(l, r) => {
            formula_symbols(l, out);
            formula_symbols(r, out);
            proof {
                assert(names_set(out.sorts@) =~= names_set(old(out).sorts@).union(formula_sorts(f@)));
                assert(names_set(out.function_names@) =~= names_set(old(out).function_names@).union(formula_funs(f@)));
                assert(names_set(out.relation_names@) =~= names_set(old(out).relation_names@).union(formula_rels(f@)));
            }
        },
        Formula::Forall { sort, body } | Formula::Exists { sort, body } => {
            insert_sorted(&mut out.sorts, sort.name.as_str());
            formula_symbols(body, out);
            proof {
                assert(names_set(out.sorts@) =~= names_set(old(out).sorts@).union(formula_sorts(f@)));
                assert(names_set(out.function_names@) =~= names_set(old(out).function_names@).union(formula_funs(f@)));
                assert(names_set(out.relation_names@) =~= names_set(old(out).relation_names@).union(formula_rels(f@)));
            }
        },
        Formula::Not(inner) => {
            formula_symbols(inner, out);
        },
    }
}

/// Every sort, relation and function name the formulas refer to: sorts
/// of quantifiers, relation arities and function symbols; relation names
/// of atoms; function names of applications.  Each list is sorted, without
/// repeats.
pub fn collect_symbols(formulas: &[Formula]) -> (r: SymbolSet)
    ensures
        sorted_names(r.sorts@),
        sorted_names(r.relation_names@),
        sorted_names(r.function_names@),
        names_set(r.sorts@) == axioms_sorts(formulas_view(formulas@)),
        names_set(r.relation_names@) == all_rels(formulas_view(formulas@)),
        names_set(r.function_names@) == all_funs(formulas_view(formulas@)),
{
    let ghost fv = formulas_view(formulas@);
    let mut s = SymbolSet { sorts: Vec::new(), relation_names: Vec::new(), function_names: Vec::new() };
    proof {
        assert(names_set(s.sorts@) =~= Set::empty());
        assert(names_set(s.relation_names@) =~= Set::empty());
        assert(names_set(s.function_names@) =~= Set::empty());
        assert(fv.subrange(0, 0) =~= Seq::<FormulaV>::empty());
    }
    let mut i: usize = 0;
    while i < formulas.len()
        invariant
            i <= formulas@.len(),
            fv == formulas_view(formulas@),
            sorted_names(s.sorts@),
            sorted_names(s.relation_names@),
            sorted_names(s.function_names@),
            names_set(s.sorts@) == axioms_sorts(fv.subrange(0, i as int)),
            names_set(s.relation_names@) == all_rels(fv.subrange(0, i as int)),
            names_set(s.function_names@) == all_funs(fv.subrange(0, i as int)),
        decreases formulas.len() - i,
    {
        proof {
            assert(fv.subrange(0, i + 1).drop_last() =~= fv.subrange(0, i as int));
            assert(fv.subrange(0, i + 1).last() == formulas@[i as int]@);
        }
        formula_symbols(&formulas[i], &mut s);
        i = i + 1;
    }
    proof {
        assert(fv.subrange(0, i as int) =~= fv);
    }
    s
}

// ---------------------------------------------------------------------------
// Slices
// ---------------------------------------------------------------------------

/// A theorem with the axioms it needs and the signature they use.
#[derive(Debug, Clone)]
pub struct TheoremSlice {
    /// The theorem.
    pub theorem_name: String,
    /// Its axiom.
    pub theorem_axiom: Formula,
    /// The predicate axioms pulled in, in their original order.
    pub supporting_axioms: Vec<Formula>,
    /// The signature reduced to the symbols of the slice.
    pub signature: Signature,
    /// Every axiom of the slice, in original order.
    pub all_axioms: Vec<Formula>,
    /// Sort names of the reduced signature.
    pub included_sorts: Vec<String>,
    /// Relation names of the reduced signature.
    pub included_relations: Vec<String>,
    /// Function names of the reduced signature.
    pub included_functions: Vec<String>,
    /// Sort names of the global signature missing from the slice, sorted.
    pub excluded_sorts: Vec<String>,
}

/// The predicate an origin defines an axiom of.
pub open spec fn defines(o: OriginV) -> Option<Seq<char>> {
    match o {
        OriginV::Equation(p, _) => Some(p),
        OriginV::Body(p) => Some(p),
        OriginV::Theorem(_) => None,
    }
}

/// With every included axiom, the axioms defining a relation it mentions
/// are included.
pub open spec fn closed_idx(fv: Seq<FormulaV>, ov: Seq<OriginV>, s: Seq<bool>) -> bool {
    forall|i: int, j: int|
        0 <= i < s.len() && 0 <= j < s.len() && #[trigger] s[i] && (#[trigger] defines(ov[j])) is Some
            && formula_rels(fv[i]).contains(defines(ov[j])->0) ==> s[j]
}

/// `s` marks the least closed set of axioms containing the seeds.
pub open spec fn least_idx(fv: Seq<FormulaV>, ov: Seq<OriginV>, seeds: Seq<bool>, s: Seq<bool>) -> bool {
    &&& s.len() == fv.len()
    &&& forall|i: int| 0 <= i < s.len() && #[trigger] seeds[i] ==> s[i]
    &&& closed_idx(fv, ov, s)
    &&& forall|t: Seq<bool>| #![trigger closed_idx(fv, ov, t)]
        t.len() == s.len() && closed_idx(fv, ov, t) && (forall|i: int| 0 <= i < t.len() && #[trigger] seeds[i] ==> t[i])
            ==> forall|i: int| 0 <= i < s.len() && #[trigger] s[i] ==> t[i]
}

/// The values at the marked positions, in order.
pub open spec fn marked<T>(v: Seq<T>, s: Seq<bool>) -> Seq<T>
    decreases v.len(),
{
    if v.len() == 0 || s.len() != v.len() {
        seq![]
    } else if s.last() {
        marked(v.drop_last(), s.drop_last()).push(v.last())
    } else {
        marked(v.drop_last(), s.drop_last())
    }
}

/// The marks of the axioms stating theorem `name`.
pub open spec fn seed_marks(ov: Seq<OriginV>, name: Seq<char>) -> Seq<bool> {
    Seq::new(ov.len(), |i: int| ov[i] == OriginV::Theorem(name))
}

/// `sig` keeps the relations and functions of `global` named in the
/// slice, and the sorts of `global` that the slice or those symbols need.
pub open spec fn reduced_from(sig: Signature, global: Signature, sorts: Set<Seq<char>>, rels: Set<Seq<char>>, funs: Set<Seq<char>>) -> bool {
    let needed = |x: Seq<char>|
        sorts.contains(x) || (exists|g: RelSym| #[trigger] rel_views(global.relations@).contains(g) && rels.contains(g.name) && g.arity.contains(x))
            || (exists|f: FunSym| #[trigger] fun_views(global.functions@).contains(f) && funs.contains(f.name) && (f.domain.contains(x)
            || f.codomain == x));
    &&& forall|x: Seq<char>| #[trigger] sort_names(sig.sorts@).contains(x) <==> (sort_names(global.sorts@).contains(x) && needed(x))
    &&& forall|g: RelSym| #[trigger] rel_views(sig.relations@).contains(g) <==> (rel_views(global.relations@).contains(g) && rels.contains(g.name))
    &&& forall|f: FunSym| #[trigger] fun_views(sig.functions@).contains(f) <==> (fun_views(global.functions@).contains(f) && funs.contains(f.name))
}

fn defined_by(o: &AxiomOrigin) -> (r: Option<&String>)
    ensures
        (match r {
            Some(n) => Some(n@),
            None => None,
        }) == defines(origin_view(*o)),
{
    match o {
        AxiomOrigin::PredicateEquation { predicate_name, .. } => Some(predicate_name),
        AxiomOrigin::PredicateBody { predicate_name } => Some(predicate_name),
        AxiomOrigin::TheoremStatement { .. } => None,
    }
}

proof fn lemma_marked_len<T>(v: Seq<T>, s: Seq<bool>)
    ensures
        marked(v, s).len() <= v.len(),
    decreases v.len(),
{
    if v.len() > 0 && s.len() == v.len() {
        lemma_marked_len(v.drop_last(), s.drop_last());
    }
}

fn marked_formulas(v: &[Formula], s: &Vec<bool>, skip: &Vec<bool>) -> (r: Vec<Formula>)
    requires
        s@.len() == v@.len(),
        skip@.len() == v@.len(),
    ensures
        formulas_view(r@) == marked(formulas_view(v@), Seq::new(v@.len(), |i: int| s@[i] && !skip@[i])),
{
    let ghost fv = formulas_view(v@);
    let ghost m = Seq::new(v@.len(), |i: int| s@[i] && !skip@[i]);
    let mut out: Vec<Formula> = Vec::new();
    let mut i: usize = 0;
    proof {
        assert(fv.subrange(0, 0) =~= Seq::<FormulaV>::empty());
        assert(formulas_view(out@) =~= marked(fv.subrange(0, 0), m.subrange(0, 0)));
    }
    while i < v.len()
        invariant
            i <= v@.len(),
            s@.len() == v@.len(),
            skip@.len() == v@.len(),
            fv == formulas_view(v@),
            m == Seq::new(v@.len(), |i: int| s@[i] && !skip@[i]),
            formulas_view(out@) == marked(fv.subrange(0, i as int), m.subrange(0, i as int)),
        decreases v.len() - i,
    {
        proof {
            assert(fv.subrange(0, i + 1).drop_last() =~= fv.subrange(0, i as int));
            assert(m.subrange(0, i + 1).drop_last() =~= m.subrange(0, i as int));
            assert(fv.subrange(0, i + 1).last() == v@[i as int]@);
            assert(m.subrange(0, i + 1).last() == (s@[i as int] && !skip@[i as int]));
        }
        if s[i] && !skip[i] {
            let ghost b = formulas_view(out@);
            out.push(v[i].clone());
            proof {
                assert(formulas_view(out@) =~= b.push(v@[i as int]@));
            }
        }
        i = i + 1;
    }
    proof {
        assert(fv.subrange(0, i as int) =~= fv);
        assert(m.subrange(0, i as int) =~= m);
    }
    out
}

/// Number of unmarked positions.
pub open spec fn unmarked(s: Seq<bool>) -> nat
    decreases s.len(),
{
    if s.len() == 0 {
        0
    } else {
        unmarked(s.drop_last()) + if s.last() { 0nat } else { 1nat }
    }
}

proof fn lemma_unmarked_set(s: Seq<bool>, j: int)
    requires
        0 <= j < s.len(),
        !s[j],
    ensures
        unmarked(s.update(j, true)) + 1 == unmarked(s),
    decreases s.len(),
{
    let t = s.update(j, true);
    if j == s.len() - 1 {
        assert(t.drop_last() =~= s.drop_last());
    } else {
        lemma_unmarked_set(s.drop_last(), j);
        assert(t.drop_last() =~= s.drop_last().update(j, true));
    }
}

/// Mark the least closed set of axioms containing the seeds.
fn close_marks(axioms: &[Formula], origins: &[AxiomOrigin], marks: &mut Vec<bool>)
    requires
        axioms@.len() == origins@.len(),
        old(marks)@.len() == axioms@.len(),
    ensures
        least_idx(formulas_view(axioms@), origins@.map_values(|o: AxiomOrigin| origin_view(o)), old(marks)@, final(marks)@),
{
    let ghost fv = formulas_view(axioms@);
    let ghost ov = origins@.map_values(|o: AxiomOrigin| origin_view(o));
    let ghost seeds = marks@;
    let n = axioms.len();
    loop
        invariant
            n == axioms@.len(),
            axioms@.len() == origins@.len(),
            fv == formulas_view(axioms@),
            ov == origins@.map_values(|o: AxiomOrigin| origin_view(o)),
            marks@.len() == n,
            forall|i: int| 0 <= i < n && #[trigger] seeds[i] ==> marks@[i],
            forall|t: Seq<bool>| #![trigger closed_idx(fv, ov, t)]
                t.len() == n && closed_idx(fv, ov, t) && (forall|i: int| 0 <= i < t.len() && #[trigger] seeds[i] ==> t[i])
                    ==> forall|i: int| 0 <= i < n && #[trigger] marks@[i] ==> t[i],
        ensures
            marks@.len() == n,
            forall|i: int| 0 <= i < n && #[trigger] seeds[i] ==> marks@[i],
            closed_idx(fv, ov, marks@),
            forall|t: Seq<bool>| #![trigger closed_idx(fv, ov, t)]
                t.len() == n && closed_idx(fv, ov, t) && (forall|i: int| 0 <= i < t.len() && #[trigger] seeds[i] ==> t[i])
                    ==> forall|i: int| 0 <= i < n && #[trigger] marks@[i] ==> t[i],
        decreases unmarked(marks@),
    {
        let ghost start = marks@;
        let mut grew = false;
        let mut i: usize = 0;
        while i < n
            invariant
                n == axioms@.len(),
                axioms@.len() == origins@.len(),
                fv == formulas_view(axioms@),
                ov == origins@.map_values(|o: AxiomOrigin| origin_view(o)),
                marks@.len() == n,
                i <= n,
                forall|k: int| 0 <= k < n && #[trigger] start[k] ==> marks@[k],
                forall|k: int| 0 <= k < n && #[trigger] seeds[k] ==> marks@[k],
                forall|t: Seq<bool>| #![trigger closed_idx(fv, ov, t)]
                    t.len() == n && closed_idx(fv, ov, t) && (forall|k: int| 0 <= k < t.len() && #[trigger] seeds[k] ==> t[k])
                        ==> forall|k: int| 0 <= k < n && #[trigger] marks@[k] ==> t[k],
                grew ==> unmarked(marks@) < unmarked(start),
                !grew ==> marks@ == start,
                !grew ==> forall|a: int, j: int|
                    0 <= a < i && 0 <= j < n && #[trigger] start[a] && (#[trigger] defines(ov[j])) is Some
                        && formula_rels(fv[a]).contains(defines(ov[j])->0) ==> start[j],
            decreases n - i,
        {
            if marks[i] {
                let syms = collect_symbols(&axioms[i..i + 1]);
                proof {
                    assert(axioms@.subrange(i as int, i + 1) =~= seq![axioms@[i as int]]);
                    assert(formulas_view(seq![axioms@[i as int]]) =~= seq![fv[i as int]]);
                    assert(seq![fv[i as int]].drop_last() =~= Seq::<FormulaV>::empty());
                    assert(all_rels(Seq::<FormulaV>::empty()) == Set::<Seq<char>>::empty());
                    assert(seq![fv[i as int]].last() == fv[i as int]);
                    assert(all_rels(seq![fv[i as int]]) == all_rels(Seq::<FormulaV>::empty()).union(formula_rels(fv[i as int])));
                    assert(all_rels(seq![fv[i as int]]) =~= formula_rels(fv[i as int]));
                }
                let mut j: usize = 0;
                while j < n
                    invariant
                        n == axioms@.len(),
                        axioms@.len() == origins@.len(),
                        fv == formulas_view(axioms@),
                        ov == origins@.map_values(|o: AxiomOrigin| origin_view(o)),
                        marks@.len() == n,
                        j <= n,
                        i < n,
                        marks@[i as int],
                        names_set(syms.relation_names@) == formula_rels(fv[i as int]),
                        forall|k: int| 0 <= k < n && #[trigger] start[k] ==> marks@[k],
                        forall|k: int| 0 <= k < n && #[trigger] seeds[k] ==> marks@[k],
                        forall|t: Seq<bool>| #![trigger closed_idx(fv, ov, t)]
                            t.len() == n && closed_idx(fv, ov, t) && (forall|k: int| 0 <= k < t.len() && #[trigger] seeds[k] ==> t[k])
                                ==> forall|k: int| 0 <= k < n && #[trigger] marks@[k] ==> t[k],
                        grew ==> unmarked(marks@) < unmarked(start),
                        !grew ==> marks@ == start,
                        !grew ==> forall|a: int, jj: int|
                            0 <= a < i && 0 <= jj < n && #[trigger] start[a] && (#[trigger] defines(ov[jj])) is Some
                                && formula_rels(fv[a]).contains(defines(ov[jj])->0) ==> start[jj],
                        !grew ==> forall|jj: int|
                            0 <= jj < j && (#[trigger] defines(ov[jj])) is Some && formula_rels(fv[i as int]).contains(defines(ov[jj])->0) ==> start[jj],
                    decreases n - j,
                {
                    let hit = match defined_by(&origins[j]) {
                        Some(pn) => crate::translator::has_name(&syms.relation_names, pn.as_str()),
                        None => false,
                    };
                    proof {
                        assert(ov[j as int] == origin_view(origins@[j as int]));
                        assert(hit == ((defines(ov[j as int])) is Some && formula_rels(fv[i as int]).contains(defines(ov[j as int])->0)));
                    }
                    if hit && !marks[j] {
                        let ghost mb = marks@;
                        proof {
                            lemma_unmarked_set(mb, j as int);
                            assert forall|t: Seq<bool>| #![trigger closed_idx(fv, ov, t)]
                                t.len() == n && closed_idx(fv, ov, t) && (forall|k: int| 0 <= k < t.len() && #[trigger] seeds[k] ==> t[k])
                                    implies t[j as int] by {
                                assert(mb[i as int]);
                                assert(t[i as int]);
                            }
                            if !grew {
                                assert(unmarked(mb) == unmarked(start));
                            }
                        }
                        marks.set(j, true);
                        grew = true;
                    }
                    j = j + 1;
                }
            }
            i = i + 1;
        }
        if !grew {
            break;
        }
    }
}

fn name_in(v: &Vec<String>, name: &str) -> (r: bool)
    ensures
        r == names_set(v@).contains(name@),
{
    crate::translator::has_name(v, name)
}

/// `ix` maps each position of `k` to a position of `g` below `bound`
/// holding the same name, strictly increasing.
pub open spec fn index_map(ix: Seq<int>, k: Seq<Seq<char>>, g: Seq<Seq<char>>, bound: int) -> bool {
    &&& ix.len() == k.len()
    &&& forall|a: int, b: int| 0 <= a < b < ix.len() ==> ix[a] < ix[b]
    &&& forall|a: int| 0 <= a < ix.len() ==> 0 <= #[trigger] ix[a] < bound && bound <= g.len() && k[a] == g[ix[a]]
}

pub(crate) proof fn lemma_index_map_push(ix: Seq<int>, k: Seq<Seq<char>>, g: Seq<Seq<char>>, i: int, x: Seq<char>)
    requires
        index_map(ix, k, g, i),
        0 <= i < g.len(),
        g[i] == x,
    ensures
        index_map(ix.push(i), k.push(x), g, i + 1),
{
}

proof fn lemma_sub_no_repeats(g: Seq<Seq<char>>, k: Seq<Seq<char>>, pos: Seq<int>)
    requires
        crate::signature::no_repeats(g),
        index_map(pos, k, g, g.len() as int),
    ensures
        crate::signature::no_repeats(k),
{
    assert forall|q: int| 0 <= q < k.len() implies !crate::signature::repeats_earlier(k, q) by {
        if crate::signature::repeats_earlier(k, q) {
            let j = choose|j: int| 0 <= j < q && k[j] == k[q];
            assert(g[pos[j]] == g[pos[q]]);
            assert(crate::signature::repeats_earlier(g, pos[q]));
        }
    }
}

pub(crate) proof fn lemma_all_names_sub(
    gs: Seq<SortSymbol>,
    gf: Seq<FunctionSymbol>,
    gr: Seq<RelationSymbol>,
    ks: Seq<SortSymbol>,
    kf: Seq<FunctionSymbol>,
    kr: Seq<RelationSymbol>,
    six: Seq<int>,
    fix: Seq<int>,
    rix: Seq<int>,
)
    requires
        crate::signature::no_repeats(crate::signature::all_names(gs, gf, gr)),
        index_map(six, keys(ks), keys(gs), gs.len() as int),
        index_map(fix, keys(kf), keys(gf), gf.len() as int),
        index_map(rix, keys(kr), keys(gr), gr.len() as int),
    ensures
        crate::signature::no_repeats(crate::signature::all_names(ks, kf, kr)),
{
    let g = crate::signature::all_names(gs, gf, gr);
    let k = crate::signature::all_names(ks, kf, kr);
    let a = gs.len() as int;
    let b = gf.len() as int;
    let pos = six + fix.map_values(|x: int| x + a) + rix.map_values(|x: int| x + a + b);
    assert forall|p: int, q: int| 0 <= p < q < pos.len() implies pos[p] < pos[q] by {
        let n1 = six.len() as int;
        let n2 = n1 + fix.len();
        if q < n1 {
        } else if q < n2 {
            assert(pos[q] == fix[q - n1] + a);
            if p < n1 {
            } else {
                assert(pos[p] == fix[p - n1] + a);
            }
        } else {
            assert(pos[q] == rix[q - n2] + a + b);
            if p < n1 {
            } else if p < n2 {
                assert(pos[p] == fix[p - n1] + a);
            } else {
                assert(pos[p] == rix[p - n2] + a + b);
            }
        }
    }
    assert forall|p: int| 0 <= p < pos.len() implies 0 <= #[trigger] pos[p] < g.len() && g.len() <= g.len() && k[p] == g[pos[p]] by {
        let n1 = six.len() as int;
        let n2 = n1 + fix.len();
        if p < n1 {
            assert(k[p] == keys(ks)[p]);
            assert(g[six[p]] == keys(gs)[six[p]]);
        } else if p < n2 {
            assert(pos[p] == fix[p - n1] + a);
            assert(k[p] == keys(kf)[p - n1]);
            assert(g[fix[p - n1] + a] == keys(gf)[fix[p - n1]]);
        } else {
            assert(pos[p] == rix[p - n2] + a + b);
            assert(k[p] == keys(kr)[p - n2]);
            assert(g[rix[p - n2] + a + b] == keys(gr)[rix[p - n2]]);
        }
    }
    lemma_sub_no_repeats(g, k, pos);
}

/// The relations and functions of `global` named in `syms`, with the
/// sorts of `global` that `syms` or those symbols need.
fn reduce_signature(global: &Signature, syms: &SymbolSet) -> (r: Result<Signature, crate::signature::SignatureError>)
    ensures
        global.wf() ==> r is Ok,
        r matches Ok(s) ==> s.wf() && reduced_from(
            s,
            *global,
            names_set(syms.sorts@),
            names_set(syms.relation_names@),
            names_set(syms.function_names@),
        ),
{
    let ghost rels = names_set(syms.relation_names@);
    let ghost funs = names_set(syms.function_names@);
    let mut kr: Vec<RelationSymbol> = Vec::new();
    let ghost mut rix: Seq<int> = seq![];
    let mut i: usize = 0;
    while i < global.relations.len()
        invariant
            i <= global.relations@.len(),
            rels == names_set(syms.relation_names@),
            index_map(rix, keys(kr@), keys(global.relations@), i as int),
            forall|g: RelSym| #[trigger] rel_views(kr@).contains(g) <==> (rel_views(global.relations@.subrange(0, i as int)).contains(g) && rels.contains(g.name)),
        decreases global.relations.len() - i,
    {
        let g0 = &global.relations[i];
        let ghost b = rel_views(kr@);
        proof {
            assert(rel_views(global.relations@.subrange(0, i + 1)) =~= rel_views(global.relations@.subrange(0, i as int)).push(g0@));
        }
        if name_in(&syms.relation_names, g0.name.as_str()) {
            let ghost kb = kr@;
            kr.push(g0.copy());
            proof {
                assert(rel_views(kr@) =~= b.push(g0@));
                lemma_index_map_push(rix, keys(kb), keys(global.relations@), i as int, kr@[kr@.len() - 1].key());
                assert(keys(kr@) =~= keys(kb).push(kr@[kr@.len() - 1].key()));
                rix = rix.push(i as int);
            }
        }
        proof {
            assert forall|g: RelSym| #[trigger] rel_views(kr@).contains(g) <==> (rel_views(global.relations@.subrange(0, i + 1)).contains(g) && rels.contains(g.name)) by {
                crate::translator::lemma_push_contains(b, g0@, g);
                crate::translator::lemma_push_contains(rel_views(global.relations@.subrange(0, i as int)), g0@, g);
            }
        }
        i = i + 1;
    }
    proof {
        assert(global.relations@.subrange(0, i as int) =~= global.relations@);
    }
    let mut kf: Vec<FunctionSymbol> = Vec::new();
    let ghost mut fix: Seq<int> = seq![];
    let mut i: usize = 0;
    while i < global.functions.len()
        invariant
            i <= global.functions@.len(),
            funs == names_set(syms.function_names@),
            index_map(fix, keys(kf@), keys(global.functions@), i as int),
            forall|f: FunSym| #[trigger] fun_views(kf@).contains(f) <==> (fun_views(global.functions@.subrange(0, i as int)).contains(f) && funs.contains(f.name)),
        decreases global.functions.len() - i,
    {
        let f0 = &global.functions[i];
        let ghost b = fun_views(kf@);
        proof {
            assert(fun_views(global.functions@.subrange(0, i + 1)) =~= fun_views(global.functions@.subrange(0, i as int)).push(f0@));
        }
        if name_in(&syms.function_names, f0.name.as_str()) {
            let ghost kb = kf@;
            kf.push(f0.copy());
            proof {
                assert(fun_views(kf@) =~= b.push(f0@));
                lemma_index_map_push(fix, keys(kb), keys(global.functions@), i as int, kf@[kf@.len() - 1].key());
                assert(keys(kf@) =~= keys(kb).push(kf@[kf@.len() - 1].key()));
                fix = fix.push(i as int);
            }
        }
        proof {
            assert forall|f: FunSym| #[trigger] fun_views(kf@).contains(f) <==> (fun_views(global.functions@.subrange(0, i + 1)).contains(f) && funs.contains(f.name)) by {
                crate::translator::lemma_push_contains(b, f0@, f);
                crate::translator::lemma_push_contains(fun_views(global.functions@.subrange(0, i as int)), f0@, f);
            }
        }
        i = i + 1;
    }
    proof {
        assert(global.functions@.subrange(0, i as int) =~= global.functions@);
    }
    let ghost needed_spec = Set::new(|x: Seq<char>|
        names_set(syms.sorts@).contains(x) || (exists|g: RelSym| #[trigger] rel_views(global.relations@).contains(g) && rels.contains(g.name) && g.arity.contains(x))
            || (exists|f: FunSym| #[trigger] fun_views(global.functions@).contains(f) && funs.contains(f.name) && (f.domain.contains(x)
            || f.codomain == x)));
    let mut needed: Vec<String> = Vec::new();
    let mut i: usize = 0;
    proof {
        assert(names_set(needed@) =~= Set::empty());
    }
    while i < syms.sorts.len()
        invariant
            i <= syms.sorts@.len(),
            crate::translator::distinct_strings(needed@),
            names_set(needed@) == syms.sorts@.subrange(0, i as int).map_values(|x: String| x@).to_set(),
        decreases syms.sorts.len() - i,
    {
        crate::translator::add_name(&mut needed, syms.sorts[i].as_str());
        proof {
            let sv = syms.sorts@.map_values(|x: String| x@);
            assert(syms.sorts@.subrange(0, i + 1).map_values(|x: String| x@) =~= syms.sorts@.subrange(0, i as int).map_values(|x: String| x@).push(syms.sorts@[i as int]@));
            syms.sorts@.subrange(0, i as int).map_values(|x: String| x@).lemma_push_to_set_commute(syms.sorts@[i as int]@);
        }
        i = i + 1;
    }
    proof {
        assert(syms.sorts@.subrange(0, i as int) =~= syms.sorts@);
        assert forall|x: Seq<char>| names_set(syms.sorts@).contains(x) <==> syms.sorts@.map_values(|y: String| y@).to_set().contains(x) by {
            if names_set(syms.sorts@).contains(x) {
                let k = choose|k: int| 0 <= k < syms.sorts@.len() && (#[trigger] syms.sorts@[k])@ == x;
                assert(syms.sorts@.map_values(|y: String| y@)[k] == x);
            }
        }
    }
    let ghost base = names_set(needed@);
    let mut i: usize = 0;
    while i < kr.len()
        invariant
            i <= kr@.len(),
            crate::translator::distinct_strings(needed@),
            names_set(needed@) == base.union(Set::new(|x: Seq<char>| exists|k: int| 0 <= k < i && (#[trigger] kr@[k])@.arity.contains(x))),
        decreases kr.len() - i,
    {
        let ghost b = names_set(needed@);
        crate::translator::add_sort_names(&mut needed, &kr[i].arity);
        proof {
            assert(kr@[i as int]@.arity == sort_names(kr@[i as int].arity@));
            assert(names_set(needed@) =~= base.union(Set::new(|x: Seq<char>| exists|k: int| 0 <= k < i + 1 && (#[trigger] kr@[k])@.arity.contains(x))));
        }
        i = i + 1;
    }
    let ghost base2 = names_set(needed@);
    let mut i: usize = 0;
    while i < kf.len()
        invariant
            i <= kf@.len(),
            crate::translator::distinct_strings(needed@),
            names_set(needed@) == base2.union(Set::new(|x: Seq<char>| exists|k: int| 0 <= k < i && ((#[trigger] kf@[k])@.domain.contains(x) || kf@[k]@.codomain == x))),
        decreases kf.len() - i,
    {
        crate::translator::add_sort_names(&mut needed, &kf[i].domain);
        crate::translator::add_name(&mut needed, kf[i].codomain.name.as_str());
        proof {
            assert(kf@[i as int]@.domain == sort_names(kf@[i as int].domain@));
            assert(names_set(needed@) =~= base2.union(Set::new(|x: Seq<char>| exists|k: int| 0 <= k < i + 1 && ((#[trigger] kf@[k])@.domain.contains(x) || kf@[k]@.codomain == x))));
        }
        i = i + 1;
    }
    proof {
        assert forall|x: Seq<char>| #[trigger] names_set(needed@).contains(x) <==> needed_spec.contains(x) by {
            if exists|k: int| 0 <= k < kr@.len() && (#[trigger] kr@[k])@.arity.contains(x) {
                let k = choose|k: int| 0 <= k < kr@.len() && (#[trigger] kr@[k])@.arity.contains(x);
                assert(rel_views(kr@)[k] == kr@[k]@);
                assert(rel_views(kr@).contains(kr@[k]@));
            }
            if exists|g: RelSym| #[trigger] rel_views(global.relations@).contains(g) && rels.contains(g.name) && g.arity.contains(x) {
                let g = choose|g: RelSym| #[trigger] rel_views(global.relations@).contains(g) && rels.contains(g.name) && g.arity.contains(x);
                assert(rel_views(kr@).contains(g));
                let k = choose|k: int| 0 <= k < kr@.len() && rel_views(kr@)[k] == g;
                assert(kr@[k]@ == g);
            }
            if exists|k: int| 0 <= k < kf@.len() && ((#[trigger] kf@[k])@.domain.contains(x) || kf@[k]@.codomain == x) {
                let k = choose|k: int| 0 <= k < kf@.len() && ((#[trigger] kf@[k])@.domain.contains(x) || kf@[k]@.codomain == x);
                assert(fun_views(kf@)[k] == kf@[k]@);
                assert(fun_views(kf@).contains(kf@[k]@));
            }
            if exists|f: FunSym| #[trigger] fun_views(global.functions@).contains(f) && funs.contains(f.name) && (f.domain.contains(x) || f.codomain == x) {
                let f = choose|f: FunSym| #[trigger] fun_views(global.functions@).contains(f) && funs.contains(f.name) && (f.domain.contains(x) || f.codomain == x);
                assert(fun_views(kf@).contains(f));
                let k = choose|k: int| 0 <= k < kf@.len() && fun_views(kf@)[k] == f;
                assert(kf@[k]@ == f);
            }
        }
    }
    let mut ks: Vec<SortSymbol> = Vec::new();
    let ghost mut six: Seq<int> = seq![];
    let mut i: usize = 0;
    while i < global.sorts.len()
        invariant
            i <= global.sorts@.len(),
            index_map(six, keys(ks@), keys(global.sorts@), i as int),
            forall|x: Seq<char>| #[trigger] sort_names(ks@).contains(x) <==> (sort_names(global.sorts@.subrange(0, i as int)).contains(x) && names_set(needed@).contains(x)),
        decreases global.sorts.len() - i,
    {
        let s0 = &global.sorts[i];
        let ghost b = sort_names(ks@);
        proof {
            assert(sort_names(global.sorts@.subrange(0, i + 1)) =~= sort_names(global.sorts@.subrange(0, i as int)).push(s0.name@));
        }
        if name_in(&needed, s0.name.as_str()) {
            let ghost kb = ks@;
            ks.push(s0.copy());
            proof {
                assert(sort_names(ks@) =~= b.push(s0.name@));
                lemma_index_map_push(six, keys(kb), keys(global.sorts@), i as int, ks@[ks@.len() - 1].key());
                assert(keys(ks@) =~= keys(kb).push(ks@[ks@.len() - 1].key()));
                six = six.push(i as int);
            }
        }
        proof {
            assert forall|x: Seq<char>| #[trigger] sort_names(ks@).contains(x) <==> (sort_names(global.sorts@.subrange(0, i + 1)).contains(x) && names_set(needed@).contains(x)) by {
                crate::translator::lemma_push_contains(b, s0.name@, x);
                crate::translator::lemma_push_contains(sort_names(global.sorts@.subrange(0, i as int)), s0.name@, x);
            }
        }
        i = i + 1;
    }
    proof {
        assert(global.sorts@.subrange(0, i as int) =~= global.sorts@);
    }
    let ghost gks = ks@;
    let ghost gkf = kf@;
    let ghost gkr = kr@;
    proof {
        if global.wf() {
            lemma_all_names_sub(global.sorts@, global.functions@, global.relations@, gks, gkf, gkr, six, fix, rix);
            assert forall|a: int| 0 <= a < gkf.len() implies crate::signature::all_declared(gks, crate::signature::fn_sort_refs(#[trigger] gkf[a])) by {
                assert(fun_views(gkf)[a] == gkf[a]@);
                assert(fun_views(gkf).contains(gkf[a]@));
                let w = choose|w: int| 0 <= w < global.functions@.len() && fun_views(global.functions@)[w] == gkf[a]@;
                let gw = global.functions@[w];
                assert(crate::signature::all_declared(global.sorts@, crate::signature::fn_sort_refs(gw)));
                assert(crate::signature::fn_sort_refs(gw) == crate::signature::fn_sort_refs(gkf[a]));
                let refs = crate::signature::fn_sort_refs(gkf[a]);
                assert forall|q: int| 0 <= q < refs.len() implies crate::signature::declares_sort(gks, #[trigger] refs[q]) by {
                    let x = refs[q];
                    assert(crate::signature::declares_sort(global.sorts@, x));
                    let z = choose|z: int| 0 <= z < global.sorts@.len() && global.sorts@[z].name@ == x;
                    assert(sort_names(global.sorts@)[z] == x);
                    if q < refs.len() - 1 {
                        assert(gkf[a]@.domain[q] == x);
                    }
                    assert(needed_spec.contains(x));
                    assert(sort_names(gks).contains(x));
                    let y = choose|y: int| 0 <= y < gks.len() && sort_names(gks)[y] == x;
                    assert(gks[y].name@ == x);
                }
            }
            assert forall|a: int| 0 <= a < gkr.len() implies crate::signature::all_declared(gks, sort_names(#[trigger] gkr[a].arity@)) by {
                assert(rel_views(gkr)[a] == gkr[a]@);
                assert(rel_views(gkr).contains(gkr[a]@));
                let w = choose|w: int| 0 <= w < global.relations@.len() && rel_views(global.relations@)[w] == gkr[a]@;
                let gw = global.relations@[w];
                assert(crate::signature::all_declared(global.sorts@, sort_names(gw.arity@)));
                let refs = sort_names(gkr[a].arity@);
                assert(refs == gw@.arity);
                assert forall|q: int| 0 <= q < refs.len() implies crate::signature::declares_sort(gks, #[trigger] refs[q]) by {
                    let x = refs[q];
                    assert(crate::signature::declares_sort(global.sorts@, x));
                    let z = choose|z: int| 0 <= z < global.sorts@.len() && global.sorts@[z].name@ == x;
                    assert(sort_names(global.sorts@)[z] == x);
                    assert(gkr[a]@.arity.contains(x));
                    assert(needed_spec.contains(x));
                    assert(sort_names(gks).contains(x));
                    let y = choose|y: int| 0 <= y < gks.len() && sort_names(gks)[y] == x;
                    assert(gks[y].name@ == x);
                }
            }
        }
    }
    let res = Signature::new(ks, kf, kr);
    proof {
        if res is Ok {
            let sg = res->Ok_0;
            assert forall|x: Seq<char>| #[trigger] sort_names(sg.sorts@).contains(x) <==> sort_names(gks).contains(x) by {
                crate::translator::lemma_sort_names_same(sg.sorts@, gks, x);
            }
            assert forall|g: FunSym| #[trigger] fun_views(sg.functions@).contains(g) <==> fun_views(gkf).contains(g) by {
                crate::translator::lemma_fun_views_same(sg.functions@, gkf, g);
            }
            assert forall|g: RelSym| #[trigger] rel_views(sg.relations@).contains(g) <==> rel_views(gkr).contains(g) by {
                crate::translator::lemma_rel_views_same(sg.relations@, gkr, g);
            }
        }
    }
    res
}

/// The abstract origins.
pub open spec fn origins_view(os: Seq<AxiomOrigin>) -> Seq<OriginV> {
    os.map_values(|o: AxiomOrigin| origin_view(o))
}

/// Position `k` is the first marked one.
pub open spec fn first_mark(s: Seq<bool>, k: int) -> bool {
    0 <= k < s.len() && s[k] && forall|j: int| 0 <= j < k ==> !#[trigger] s[j]
}

/// Some axiom states theorem `name`.
pub open spec fn has_seed(ov: Seq<OriginV>, name: Seq<char>) -> bool {
    exists|i: int| 0 <= i < ov.len() && #[trigger] ov[i] == OriginV::Theorem(name)
}

/// Relation names of a list of relation symbols.
pub open spec fn rel_names(s: Seq<RelationSymbol>) -> Seq<Seq<char>> {
    rel_views(s).map_values(|g: RelSym| g.name)
}

/// Function names of a list of function symbols.
pub open spec fn fun_names(s: Seq<FunctionSymbol>) -> Seq<Seq<char>> {
    fun_views(s).map_values(|f: FunSym| f.name)
}

/// `sl` is the slice for the closed set of axioms `m` containing the
/// seeds: its axioms are those of `m`, its supporting axioms those of `m`
/// that are no seed, its theorem axiom the first seed, its signature the
/// global one reduced to the symbols of its axioms.
pub open spec fn slice_with(sl: TheoremSlice, global: Signature, fv: Seq<FormulaV>, seeds: Seq<bool>, m: Seq<bool>) -> bool {
    let axs = marked(fv, m);
    &&& formulas_view(sl.all_axioms@) == axs
    &&& formulas_view(sl.supporting_axioms@) == marked(fv, Seq::new(fv.len(), |i: int| m[i] && !seeds[i]))
    &&& exists|k: int| #[trigger] first_mark(seeds, k) && sl.theorem_axiom@ == fv[k]
    &&& sl.signature.wf()
    &&& reduced_from(sl.signature, global, axioms_sorts(axs), all_rels(axs), all_funs(axs))
    &&& crate::ir_types::strings_view(sl.included_sorts@) == sort_names(sl.signature.sorts@)
    &&& crate::ir_types::strings_view(sl.included_relations@) == rel_names(sl.signature.relations@)
    &&& crate::ir_types::strings_view(sl.included_functions@) == fun_names(sl.signature.functions@)
    &&& sorted_names(sl.excluded_sorts@)
    &&& names_set(sl.excluded_sorts@) == sort_names(global.sorts@).to_set().difference(sort_names(sl.signature.sorts@).to_set())
}

/// `sl` is the slice of theorem `sl.theorem_name` over the axioms `fv`
/// with origins `ov` and the global signature `global`.
pub open spec fn is_slice(sl: TheoremSlice, global: Signature, fv: Seq<FormulaV>, ov: Seq<OriginV>) -> bool {
    let seeds = seed_marks(ov, sl.theorem_name@);
    exists|m: Seq<bool>| #[trigger] least_idx(fv, ov, seeds, m) && slice_with(sl, global, fv, seeds, m)
}

fn seed_vec(origins: &[AxiomOrigin], name: &str) -> (r: (Vec<bool>, Option<usize>))
    ensures
        r.0@ == seed_marks(origins_view(origins@), name@),
        match r.1 {
            Some(k) => first_mark(r.0@, k as int),
            None => !has_seed(origins_view(origins@), name@),
        },
{
    let ghost ov = origins_view(origins@);
    let mut v: Vec<bool> = Vec::new();
    let mut first: Option<usize> = None;
    let mut i: usize = 0;
    while i < origins.len()
        invariant
            i <= origins@.len(),
            ov == origins_view(origins@),
            v@ == seed_marks(ov, name@).subrange(0, i as int),
            match first {
                Some(k) => first_mark(v@, k as int),
                None => forall|j: int| 0 <= j < i ==> ov[j] != OriginV::Theorem(name@),
            },
        decreases origins.len() - i,
    {
        let hit = match &origins[i] {
            AxiomOrigin::TheoremStatement { theorem_name } => str_eq(theorem_name.as_str(), name),
            _ => false,
        };
        proof {
            assert(ov[i as int] == origin_view(origins@[i as int]));
            assert(hit == (ov[i as int] == OriginV::Theorem(name@)));
        }
        let ghost before = v@;
        v.push(hit);
        proof {
            assert(v@ =~= seed_marks(ov, name@).subrange(0, i + 1));
        }
        if hit && first.is_none() {
            first = Some(i);
            proof {
                assert forall|j: int| 0 <= j < i implies !#[trigger] v@[j] by {
                    assert(v@[j] == seed_marks(ov, name@)[j]);
                }
            }
        }
        i = i + 1;
    }
    proof {
        assert(seed_marks(ov, name@).subrange(0, i as int) =~= seed_marks(ov, name@));
    }
    (v, first)
}

fn names_of_sorts(v: &Vec<SortSymbol>) -> (r: Vec<String>)
    ensures
        crate::ir_types::strings_view(r@) == sort_names(v@),
{
    let mut out: Vec<String> = Vec::new();
    let mut i: usize = 0;
    while i < v.len()
        invariant
            i <= v@.len(),
            out@.len() == i,
            crate::ir_types::strings_view(out@) == sort_names(v@).subrange(0, i as int),
        decreases v.len() - i,
    {
        let ghost b = out@;
        out.push(crate::signature::copy_string(&v[i].name));
        proof {
            assert(out@ == b.push(out@[i as int]));
            assert(crate::ir_types::strings_view(out@) =~= crate::ir_types::strings_view(b).push(v@[i as int].name@));
            assert(sort_names(v@)[i as int] == v@[i as int].name@);
            assert(sort_names(v@).subrange(0, i + 1) =~= sort_names(v@).subrange(0, i as int).push(v@[i as int].name@));
        }
        i = i + 1;
    }
    proof {
        assert(sort_names(v@).subrange(0, i as int) =~= sort_names(v@));
    }
    out
}

fn names_of_relations(v: &Vec<RelationSymbol>) -> (r: Vec<String>)
    ensures
        crate::ir_types::strings_view(r@) == rel_names(v@),
{
    let mut out: Vec<String> = Vec::new();
    let mut i: usize = 0;
    while i < v.len()
        invariant
            i <= v@.len(),
            out@.len() == i,
            crate::ir_types::strings_view(out@) == rel_names(v@).subrange(0, i as int),
        decreases v.len() - i,
    {
        let ghost b = out@;
        out.push(crate::signature::copy_string(&v[i].name));
        proof {
            assert(out@ == b.push(out@[i as int]));
            assert(crate::ir_types::strings_view(out@) =~= crate::ir_types::strings_view(b).push(v@[i as int].name@));
            assert(rel_names(v@)[i as int] == v@[i as int].name@);
            assert(rel_names(v@).subrange(0, i + 1) =~= rel_names(v@).subrange(0, i as int).push(v@[i as int].name@));
        }
        i = i + 1;
    }
    proof {
        assert(rel_names(v@).subrange(0, i as int) =~= rel_names(v@));
    }
    out
}

fn names_of_functions(v: &Vec<FunctionSymbol>) -> (r: Vec<String>)
    ensures
        crate::ir_types::strings_view(r@) == fun_names(v@),
{
    let mut out: Vec<String> = Vec::new();
    let mut i: usize = 0;
    while i < v.len()
        invariant
            i <= v@.len(),
            out@.len() == i,
            crate::ir_types::strings_view(out@) == fun_names(v@).subrange(0, i as int),
        decreases v.len() - i,
    {
        let ghost b = out@;
        out.push(crate::signature::copy_string(&v[i].name));
        proof {
            assert(out@ == b.push(out@[i as int]));
            assert(crate::ir_types::strings_view(out@) =~= crate::ir_types::strings_view(b).push(v@[i as int].name@));
            assert(fun_names(v@)[i as int] == v@[i as int].name@);
            assert(fun_names(v@).subrange(0, i + 1) =~= fun_names(v@).subrange(0, i as int).push(v@[i as int].name@));
        }
        i = i + 1;
    }
    proof {
        assert(fun_names(v@).subrange(0, i as int) =~= fun_names(v@));
    }
    out
}

/// Sort names of `global` that are not among `kept`, sorted.
fn excluded_names(global: &Vec<SortSymbol>, kept: &Vec<String>) -> (r: Vec<String>)
    ensures
        sorted_names(r@),
        names_set(r@) == sort_names(global@).to_set().difference(crate::ir_types::strings_view(kept@).to_set()),
{
    let ghost kv = crate::ir_types::strings_view(kept@).to_set();
    let mut out: Vec<String> = Vec::new();
    let mut i: usize = 0;
    proof {
        assert(names_set(out@) =~= Set::empty());
    }
    while i < global.len()
        invariant
            i <= global@.len(),
            kv == crate::ir_types::strings_view(kept@).to_set(),
            sorted_names(out@),
            names_set(out@) == sort_names(global@).subrange(0, i as int).to_set().difference(kv),
        decreases global.len() - i,
    {
        let nm = global[i].name.as_str();
        let ghost b = names_set(out@);
        let present = name_in(kept, nm);
        proof {
            assert(present == kv.contains(nm@)) by {
                if present {
                    let k = choose|k: int| 0 <= k < kept@.len() && (#[trigger] kept@[k])@ == nm@;
                    assert(crate::ir_types::strings_view(kept@)[k] == nm@);
                }
                if kv.contains(nm@) {
                    let k = choose|k: int| 0 <= k < kept@.len() && crate::ir_types::strings_view(kept@)[k] == nm@;
                    assert(kept@[k]@ == nm@);
                }
            }
            let sn = sort_names(global@);
            assert(sn.subrange(0, i + 1) =~= sn.subrange(0, i as int).push(nm@));
            sn.subrange(0, i as int).lemma_push_to_set_commute(nm@);
        }
        if !present {
            insert_sorted(&mut out, nm);
        }
        proof {
            assert(names_set(out@) =~= sort_names(global@).subrange(0, i + 1).to_set().difference(kv));
        }
        i = i + 1;
    }
    proof {
        assert(sort_names(global@).subrange(0, i as int) =~= sort_names(global@));
    }
    out
}

fn build_slice(name: &String, global: &Signature, axioms: &Vec<Formula>, origins: &Vec<AxiomOrigin>) -> (r: Option<TheoremSlice>)
    requires
        axioms@.len() == origins@.len(),
    ensures
        match r {
            Some(sl) => sl.theorem_name@ == name@ && is_slice(sl, *global, formulas_view(axioms@), origins_view(origins@))
                && has_seed(origins_view(origins@), name@),
            None => !has_seed(origins_view(origins@), name@) || !global.wf(),
        },
{
    let ghost fv = formulas_view(axioms@);
    let ghost ov = origins_view(origins@);
    let (seeds, first) = seed_vec(origins.as_slice(), name.as_str());
    let k = match first {
        Some(k) => k,
        None => {
            return None;
        },
    };
    let mut marks: Vec<bool> = Vec::new();
    let mut no_skip: Vec<bool> = Vec::new();
    let mut i: usize = 0;
    while i < seeds.len()
        invariant
            i <= seeds@.len(),
            marks@ == seeds@.subrange(0, i as int),
            no_skip@.len() == i,
            forall|j: int| 0 <= j < i ==> !#[trigger] no_skip@[j],
        decreases seeds.len() - i,
    {
        marks.push(seeds[i]);
        no_skip.push(false);
        proof {
            assert(marks@ =~= seeds@.subrange(0, i + 1));
        }
        i = i + 1;
    }
    proof {
        assert(marks@ =~= seeds@);
        assert(origins@.len() == seeds@.len());
    }
    close_marks(axioms.as_slice(), origins.as_slice(), &mut marks);
    let ghost m = marks@;
    let all_axioms = marked_formulas(axioms.as_slice(), &marks, &no_skip);
    proof {
        assert(Seq::new(axioms@.len(), |i: int| m[i] && !no_skip@[i]) =~= m);
    }
    let syms = collect_symbols(all_axioms.as_slice());
    let sig = match reduce_signature(global, &syms) {
        Ok(s) => s,
        Err(_) => {
            return None;
        },
    };
    let supporting_axioms = marked_formulas(axioms.as_slice(), &marks, &seeds);
    let theorem_axiom = crate::formula::copy_formula(&axioms[k]);
    let included_sorts = names_of_sorts(&sig.sorts);
    let included_relations = names_of_relations(&sig.relations);
    let included_functions = names_of_functions(&sig.functions);
    let excluded_sorts = excluded_names(&global.sorts, &included_sorts);
    let sl = TheoremSlice {
        theorem_name: crate::signature::copy_string(name),
        theorem_axiom,
        supporting_axioms,
        signature: sig,
        all_axioms,
        included_sorts,
        included_relations,
        included_functions,
        excluded_sorts,
    };
    proof {
        assert(first_mark(seeds@, k as int));
        assert(slice_with(sl, *global, fv, seeds@, m));
        assert(least_idx(fv, ov, seeds@, m));
    }
    Some(sl)
}

/// The slice of a theorem none of whose axioms remains (its statement was
/// merged into an identical earlier axiom): the statement `⊤`, no axioms,
/// the empty signature, and every global sort excluded.
pub open spec fn empty_slice(sl: TheoremSlice, global: Signature, name: Seq<char>) -> bool {
    &&& sl.theorem_name@ == name
    &&& sl.theorem_axiom@ == FormulaV::Top
    &&& sl.supporting_axioms@.len() == 0
    &&& sl.all_axioms@.len() == 0
    &&& sl.signature.sorts@.len() == 0
    &&& sl.signature.functions@.len() == 0
    &&& sl.signature.relations@.len() == 0
    &&& sl.signature.constants@.len() == 0
    &&& sl.included_sorts@.len() == 0
    &&& sl.included_relations@.len() == 0
    &&& sl.included_functions@.len() == 0
    &&& sorted_names(sl.excluded_sorts@)
    &&& names_set(sl.excluded_sorts@) == sort_names(global.sorts@).to_set()
}

fn empty_slice_of(name: &String, global: &Signature) -> (r: TheoremSlice)
    ensures
        empty_slice(r, *global, name@),
{
    let kept: Vec<String> = Vec::new();
    let excluded_sorts = excluded_names(&global.sorts, &kept);
    proof {
        assert(crate::ir_types::strings_view(kept@).to_set() =~= Set::empty());
        assert(sort_names(global.sorts@).to_set().difference(Set::empty()) =~= sort_names(global.sorts@).to_set());
    }
    TheoremSlice {
        theorem_name: crate::signature::copy_string(name),
        theorem_axiom: Formula::Top,
        supporting_axioms: Vec::new(),
        signature: Signature { sorts: Vec::new(), functions: Vec::new(), relations: Vec::new(), constants: Vec::new() },
        all_axioms: Vec::new(),
        included_sorts: Vec::new(),
        included_relations: Vec::new(),
        included_functions: Vec::new(),
        excluded_sorts,
    }
}

/// One slice per name of `translated_theorems`, in that order.  A theorem
/// with an axiom of its own gets its slice (over a signature that is not
/// well formed, where the slice's signature cannot be built, the empty
/// slice); a theorem whose statement was merged into an identical earlier
/// axiom gets the empty slice.
pub fn slice_by_theorem(translation: &TranslationResult) -> (r: Vec<TheoremSlice>)
    requires
        translation.axioms@.len() == translation.axiom_origins@.len(),
    ensures
        r@.len() == translation.translated_theorems@.len(),
        forall|i: int| 0 <= i < r@.len() ==> (#[trigger] r@[i]).theorem_name@ == translation.translated_theorems@[i]@,
        forall|i: int|
            0 <= i < r@.len() ==> if has_seed(origins_view(translation.axiom_origins@), translation.translated_theorems@[i]@) {
                is_slice(
                    #[trigger] r@[i],
                    translation.signature,
                    formulas_view(translation.axioms@),
                    origins_view(translation.axiom_origins@),
                ) || (!translation.signature.wf() && empty_slice(
                    r@[i],
                    translation.signature,
                    translation.translated_theorems@[i]@,
                ))
            } else {
                empty_slice(r@[i], translation.signature, translation.translated_theorems@[i]@)
            },
        translation.signature.wf() ==> forall|i: int|
            0 <= i < r@.len() && has_seed(origins_view(translation.axiom_origins@), translation.translated_theorems@[i]@)
                ==> is_slice(
                #[trigger] r@[i],
                translation.signature,
                formulas_view(translation.axioms@),
                origins_view(translation.axiom_origins@),
            ),
{
    let ghost tt = translation.translated_theorems@;
    let ghost ov = origins_view(translation.axiom_origins@);
    let ghost fv = formulas_view(translation.axioms@);
    let mut out: Vec<TheoremSlice> = Vec::new();
    let mut i: usize = 0;
    while i < translation.translated_theorems.len()
        invariant
            i <= tt.len(),
            tt == translation.translated_theorems@,
            ov == origins_view(translation.axiom_origins@),
            fv == formulas_view(translation.axioms@),
            translation.axioms@.len() == translation.axiom_origins@.len(),
            out@.len() == i,
            forall|a: int| 0 <= a < i ==> (#[trigger] out@[a]).theorem_name@ == tt[a]@,
            forall|a: int|
                0 <= a < i ==> if has_seed(ov, tt[a]@) {
                    is_slice(#[trigger] out@[a], translation.signature, fv, ov) || (!translation.signature.wf()
                        && empty_slice(out@[a], translation.signature, tt[a]@))
                } else {
                    empty_slice(out@[a], translation.signature, tt[a]@)
                },
        decreases tt.len() - i,
    {
        let name = &translation.translated_theorems[i];
        let res = build_slice(name, &translation.signature, &translation.axioms, &translation.axiom_origins);
        let sl = match res {
            Some(sl) => sl,
            None => empty_slice_of(name, &translation.signature),
        };
        proof {
            if translation.signature.wf() && has_seed(ov, tt[i as int]@) {
                assert(res is Some);
            }
        }
        out.push(sl);
        i = i + 1;
    }
    out
}

} // verus!
