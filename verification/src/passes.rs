//! The declaration passes of the Lean front end: sorts, function symbols
//! and relation symbols, each specified as a fold of a step function over
//! the IR lists.
use vstd::prelude::*;
use crate::formula::{nnf, is_sentence_spec, rank, Formula, FormulaV, Term, TermV};
use crate::ir_types::{
    builtin_sort, strings_view, IREquation, IRExpr, IRExprV, IRConstructor, IRFunction, IRParam, IRPredicate, IRTheorem, LeanIR,
};
use crate::signature::{fun_views, rel_views, sort_names, FunSym, FunctionSymbol, RelSym, RelationSymbol, SortSymbol};
use crate::translation::{
    aput, fput, iff_v, implies_v, prop_res, prop_tr, resolve_sort, resolve_sorts, rget, rput, stack_view, Translation, TrS,
};
use crate::translator::{
    add_name, axioms_with_origins, distinct_strings, has_unsupported, instance_name, names_set, noise_sort, origin_view,
    sanitize, AxiomOrigin,
};

verus! {

broadcast use vstd::std_specs::vec::group_vec_axioms;

// ---------------------------------------------------------------------------
// Pass 1: sorts
// ---------------------------------------------------------------------------

/// A constructor mentions the sort `x`.
pub open spec fn ctor_mentions(c: IRConstructor, x: Seq<char>) -> bool {
    c.sort@ == x || strings_view(c.fields@).contains(x)
}

/// A function mentions the sort `x`.
pub open spec fn fn_mentions(f: IRFunction, x: Seq<char>) -> bool {
    f.codomain@ == x || strings_view(f.domain@).contains(x)
}

/// Sorts of a binder list.
pub open spec fn param_sorts(ps: Seq<IRParam>) -> Seq<Seq<char>> {
    ps.map_values(|p: IRParam| p.sort@)
}

/// A predicate mentions the sort `x` in a parameter or an equation binder.
pub open spec fn pred_mentions(p: IRPredicate, x: Seq<char>) -> bool {
    param_sorts(p.params@).contains(x) || exists|j: int|
        0 <= j < p.equations@.len() && param_sorts((#[trigger] p.equations@[j]).vars@).contains(x)
}

/// The IR declares or mentions the sort `x`.
pub open spec fn ir_mentions(ir: LeanIR, x: Seq<char>) -> bool {
    ||| exists|i: int| 0 <= i < ir.sorts@.len() && (#[trigger] ir.sorts@[i]).name@ == x
    ||| exists|i: int| 0 <= i < ir.constructors@.len() && ctor_mentions(#[trigger] ir.constructors@[i], x)
    ||| exists|i: int| 0 <= i < ir.functions@.len() && fn_mentions(#[trigger] ir.functions@[i], x)
    ||| exists|i: int| 0 <= i < ir.predicates@.len() && pred_mentions(#[trigger] ir.predicates@[i], x)
}

/// The sorts after the first pass: the built-ins, and every sort the IR
/// declares or mentions that is not noise.
pub open spec fn pass1_sorts(ir: LeanIR) -> Set<Seq<char>> {
    Set::new(|x: Seq<char>| builtin_sort(x) || (!noise_sort(x) && ir_mentions(ir, x)))
}

fn add_candidate(v: &mut Vec<String>, name: &str)
    requires
        distinct_strings(old(v)@),
    ensures
        distinct_strings(final(v)@),
        names_set(final(v)@) == if noise_sort(name@) {
            names_set(old(v)@)
        } else {
            names_set(old(v)@).insert(name@)
        },
{
    if !crate::translator::is_noise_sort_name(name) {
        add_name(v, name);
    }
}

fn add_candidates(v: &mut Vec<String>, names: &Vec<String>)
    requires
        distinct_strings(old(v)@),
    ensures
        distinct_strings(final(v)@),
        names_set(final(v)@) == names_set(old(v)@).union(
            Set::new(|x: Seq<char>| !noise_sort(x) && strings_view(names@).contains(x)),
        ),
{
    let ghost sv = strings_view(names@);
    let mut i: usize = 0;
    while i < names.len()
        invariant
            i <= names@.len(),
            sv == strings_view(names@),
            distinct_strings(v@),
            names_set(v@) == names_set(old(v)@).union(
                Set::new(|x: Seq<char>| !noise_sort(x) && sv.subrange(0, i as int).contains(x)),
            ),
        decreases names.len() - i,
    {
        let ghost b = names_set(v@);
        add_candidate(v, names[i].as_str());
        proof {
            assert(sv[i as int] == names@[i as int]@);
            assert forall|x: Seq<char>| (!noise_sort(x) && sv.subrange(0, i + 1).contains(x)) <==> ((!noise_sort(x)
                && sv.subrange(0, i as int).contains(x)) || (!noise_sort(x) && x == sv[i as int])) by {
                assert(sv.subrange(0, i + 1) =~= sv.subrange(0, i as int).push(sv[i as int]));
                crate::translator::lemma_push_contains(sv.subrange(0, i as int), sv[i as int], x);
            }
            assert(names_set(v@) =~= names_set(old(v)@).union(
                Set::new(|x: Seq<char>| !noise_sort(x) && sv.subrange(0, i + 1).contains(x)),
            ));
        }
        i = i + 1;
    }
    proof {
        assert(sv.subrange(0, i as int) =~= sv);
    }
}

fn add_param_sorts(v: &mut Vec<String>, ps: &Vec<IRParam>)
    requires
        distinct_strings(old(v)@),
    ensures
        distinct_strings(final(v)@),
        names_set(final(v)@) == names_set(old(v)@).union(
            Set::new(|x: Seq<char>| !noise_sort(x) && param_sorts(ps@).contains(x)),
        ),
{
    let ghost sv = param_sorts(ps@);
    let mut i: usize = 0;
    while i < ps.len()
        invariant
            i <= ps@.len(),
            sv == param_sorts(ps@),
            distinct_strings(v@),
            names_set(v@) == names_set(old(v)@).union(
                Set::new(|x: Seq<char>| !noise_sort(x) && sv.subrange(0, i as int).contains(x)),
            ),
        decreases ps.len() - i,
    {
        add_candidate(v, ps[i].sort.as_str());
        proof {
            assert(sv[i as int] == ps@[i as int].sort@);
            assert forall|x: Seq<char>| (!noise_sort(x) && sv.subrange(0, i + 1).contains(x)) <==> ((!noise_sort(x)
                && sv.subrange(0, i as int).contains(x)) || (!noise_sort(x) && x == sv[i as int])) by {
                assert(sv.subrange(0, i + 1) =~= sv.subrange(0, i as int).push(sv[i as int]));
                crate::translator::lemma_push_contains(sv.subrange(0, i as int), sv[i as int], x);
            }
            assert(names_set(v@) =~= names_set(old(v)@).union(
                Set::new(|x: Seq<char>| !noise_sort(x) && sv.subrange(0, i + 1).contains(x)),
            ));
        }
        i = i + 1;
    }
    proof {
        assert(sv.subrange(0, i as int) =~= sv);
    }
}

/// Sorts mentioned by the first `k` items, by a per-item predicate.
pub open spec fn mentioned_upto_ctor(cs: Seq<IRConstructor>, k: int) -> Set<Seq<char>> {
    Set::new(|x: Seq<char>| !noise_sort(x) && exists|i: int| 0 <= i < k && ctor_mentions(#[trigger] cs[i], x))
}

/// Sorts mentioned by the first `k` functions.
pub open spec fn mentioned_upto_fn(fs: Seq<IRFunction>, k: int) -> Set<Seq<char>> {
    Set::new(|x: Seq<char>| !noise_sort(x) && exists|i: int| 0 <= i < k && fn_mentions(#[trigger] fs[i], x))
}

/// Sorts mentioned by the first `k` predicates.
pub open spec fn mentioned_upto_pred(ps: Seq<IRPredicate>, k: int) -> Set<Seq<char>> {
    Set::new(|x: Seq<char>| !noise_sort(x) && exists|i: int| 0 <= i < k && pred_mentions(#[trigger] ps[i], x))
}

/// Sorts declared by the first `k` sort declarations.
pub open spec fn mentioned_upto_sort(ss: Seq<crate::ir_types::IRSort>, k: int) -> Set<Seq<char>> {
    Set::new(|x: Seq<char>| !noise_sort(x) && exists|i: int| 0 <= i < k && (#[trigger] ss[i]).name@ == x)
}

/// The set of known sort names after the first pass.
pub fn pass1(ir: &LeanIR) -> (r: Vec<String>)
    ensures
        distinct_strings(r@),
        names_set(r@) == pass1_sorts(*ir),
{
    let mut v: Vec<String> = Vec::new();
    proof {
        assert(names_set(v@) =~= Set::empty());
    }
    add_name(&mut v, "Nat");
    add_name(&mut v, "Int");
    add_name(&mut v, "Bool");
    add_name(&mut v, "Prop");
    let ghost base = names_set(v@);
    proof {
        assert(base =~= Set::new(|x: Seq<char>| builtin_sort(x)));
    }
    let mut i: usize = 0;
    while i < ir.sorts.len()
        invariant
            i <= ir.sorts@.len(),
            distinct_strings(v@),
            names_set(v@) == base.union(mentioned_upto_sort(ir.sorts@, i as int)),
        decreases ir.sorts.len() - i,
    {
        add_candidate(&mut v, ir.sorts[i].name.as_str());
        proof {
            assert(names_set(v@) =~= base.union(mentioned_upto_sort(ir.sorts@, i + 1)));
        }
        i = i + 1;
    }
    let ghost b1 = names_set(v@);
    let mut i: usize = 0;
    while i < ir.constructors.len()
        invariant
            i <= ir.constructors@.len(),
            distinct_strings(v@),
            names_set(v@) == b1.union(mentioned_upto_ctor(ir.constructors@, i as int)),
        decreases ir.constructors.len() - i,
    {
        let c = &ir.constructors[i];
        let ghost before = names_set(v@);
        add_candidate(&mut v, c.sort.as_str());
        add_candidates(&mut v, &c.fields);
        proof {
            assert(names_set(v@) =~= b1.union(mentioned_upto_ctor(ir.constructors@, i + 1)));
        }
        i = i + 1;
    }
    let ghost b2 = names_set(v@);
    let mut i: usize = 0;
    while i < ir.functions.len()
        invariant
            i <= ir.functions@.len(),
            distinct_strings(v@),
            names_set(v@) == b2.union(mentioned_upto_fn(ir.functions@, i as int)),
        decreases ir.functions.len() - i,
    {
        let f = &ir.functions[i];
        add_candidates(&mut v, &f.domain);
        add_candidate(&mut v, f.codomain.as_str());
        proof {
            assert(names_set(v@) =~= b2.union(mentioned_upto_fn(ir.functions@, i + 1)));
        }
        i = i + 1;
    }
    let ghost b3 = names_set(v@);
    let mut i: usize = 0;
    while i < ir.predicates.len()
        invariant
            i <= ir.predicates@.len(),
            distinct_strings(v@),
            names_set(v@) == b3.union(mentioned_upto_pred(ir.predicates@, i as int)),
        decreases ir.predicates.len() - i,
    {
        let p = &ir.predicates[i];
        let ghost before = names_set(v@);
        add_param_sorts(&mut v, &p.params);
        let ghost mid = names_set(v@);
        let mut j: usize = 0;
        while j < p.equations.len()
            invariant
                j <= p.equations@.len(),
                distinct_strings(v@),
                names_set(v@) == mid.union(Set::new(|x: Seq<char>| !noise_sort(x) && exists|k: int|
                    0 <= k < j && param_sorts((#[trigger] p.equations@[k]).vars@).contains(x))),
            decreases p.equations.len() - j,
        {
            add_param_sorts(&mut v, &p.equations[j].vars);
            proof {
                assert(names_set(v@) =~= mid.union(Set::new(|x: Seq<char>| !noise_sort(x) && exists|k: int|
                    0 <= k < j + 1 && param_sorts((#[trigger] p.equations@[k]).vars@).contains(x))));
            }
            j = j + 1;
        }
        proof {
            assert(names_set(v@) =~= b3.union(mentioned_upto_pred(ir.predicates@, i + 1)));
        }
        i = i + 1;
    }
    proof {
        assert(names_set(v@) =~= pass1_sorts(*ir));
    }
    v
}

// ---------------------------------------------------------------------------
// Passes 2 and 3: function and relation symbols
// ---------------------------------------------------------------------------

/// Some name of the list is a noise sort.
pub open spec fn any_noise(v: Seq<Seq<char>>) -> bool {
    exists|i: int| 0 <= i < v.len() && noise_sort(#[trigger] v[i])
}

/// A constructor becomes a function symbol into its sort, unless it
/// mentions a noise sort.
pub open spec fn ctor_step(st: TrS, c: IRConstructor) -> TrS {
    if noise_sort(c.sort@) || any_noise(strings_view(c.fields@)) {
        st
    } else {
        let (s1, cod) = resolve_sort(st, c.sort@);
        let (s2, dom) = resolve_sorts(s1, strings_view(c.fields@));
        TrS { dfun: fput(s2.dfun, FunSym { name: c.name@, domain: dom, codomain: cod }), ..s2 }
    }
}

/// A function becomes a function symbol, unless it is a derived instance
/// or mentions a noise sort.
pub open spec fn fn_step(st: TrS, f: IRFunction) -> TrS {
    if instance_name(f.name@) || noise_sort(f.codomain@) || any_noise(strings_view(f.domain@)) {
        st
    } else {
        let (s1, dom) = resolve_sorts(st, strings_view(f.domain@));
        let (s2, cod) = resolve_sort(s1, f.codomain@);
        TrS { dfun: fput(s2.dfun, FunSym { name: f.name@, domain: dom, codomain: cod }), ..s2 }
    }
}

/// A predicate becomes a relation symbol with its parameter sorts, unless
/// a parameter has a noise sort.
pub open spec fn pred_step(st: TrS, p: IRPredicate) -> TrS {
    if any_noise(param_sorts(p.params@)) {
        st
    } else {
        let (s1, ar) = resolve_sorts(st, param_sorts(p.params@));
        TrS { arity: aput(s1.arity, p.name@, ar), drel: rput(s1.drel, RelSym { name: p.name@, arity: ar }), ..s1 }
    }
}

/// The state after the constructors.
pub open spec fn ctors_pass(st: TrS, cs: Seq<IRConstructor>) -> TrS
    decreases cs.len(),
{
    if cs.len() == 0 {
        st
    } else {
        ctor_step(ctors_pass(st, cs.drop_last()), cs.last())
    }
}

/// The state after the functions.
pub open spec fn fns_pass(st: TrS, fs: Seq<IRFunction>) -> TrS
    decreases fs.len(),
{
    if fs.len() == 0 {
        st
    } else {
        fn_step(fns_pass(st, fs.drop_last()), fs.last())
    }
}

/// The state after the predicates.
pub open spec fn preds_pass(st: TrS, ps: Seq<IRPredicate>) -> TrS
    decreases ps.len(),
{
    if ps.len() == 0 {
        st
    } else {
        pred_step(preds_pass(st, ps.drop_last()), ps.last())
    }
}

fn has_noise(v: &Vec<String>) -> (r: bool)
    ensures
        r == any_noise(strings_view(v@)),
{
    let mut i: usize = 0;
    while i < v.len()
        invariant
            i <= v@.len(),
            forall|j: int| 0 <= j < i ==> !noise_sort(#[trigger] strings_view(v@)[j]),
        decreases v.len() - i,
    {
        if crate::translator::is_noise_sort_name(v[i].as_str()) {
            assert(noise_sort(strings_view(v@)[i as int]));
            return true;
        }
        i = i + 1;
    }
    false
}

fn param_sort_strings(ps: &Vec<IRParam>) -> (r: Vec<String>)
    ensures
        strings_view(r@) == param_sorts(ps@),
{
    let mut out: Vec<String> = Vec::new();
    let mut i: usize = 0;
    while i < ps.len()
        invariant
            i <= ps@.len(),
            out@.len() == i,
            forall|k: int| 0 <= k < i ==> (#[trigger] out@[k])@ == ps@[k].sort@,
        decreases ps.len() - i,
    {
        out.push(ps[i].sort.clone());
        i = i + 1;
    }
    assert(strings_view(out@) =~= param_sorts(ps@));
    out
}

/// Declare the constructors, functions and predicates.
pub(crate) fn declare(t: &mut Translation, ir: &LeanIR)
    requires
        old(t).wf(),
    ensures
        crate::translation::warnings_kept(old(t).warnings@, final(t).warnings@),
        final(t).wf(),
        final(t)@ == preds_pass(fns_pass(ctors_pass(old(t)@, ir.constructors@), ir.functions@), ir.predicates@),
{
    let ghost w0 = t.warnings@;
    let ghost st0 = t@;
    let mut i: usize = 0;
    while i < ir.constructors.len()
        invariant
            crate::translation::warnings_kept(w0, t.warnings@),
            i <= ir.constructors@.len(),
            t.wf(),
            t@ == ctors_pass(st0, ir.constructors@.subrange(0, i as int)),
        decreases ir.constructors.len() - i,
    {
        let c = &ir.constructors[i];
        proof {
            assert(ir.constructors@.subrange(0, i + 1).drop_last() =~= ir.constructors@.subrange(0, i as int));
            assert(ir.constructors@.subrange(0, i + 1).last() == ir.constructors@[i as int]);
        }
        if crate::translator::is_noise_sort_name(c.sort.as_str()) || has_noise(&c.fields) {
            let m = crate::ir_types::concat3("skipped constructor '", c.name.as_str(), "' that references a noise sort");
            t.warn(m);
        } else {
            let cod = t.resolve(c.sort.as_str());
            let dom = t.resolve_all(&c.fields);
            t.put_dfun(FunctionSymbol { name: c.name.clone(), domain: dom, codomain: SortSymbol { name: cod } });
        }
        i = i + 1;
    }
    proof {
        assert(ir.constructors@.subrange(0, i as int) =~= ir.constructors@);
    }
    let ghost st1 = t@;
    let mut i: usize = 0;
    while i < ir.functions.len()
        invariant
            crate::translation::warnings_kept(w0, t.warnings@),
            i <= ir.functions@.len(),
            t.wf(),
            t@ == fns_pass(st1, ir.functions@.subrange(0, i as int)),
        decreases ir.functions.len() - i,
    {
        let f = &ir.functions[i];
        proof {
            assert(ir.functions@.subrange(0, i + 1).drop_last() =~= ir.functions@.subrange(0, i as int));
            assert(ir.functions@.subrange(0, i + 1).last() == ir.functions@[i as int]);
        }
        if crate::translator::is_typeclass_instance(f.name.as_str()) {
        } else if crate::translator::is_noise_sort_name(f.codomain.as_str()) || has_noise(&f.domain) {
            let m = crate::ir_types::concat3("skipped function '", f.name.as_str(), "' that references a noise sort");
            t.warn(m);
        } else {
            let dom = t.resolve_all(&f.domain);
            let cod = t.resolve(f.codomain.as_str());
            t.put_dfun(FunctionSymbol { name: f.name.clone(), domain: dom, codomain: SortSymbol { name: cod } });
        }
        i = i + 1;
    }
    proof {
        assert(ir.functions@.subrange(0, i as int) =~= ir.functions@);
    }
    let ghost st2 = t@;
    let mut i: usize = 0;
    while i < ir.predicates.len()
        invariant
            crate::translation::warnings_kept(w0, t.warnings@),
            i <= ir.predicates@.len(),
            t.wf(),
            t@ == preds_pass(st2, ir.predicates@.subrange(0, i as int)),
        decreases ir.predicates.len() - i,
    {
        let p = &ir.predicates[i];
        proof {
            assert(ir.predicates@.subrange(0, i + 1).drop_last() =~= ir.predicates@.subrange(0, i as int));
            assert(ir.predicates@.subrange(0, i + 1).last() == ir.predicates@[i as int]);
        }
        let sorts = param_sort_strings(&p.params);
        if has_noise(&sorts) {
            let m = crate::ir_types::concat3("skipped predicate '", p.name.as_str(), "' whose parameter mentions a noise sort");
            t.warn(m);
        } else {
            let ar = t.resolve_all(&sorts);
            t.put_predicate(&p.name, ar);
        }
        i = i + 1;
    }
    proof {
        assert(ir.predicates@.subrange(0, i as int) =~= ir.predicates@);
    }
}

// ---------------------------------------------------------------------------
// Passes 4 and 5: axioms
// ---------------------------------------------------------------------------

/// Where an axiom came from, as an abstract value.
pub enum OriginV {
    /// Equation `i` of a predicate.
    Equation(Seq<char>, nat),
    /// The body of a predicate.
    Body(Seq<char>),
    /// A theorem.
    Theorem(Seq<char>),
}

/// Binders named by `ps` with the resolved sorts `ss`.
pub open spec fn binders(ps: Seq<IRParam>, ss: Seq<Seq<char>>) -> Seq<(Seq<char>, Seq<char>)> {
    Seq::new(ps.len(), |i: int| (ps[i].name@, ss[i]))
}

/// `∀` over each sort of `ss`, the first outermost.
pub open spec fn wrap_forall(body: FormulaV, ss: Seq<Seq<char>>) -> FormulaV
    decreases ss.len(),
{
    if ss.len() == 0 {
        body
    } else {
        wrap_forall(FormulaV::Forall(ss.last(), Box::new(body)), ss.drop_last())
    }
}

/// An equation `∀ vars, lhs = rhs` of propositions, both sides sanitized,
/// as the closed biconditional in negation normal form.
pub open spec fn eq_tr(st: TrS, vars: Seq<IRParam>, lhs: IRExprV, rhs: IRExprV) -> (TrS, Option<FormulaV>) {
    let (s1, ss) = resolve_sorts(st, param_sorts(vars));
    let stack = binders(vars, ss);
    let (s2, l) = prop_tr(s1, sanitize(lhs), stack);
    match l {
        None => (s2, None),
        Some(l) => {
            let (s3, r) = prop_tr(s2, sanitize(rhs), stack);
            match r {
                None => (s3, None),
                Some(r) => (s3, Some(nnf(wrap_forall(iff_v(l, r), param_sorts(vars))))),
            }
        },
    }
}

/// The equations of a predicate, in order; each translated one yields an
/// axiom with its position.
pub open spec fn eqs_tr(st: TrS, pname: Seq<char>, eqs: Seq<IREquation>) -> (TrS, Seq<(FormulaV, OriginV)>)
    decreases eqs.len(),
{
    if eqs.len() == 0 {
        (st, seq![])
    } else {
        let (s1, acc) = eqs_tr(st, pname, eqs.drop_last());
        let e = eqs.last();
        let (s2, f) = eq_tr(s1, e.vars@, e.lhs@, e.rhs@);
        match f {
            Some(f) => (s2, acc.push((f, OriginV::Equation(pname, (eqs.len() - 1) as nat)))),
            None => (s2, acc),
        }
    }
}

/// The variables `n - 1, …, 0`.
pub open spec fn vars_desc(n: nat) -> Seq<TermV> {
    Seq::new(n, |k: int| TermV::Var((n - 1 - k) as nat))
}

/// A predicate body `P(params) ↔ body`, closed and in negation normal
/// form; rejected when the body has an unsupported node or the predicate
/// has no relation symbol.
pub open spec fn body_tr(st: TrS, p: IRPredicate) -> (TrS, Option<FormulaV>) {
    if has_unsupported(p.body@) {
        (st, None)
    } else {
        let (s1, ss) = resolve_sorts(st, param_sorts(p.params@));
        let (s2, b) = prop_tr(s1, p.body@, binders(p.params@, ss));
        match b {
            None => (s2, None),
            Some(b) => match rget(s2.drel, p.name@) {
                None => (s2, None),
                Some(g) => {
                    let head = FormulaV::Atom(g, vars_desc(p.params@.len()));
                    (s2, Some(nnf(wrap_forall(iff_v(head, b), param_sorts(p.params@)))))
                },
            },
        }
    }
}

/// One predicate: its equations when it has any, else its body; with
/// whether any axiom came out.
pub open spec fn pred_axioms(st: TrS, p: IRPredicate) -> (TrS, Seq<(FormulaV, OriginV)>) {
    if p.equations@.len() > 0 {
        eqs_tr(st, p.name@, p.equations@)
    } else {
        let (s1, f) = body_tr(st, p);
        match f {
            Some(f) => (s1, seq![(f, OriginV::Body(p.name@))]),
            None => (s1, seq![]),
        }
    }
}

/// Result of a pass over a list: the state, the axioms with their origins,
/// the names translated and the names skipped.
pub struct PassOut {
    pub st: TrS,
    pub axioms: Seq<(FormulaV, OriginV)>,
    pub translated: Seq<Seq<char>>,
    pub skipped: Seq<Seq<char>>,
}

/// The predicate pass.
pub open spec fn preds_axioms(st: TrS, ps: Seq<IRPredicate>) -> PassOut
    decreases ps.len(),
{
    if ps.len() == 0 {
        PassOut { st, axioms: seq![], translated: seq![], skipped: seq![] }
    } else {
        let prev = preds_axioms(st, ps.drop_last());
        let p = ps.last();
        let (s1, ax) = pred_axioms(prev.st, p);
        if ax.len() > 0 {
            PassOut { st: s1, axioms: prev.axioms + ax, translated: prev.translated.push(p.name@), skipped: prev.skipped }
        } else {
            PassOut { st: s1, axioms: prev.axioms, translated: prev.translated, skipped: prev.skipped.push(p.name@) }
        }
    }
}

/// Propositions translated in order with no binders, stopping at the
/// first rejected one.
pub open spec fn hyps_tr(st: TrS, hs: Seq<IRExprV>) -> (TrS, Option<Seq<FormulaV>>)
    decreases hs.len(),
{
    if hs.len() == 0 {
        (st, Some(seq![]))
    } else {
        let (s1, done) = hyps_tr(st, hs.drop_last());
        match done {
            None => (s1, None),
            Some(fs) => {
                let (s2, f) = prop_tr(s1, hs.last(), seq![]);
                match f {
                    None => (s2, None),
                    Some(f) => (s2, Some(fs.push(f))),
                }
            },
        }
    }
}

/// `h₁ → (h₂ → … → c)`.
pub open spec fn chain(hs: Seq<FormulaV>, c: FormulaV) -> FormulaV
    decreases hs.len(),
{
    if hs.len() == 0 {
        c
    } else {
        chain(hs.drop_last(), implies_v(hs.last(), c))
    }
}

/// The hypothesis propositions of a theorem.
pub open spec fn hyp_bodies(t: IRTheorem) -> Seq<IRExprV> {
    t.hypotheses@.map_values(|h: crate::ir_types::IRHypothesis| h.body_spec()@)
}

/// A theorem: its hypotheses and conclusion as an implication chain, kept
/// when it is a sentence (whose quantifier nesting fits a machine word),
/// in negation normal form.
pub open spec fn thm_tr(st: TrS, t: IRTheorem) -> (TrS, Option<FormulaV>) {
    let (s1, hs) = hyps_tr(st, hyp_bodies(t));
    match hs {
        None => (s1, None),
        Some(hs) => {
            let (s2, c) = prop_tr(s1, t.conclusion@, seq![]);
            match c {
                None => (s2, None),
                Some(c) => {
                    let f = chain(hs, c);
                    if rank(f) <= usize::MAX && is_sentence_spec(f) {
                        (s2, Some(nnf(f)))
                    } else {
                        (s2, None)
                    }
                },
            }
        },
    }
}

/// The theorem pass.
pub open spec fn thms_axioms(st: TrS, ts: Seq<IRTheorem>) -> PassOut
    decreases ts.len(),
{
    if ts.len() == 0 {
        PassOut { st, axioms: seq![], translated: seq![], skipped: seq![] }
    } else {
        let prev = thms_axioms(st, ts.drop_last());
        let t = ts.last();
        let (s1, f) = thm_tr(prev.st, t);
        match f {
            Some(f) => PassOut {
                st: s1,
                axioms: prev.axioms.push((f, OriginV::Theorem(t.name@))),
                translated: prev.translated.push(t.name@),
                skipped: prev.skipped,
            },
            None => PassOut { st: s1, axioms: prev.axioms, translated: prev.translated, skipped: prev.skipped.push(t.name@) },
        }
    }
}

fn rank_at_most(f: &Formula, bound: usize) -> (r: bool)
    ensures
        r == (rank(f@) <= bound),
    decreases f,
{
    match f {
        Formula::And(l, r) | Formula::Or(l, r) => rank_at_most(l, bound) && rank_at_most(r, bound),
        Formula::Forall { body, .. } | Formula::Exists { body, .. } => bound > 0 && rank_at_most(body, bound - 1),
        Formula::Not(g) => rank_at_most(g, bound),
        _ => true,
    }
}

fn wrap_quantifiers(body: Formula, ps: &Vec<IRParam>) -> (r: Formula)
    ensures
        r@ == wrap_forall(body@, param_sorts(ps@)),
{
    let ghost ss = param_sorts(ps@);
    let ghost b0 = body@;
    let mut acc = body;
    let mut k: usize = ps.len();
    proof {
        assert(ss.subrange(0, k as int) =~= ss);
    }
    while k > 0
        invariant
            k <= ps@.len(),
            ss == param_sorts(ps@),
            wrap_forall(b0, ss) == wrap_forall(acc@, ss.subrange(0, k as int)),
        decreases k,
    {
        proof {
            assert(ss.subrange(0, k as int).drop_last() =~= ss.subrange(0, k - 1));
            assert(ss.subrange(0, k as int).last() == ps@[k - 1].sort@);
        }
        acc = Formula::Forall { sort: SortSymbol { name: ps[k - 1].sort.clone() }, body: Box::new(acc) };
        k = k - 1;
    }
    acc
}

fn binders_vec(ps: &Vec<IRParam>, sorts: &Vec<SortSymbol>) -> (r: Vec<(String, String)>)
    requires
        sorts@.len() == ps@.len(),
    ensures
        stack_view(r@) == binders(ps@, sort_names(sorts@)),
{
    let mut out: Vec<(String, String)> = Vec::new();
    let mut i: usize = 0;
    while i < ps.len()
        invariant
            i <= ps@.len(),
            sorts@.len() == ps@.len(),
            out@.len() == i,
            forall|k: int| 0 <= k < i ==> (#[trigger] out@[k]).0@ == ps@[k].name@ && out@[k].1@ == sorts@[k].name@,
        decreases ps.len() - i,
    {
        out.push((ps[i].name.clone(), sorts[i].name.clone()));
        i = i + 1;
    }
    assert(stack_view(out@) =~= binders(ps@, sort_names(sorts@)));
    out
}

fn iff_formula(l: Formula, r: Formula) -> (f: Formula)
    ensures
        f@ == iff_v(l@, r@),
{
    let l2 = l.clone();
    let r2 = r.clone();
    let nl = Formula::Not(Box::new(l));
    let nr = Formula::Not(Box::new(r2));
    proof {
        assert(nl@ == FormulaV::Not(Box::new(l2@)));
        assert(nr@ == FormulaV::Not(Box::new(r@)));
    }
    let a = Formula::Or(Box::new(nl), Box::new(r));
    let b = Formula::Or(Box::new(nr), Box::new(l2));
    proof {
        assert(a@ == implies_v(l2@, r@));
        assert(b@ == implies_v(r@, l2@));
    }
    Formula::And(Box::new(a), Box::new(b))
}

fn translate_equation(t: &mut Translation, eq: &IREquation) -> (r: Result<Formula, String>)
    requires
        old(t).wf(),
    ensures
        crate::translation::warnings_kept(old(t).warnings@, final(t).warnings@),
        final(t).wf(),
        (final(t)@, prop_res(r)) == eq_tr(old(t)@, eq.vars@, eq.lhs@, eq.rhs@),
        r matches Ok(f) ==> crate::formula::is_nnf(f@),
{
    let lhs = crate::translator::sanitize_expr(&eq.lhs);
    let rhs = crate::translator::sanitize_expr(&eq.rhs);
    let names = param_sort_strings(&eq.vars);
    let ghost st0 = t@;
    let ss = t.resolve_all(&names);
    proof {
        crate::translation::lemma_resolve_sorts_len(st0, strings_view(names@));
    }
    let mut stack = binders_vec(&eq.vars, &ss);
    let l = match t.prop(&lhs, &mut stack) {
        Ok(l) => l,
        Err(m) => {
            return Err(m);
        },
    };
    let r = match t.prop(&rhs, &mut stack) {
        Ok(r) => r,
        Err(m) => {
            return Err(m);
        },
    };
    let body = wrap_quantifiers(iff_formula(l, r), &eq.vars);
    Ok(Formula::to_nnf(body))
}

fn vars_desc_vec(n: usize) -> (r: Vec<Term>)
    ensures
        crate::formula::terms_view(r@) == vars_desc(n as nat),
{
    let mut out: Vec<Term> = Vec::new();
    let mut k: usize = 0;
    while k < n
        invariant
            k <= n,
            out@.len() == k,
            forall|j: int| 0 <= j < k ==> (#[trigger] out@[j])@ == TermV::Var((n - 1 - j) as nat),
        decreases n - k,
    {
        out.push(Term::Var(n - 1 - k));
        k = k + 1;
    }
    assert(crate::formula::terms_view(out@) =~= vars_desc(n as nat));
    out
}

fn translate_body(t: &mut Translation, p: &IRPredicate) -> (r: Result<Formula, String>)
    requires
        old(t).wf(),
    ensures
        crate::translation::warnings_kept(old(t).warnings@, final(t).warnings@),
        final(t).wf(),
        (final(t)@, prop_res(r)) == body_tr(old(t)@, *p),
        r matches Ok(f) ==> crate::formula::is_nnf(f@),
{
    if crate::translator::contains_unsupported(&p.body) {
        return Err(String::from_str("unsupported node: predicate body contains unsupported node"));
    }
    let names = param_sort_strings(&p.params);
    let ghost st0 = t@;
    let ss = t.resolve_all(&names);
    proof {
        crate::translation::lemma_resolve_sorts_len(st0, strings_view(names@));
    }
    let mut stack = binders_vec(&p.params, &ss);
    let b = match t.prop(&p.body, &mut stack) {
        Ok(b) => b,
        Err(m) => {
            return Err(m);
        },
    };
    let g = match t.declared_relation(p.name.as_str()) {
        Some(g) => g,
        None => {
            return Err(crate::ir_types::concat3("unknown symbol: ", p.name.as_str(), ""));
        },
    };
    let args = vars_desc_vec(p.params.len());
    let head = Formula::Atom { relation: g, args };
    let body = wrap_quantifiers(iff_formula(head, b), &p.params);
    Ok(Formula::to_nnf(body))
}

/// Names of skipped items.
pub open spec fn skipped_names(v: Seq<(String, String)>) -> Seq<Seq<char>> {
    v.map_values(|p: (String, String)| p.0@)
}

/// The abstract value of a pass's outputs.
pub open spec fn pass_view(st: TrS, fs: Seq<Formula>, os: Seq<AxiomOrigin>, tr: Seq<String>, sk: Seq<(String, String)>) -> PassOut {
    PassOut { st, axioms: axioms_with_origins(fs, os), translated: strings_view(tr), skipped: skipped_names(sk) }
}

fn push_axiom(fs: &mut Vec<Formula>, os: &mut Vec<AxiomOrigin>, f: Formula, o: AxiomOrigin)
    requires
        old(fs)@.len() == old(os)@.len(),
    ensures
        final(fs)@.len() == final(os)@.len(),
        axioms_with_origins(final(fs)@, final(os)@) == axioms_with_origins(old(fs)@, old(os)@).push((f@, origin_view(o))),
        final(fs)@ == old(fs)@.push(f),
{
    fs.push(f);
    os.push(o);
    assert(axioms_with_origins(fs@, os@) =~= axioms_with_origins(old(fs)@, old(os)@).push((f@, origin_view(o))));
}

fn predicate_axioms(t: &mut Translation, p: &IRPredicate, fs: &mut Vec<Formula>, os: &mut Vec<AxiomOrigin>)
    requires
        old(t).wf(),
        old(fs)@.len() == old(os)@.len(),
        forall|k: int| 0 <= k < old(fs)@.len() ==> crate::formula::is_nnf((#[trigger] old(fs)@[k])@),
    ensures
        crate::translation::warnings_kept(old(t).warnings@, final(t).warnings@),
        final(t).wf(),
        final(fs)@.len() == final(os)@.len(),
        forall|k: int| 0 <= k < final(fs)@.len() ==> crate::formula::is_nnf((#[trigger] final(fs)@[k])@),
        final(t)@ == pred_axioms(old(t)@, *p).0,
        axioms_with_origins(final(fs)@, final(os)@) == axioms_with_origins(old(fs)@, old(os)@) + pred_axioms(old(t)@, *p).1,
{
    let ghost w0 = t.warnings@;
    let ghost st0 = t@;
    let ghost a0 = axioms_with_origins(fs@, os@);
    if p.equations.len() > 0 {
        let mut pending: Vec<String> = Vec::new();
        let mut i: usize = 0;
        proof {
            assert(p.equations@.subrange(0, 0) =~= Seq::<IREquation>::empty());
            assert(a0 + seq![] =~= a0);
        }
        while i < p.equations.len()
            invariant
                crate::translation::warnings_kept(w0, t.warnings@),
                i <= p.equations@.len(),
                t.wf(),
                fs@.len() == os@.len(),
                t@ == eqs_tr(st0, p.name@, p.equations@.subrange(0, i as int)).0,
                axioms_with_origins(fs@, os@) == a0 + eqs_tr(st0, p.name@, p.equations@.subrange(0, i as int)).1,
                forall|k: int| 0 <= k < fs@.len() ==> crate::formula::is_nnf((#[trigger] fs@[k])@),
            decreases p.equations.len() - i,
        {
            proof {
                assert(p.equations@.subrange(0, i + 1).drop_last() =~= p.equations@.subrange(0, i as int));
                assert(p.equations@.subrange(0, i + 1).last() == p.equations@[i as int]);
            }
            let ghost acc = eqs_tr(st0, p.name@, p.equations@.subrange(0, i as int)).1;
            match translate_equation(t, &p.equations[i]) {
                Ok(f) => {
                    let o = AxiomOrigin::PredicateEquation { predicate_name: p.name.clone(), equation_index: i };
                    push_axiom(fs, os, f, o);
                    proof {
                        assert(a0 + acc.push((f@, origin_view(o))) =~= (a0 + acc).push((f@, origin_view(o))));
                    }
                },
                Err(m) => {
                    pending.push(m);
                },
            }
            i = i + 1;
        }
        proof {
            assert(p.equations@.subrange(0, i as int) =~= p.equations@);
        }
        let mut k: usize = 0;
        let partial = fs.len() > 0;
        while k < pending.len()
            invariant
                crate::translation::warnings_kept(w0, t.warnings@),
                t.wf(),
                t@ == eqs_tr(st0, p.name@, p.equations@).0,
            decreases pending.len() - k,
        {
            let m = crate::ir_types::concat3(p.name.as_str(), ": equation not translated: ", pending[k].as_str());
            t.warn(m);
            k = k + 1;
        }
    } else {
        match translate_body(t, p) {
            Ok(f) => {
                let o = AxiomOrigin::PredicateBody { predicate_name: p.name.clone() };
                push_axiom(fs, os, f, o);
                proof {
                    assert(a0.push((f@, origin_view(o))) =~= a0 + seq![(f@, origin_view(o))]);
                }
            },
            Err(_) => {
                proof {
                    assert(a0 =~= a0 + seq![]);
                }
            },
        }
    }
}

/// The predicate pass: the axioms of every predicate, with the names of
/// the predicates that gave axioms and of those that gave none.
pub(crate) fn predicates_pass(t: &mut Translation, preds: &Vec<IRPredicate>) -> (r: (Vec<Formula>, Vec<AxiomOrigin>, Vec<String>, Vec<(String, String)>))
    requires
        old(t).wf(),
    ensures
        crate::translation::warnings_kept(old(t).warnings@, final(t).warnings@),
        final(t).wf(),
        r.0@.len() == r.1@.len(),
        pass_view(final(t)@, r.0@, r.1@, r.2@, r.3@) == preds_axioms(old(t)@, preds@),
        forall|k: int| 0 <= k < r.0@.len() ==> crate::formula::is_nnf((#[trigger] r.0@[k])@),
{
    let ghost w0 = t.warnings@;
    let ghost st0 = t@;
    let mut fs: Vec<Formula> = Vec::new();
    let mut os: Vec<AxiomOrigin> = Vec::new();
    let mut tr: Vec<String> = Vec::new();
    let mut sk: Vec<(String, String)> = Vec::new();
    let mut i: usize = 0;
    proof {
        assert(preds@.subrange(0, 0) =~= Seq::<IRPredicate>::empty());
        assert(axioms_with_origins(fs@, os@) =~= seq![]);
        assert(strings_view(tr@) =~= seq![]);
        assert(skipped_names(sk@) =~= seq![]);
    }
    while i < preds.len()
        invariant
            crate::translation::warnings_kept(w0, t.warnings@),
            i <= preds@.len(),
            t.wf(),
            fs@.len() == os@.len(),
            pass_view(t@, fs@, os@, tr@, sk@) == preds_axioms(st0, preds@.subrange(0, i as int)),
            forall|k: int| 0 <= k < fs@.len() ==> crate::formula::is_nnf((#[trigger] fs@[k])@),
        decreases preds.len() - i,
    {
        let p = &preds[i];
        proof {
            assert(preds@.subrange(0, i + 1).drop_last() =~= preds@.subrange(0, i as int));
            assert(preds@.subrange(0, i + 1).last() == preds@[i as int]);
        }
        let ghost before = axioms_with_origins(fs@, os@);
        let ghost trb = strings_view(tr@);
        let ghost skb = skipped_names(sk@);
        let n0 = fs.len();
        predicate_axioms(t, p, &mut fs, &mut os);
        proof {
            assert(axioms_with_origins(fs@, os@).len() == fs@.len());
            assert(before.len() == n0);
        }
        if fs.len() > n0 {
            tr.push(p.name.clone());
            proof {
                assert(strings_view(tr@) =~= trb.push(p.name@));
            }
        } else {
            let reason = if p.equations.len() > 0 {
                String::from_str("all equations contained unsupported nodes")
            } else {
                String::from_str("predicate body could not be translated")
            };
            sk.push((p.name.clone(), reason));
            proof {
                assert(skipped_names(sk@) =~= skb.push(p.name@));
                assert(axioms_with_origins(fs@, os@) =~= before);
            }
        }
        i = i + 1;
    }
    proof {
        assert(preds@.subrange(0, i as int) =~= preds@);
    }
    (fs, os, tr, sk)
}

fn hypotheses(t: &mut Translation, th: &IRTheorem) -> (r: Result<Vec<Formula>, String>)
    requires
        old(t).wf(),
    ensures
        crate::translation::warnings_kept(old(t).warnings@, final(t).warnings@),
        final(t).wf(),
        final(t)@ == hyps_tr(old(t)@, hyp_bodies(*th)).0,
        (match r {
            Ok(v) => Some(crate::formula::formulas_view(v@)),
            Err(_) => None,
        }) == hyps_tr(old(t)@, hyp_bodies(*th)).1,
{
    let ghost w0 = t.warnings@;
    let ghost st0 = t@;
    let ghost hb = hyp_bodies(*th);
    let mut out: Vec<Formula> = Vec::new();
    let mut stack: Vec<(String, String)> = Vec::new();
    let mut i: usize = 0;
    proof {
        assert(hb.subrange(0, 0) =~= Seq::<IRExprV>::empty());
        assert(crate::formula::formulas_view(out@) =~= seq![]);
        assert(stack_view(stack@) =~= seq![]);
    }
    let mut failure: Option<String> = None;
    while i < th.hypotheses.len()
        invariant_except_break
            failure is None,
            hyps_tr(st0, hb.subrange(0, i as int)) == (t@, Some(crate::formula::formulas_view(out@))),
        invariant
            crate::translation::warnings_kept(w0, t.warnings@),
            i <= th.hypotheses@.len(),
            t.wf(),
            hb == hyp_bodies(*th),
            stack@.len() == 0,
        ensures
            failure is Some ==> hyps_tr(st0, hb) == (t@, None::<Seq<FormulaV>>),
            failure is None ==> i == th.hypotheses@.len() && hyps_tr(st0, hb.subrange(0, i as int)) == (t@, Some(crate::formula::formulas_view(out@))),
        decreases th.hypotheses.len() - i,
    {
        proof {
            assert(hb.subrange(0, i + 1).drop_last() =~= hb.subrange(0, i as int));
            assert(hb.subrange(0, i + 1).last() == th.hypotheses@[i as int].body_spec()@);
            assert(stack_view(stack@) =~= seq![]);
        }
        match t.prop(th.hypotheses[i].body(), &mut stack) {
            Ok(f) => {
                let ghost ob = crate::formula::formulas_view(out@);
                out.push(f);
                proof {
                    assert(crate::formula::formulas_view(out@) =~= ob.push(f@));
                }
            },
            Err(m) => {
                proof {
                    assert(hyps_tr(st0, hb.subrange(0, i + 1)) == (t@, None::<Seq<FormulaV>>));
                    lemma_hyps_stop(st0, hb, i + 1);
                }
                failure = Some(m);
                break;
            },
        }
        i = i + 1;
    }
    match failure {
        Some(m) => {
            return Err(m);
        },
        None => {},
    }
    proof {
        assert(hb.subrange(0, i as int) =~= hb);
    }
    Ok(out)
}

proof fn lemma_hyps_stop(st: TrS, hs: Seq<IRExprV>, k: int)
    requires
        0 <= k <= hs.len(),
        hyps_tr(st, hs.subrange(0, k)).1 is None,
    ensures
        hyps_tr(st, hs) == hyps_tr(st, hs.subrange(0, k)),
    decreases hs.len() - k,
{
    if k < hs.len() {
        assert(hs.subrange(0, k + 1).drop_last() =~= hs.subrange(0, k));
        lemma_hyps_stop(st, hs, k + 1);
    } else {
        assert(hs.subrange(0, k) =~= hs);
    }
}

fn chain_formula(hs: Vec<Formula>, c: Formula) -> (r: Formula)
    ensures
        r@ == chain(crate::formula::formulas_view(hs@), c@),
{
    let ghost hv = crate::formula::formulas_view(hs@);
    let ghost c0 = c@;
    let mut rest = hs;
    let mut acc = c;
    proof {
        assert(hv.subrange(0, rest@.len() as int) =~= hv);
    }
    while rest.len() > 0
        invariant
            rest@.len() <= hv.len(),
            crate::formula::formulas_view(rest@) == hv.subrange(0, rest@.len() as int),
            chain(hv, c0) == chain(hv.subrange(0, rest@.len() as int), acc@),
        decreases rest@.len(),
    {
        let ghost rv = crate::formula::formulas_view(rest@);
        let h = rest.pop().unwrap();
        proof {
            assert(h@ == rv.last());
            assert(rv.drop_last() =~= crate::formula::formulas_view(rest@));
            assert(hv.subrange(0, (rest@.len() + 1) as int).drop_last() =~= hv.subrange(0, rest@.len() as int));
        }
        let nh = Formula::Not(Box::new(h));
        proof {
            assert(nh@ == FormulaV::Not(Box::new(rv.last())));
        }
        acc = Formula::Or(Box::new(nh), Box::new(acc));
    }
    proof {
        assert(hv.subrange(0, 0) =~= Seq::<FormulaV>::empty());
    }
    acc
}

fn theorem_axiom(t: &mut Translation, th: &IRTheorem) -> (r: Result<Formula, String>)
    requires
        old(t).wf(),
    ensures
        crate::translation::warnings_kept(old(t).warnings@, final(t).warnings@),
        final(t).wf(),
        (final(t)@, prop_res(r)) == thm_tr(old(t)@, *th),
        r matches Ok(f) ==> crate::formula::is_nnf(f@),
{
    let hs = match hypotheses(t, th) {
        Ok(hs) => hs,
        Err(m) => {
            return Err(m);
        },
    };
    let mut stack: Vec<(String, String)> = Vec::new();
    proof {
        assert(stack_view(stack@) =~= seq![]);
    }
    let c = match t.prop(&th.conclusion, &mut stack) {
        Ok(c) => c,
        Err(m) => {
            return Err(m);
        },
    };
    let f = chain_formula(hs, c);
    if !rank_at_most(&f, usize::MAX) || !f.is_sentence() {
        return Err(String::from_str("translated formula has free variables"));
    }
    Ok(Formula::to_nnf(f))
}

/// The theorem pass: the axiom of every theorem that translates to a
/// sentence, with the names of the theorems translated and skipped.
pub(crate) fn theorems_pass(t: &mut Translation, thms: &Vec<IRTheorem>) -> (r: (Vec<Formula>, Vec<AxiomOrigin>, Vec<String>, Vec<(String, String)>))
    requires
        old(t).wf(),
    ensures
        crate::translation::warnings_kept(old(t).warnings@, final(t).warnings@),
        final(t).wf(),
        r.0@.len() == r.1@.len(),
        pass_view(final(t)@, r.0@, r.1@, r.2@, r.3@) == thms_axioms(old(t)@, thms@),
        forall|k: int| 0 <= k < r.0@.len() ==> crate::formula::is_nnf((#[trigger] r.0@[k])@),
{
    let ghost w0 = t.warnings@;
    let ghost st0 = t@;
    let mut fs: Vec<Formula> = Vec::new();
    let mut os: Vec<AxiomOrigin> = Vec::new();
    let mut tr: Vec<String> = Vec::new();
    let mut sk: Vec<(String, String)> = Vec::new();
    let mut i: usize = 0;
    proof {
        assert(thms@.subrange(0, 0) =~= Seq::<IRTheorem>::empty());
        assert(axioms_with_origins(fs@, os@) =~= seq![]);
        assert(strings_view(tr@) =~= seq![]);
        assert(skipped_names(sk@) =~= seq![]);
    }
    while i < thms.len()
        invariant
            crate::translation::warnings_kept(w0, t.warnings@),
            i <= thms@.len(),
            t.wf(),
            fs@.len() == os@.len(),
            pass_view(t@, fs@, os@, tr@, sk@) == thms_axioms(st0, thms@.subrange(0, i as int)),
            forall|k: int| 0 <= k < fs@.len() ==> crate::formula::is_nnf((#[trigger] fs@[k])@),
        decreases thms.len() - i,
    {
        let th = &thms[i];
        proof {
            assert(thms@.subrange(0, i + 1).drop_last() =~= thms@.subrange(0, i as int));
            assert(thms@.subrange(0, i + 1).last() == thms@[i as int]);
        }
        let ghost trb = strings_view(tr@);
        let ghost skb = skipped_names(sk@);
        match theorem_axiom(t, th) {
            Ok(f) => {
                push_axiom(&mut fs, &mut os, f, AxiomOrigin::TheoremStatement { theorem_name: th.name.clone() });
                tr.push(th.name.clone());
                proof {
                    assert(strings_view(tr@) =~= trb.push(th.name@));
                }
            },
            Err(m) => {
                sk.push((th.name.clone(), m));
                proof {
                    assert(skipped_names(sk@) =~= skb.push(th.name@));
                }
            },
        }
        i = i + 1;
    }
    proof {
        assert(thms@.subrange(0, i as int) =~= thms@);
    }
    (fs, os, tr, sk)
}

} // verus!
