//! Translation of a Lean IR document into a first-order signature and
//! axioms, with the helpers it is built from: recognition of type-class
//! and standard-library noise, sanitizing of equation lemmas, removal of
//! duplicate axioms, and pruning of the signature to the sorts the axioms
//! reach.
use vstd::prelude::*;
use crate::formula::{formulas_view, Formula, FormulaV, Term, TermV};
use crate::ir_types::{expr_view, exprs_view, IREquation, IRExpr, IRExprV, IRParam, LeanIR};
use crate::signature::{keys, Named, copy_functions, copy_relations, copy_sorts, fun_views, rel_views, sort_names, FunSym, FunctionSymbol, RelSym, RelationSymbol, Signature, SignatureError, SortSymbol};
use crate::slicer::{index_map, lemma_all_names_sub, lemma_index_map_push};
use crate::names::{contains_str, ends_with, has_prefix, has_substring, has_suffix, nth_char, starts_with, str_eq};

verus! {

broadcast use vstd::std_specs::vec::group_vec_axioms;

/// Where a translated axiom came from in the IR.
#[derive(Debug, Clone, PartialEq, Eq)]
pub enum AxiomOrigin {
    /// One of the equation lemmas of a predicate.
    PredicateEquation {
        /// The predicate.
        predicate_name: String,
        /// Position of the equation, from zero.
        equation_index: usize,
    },
    /// The body of a predicate without usable equations.
    PredicateBody {
        /// The predicate.
        predicate_name: String,
    },
    /// A theorem statement.
    TheoremStatement {
        /// The theorem.
        theorem_name: String,
    },
}

/// Abstract value of an origin.
pub open spec fn origin_view(o: AxiomOrigin) -> crate::passes::OriginV {
    match o {
        AxiomOrigin::PredicateEquation { predicate_name, equation_index } => crate::passes::OriginV::Equation(
            predicate_name@,
            equation_index as nat,
        ),
        AxiomOrigin::PredicateBody { predicate_name } => crate::passes::OriginV::Body(predicate_name@),
        AxiomOrigin::TheoremStatement { theorem_name } => crate::passes::OriginV::Theorem(theorem_name@),
    }
}

/// Axioms paired with their origins, as abstract values.
pub open spec fn axioms_with_origins(fs: Seq<Formula>, os: Seq<AxiomOrigin>) -> Seq<(FormulaV, crate::passes::OriginV)> {
    Seq::new(fs.len(), |i: int| (fs[i]@, origin_view(os[i])))
}

// ---------------------------------------------------------------------------
// Noise recognition
// ---------------------------------------------------------------------------

/// The placeholder sort names the exporter emits for unresolved binders.
pub open spec fn unknown_sort(name: Seq<char>) -> bool {
    name == "_Unknown"@ || name == "_Sort"@ || name == "_Param"@
}

pub(crate) fn is_unknown_sort(name: &str) -> (r: bool)
    ensures
        r == unknown_sort(name@),
{
    str_eq(name, "_Unknown") || str_eq(name, "_Sort") || str_eq(name, "_Param")
}

/// `name` starts with `inst` followed by an ASCII capital letter: Lean's
/// naming of derived type-class instances.
pub open spec fn instance_name(name: Seq<char>) -> bool {
    has_prefix(name, "inst"@) && name.len() > 4 && 'A' <= name[4] && name[4] <= 'Z'
}

fn is_instance_name(name: &str) -> (r: bool)
    ensures
        r == instance_name(name@),
{
    if !starts_with(name, "inst") {
        return false;
    }
    match nth_char(name, 4) {
        Some(c) => 'A' <= c && c <= 'Z',
        None => false,
    }
}

/// Sort names produced by type-class plumbing, standard-library
/// re-exports, universes or exporter placeholders.
pub open spec fn noise_sort(name: Seq<char>) -> bool {
    ||| unknown_sort(name)
    ||| name == "Prop"@ || name == "Type"@ || name == "Sort"@
    ||| instance_name(name)
    ||| has_prefix(name, "Decidable"@) || has_prefix(name, "IO."@) || has_prefix(name, "Std."@)
        || has_prefix(name, "System."@) || has_prefix(name, "EStateM."@)
    ||| has_substring(name, "Repr"@) || has_substring(name, "Hashable"@) || has_substring(name, "Inhabited"@)
        || has_substring(name, "ToString"@) || has_substring(name, "CoeSort"@) || has_substring(
        name,
        "CoeHTCoe"@,
    )
}

/// True for sort names that stand for no mathematical sort: placeholders
/// (`_Unknown`, `_Sort`, `_Param`), universes (`Prop`, `Type`, `Sort`),
/// instance dictionaries (`inst` + capital), names starting with
/// `Decidable`, `IO.`, `Std.`, `System.` or `EStateM.`, and names containing
/// `Repr`, `Hashable`, `Inhabited`, `ToString`, `CoeSort` or `CoeHTCoe`.
pub fn is_noise_sort_name(name: &str) -> (r: bool)
    ensures
        r == noise_sort(name@),
{
    if is_unknown_sort(name) {
        return true;
    }
    if str_eq(name, "Prop") || str_eq(name, "Type") || str_eq(name, "Sort") {
        return true;
    }
    if is_instance_name(name) {
        return true;
    }
    if starts_with(name, "Decidable") || starts_with(name, "IO.") || starts_with(name, "Std.")
        || starts_with(name, "System.") || starts_with(name, "EStateM.") {
        return true;
    }
    contains_str(name, "Repr") || contains_str(name, "Hashable") || contains_str(name, "Inhabited")
        || contains_str(name, "ToString") || contains_str(name, "CoeSort") || contains_str(name, "CoeHTCoe")
}

/// A derived type-class instance name.
pub fn is_typeclass_instance(name: &str) -> (r: bool)
    ensures
        r == instance_name(name@),
{
    is_instance_name(name)
}

/// Descriptions of unsupported nodes that are type-class plumbing.
pub open spec fn noise_desc(d: Seq<char>) -> bool {
    has_substring(d, "inst"@) || has_substring(d, "Decidable"@) || has_substring(d, "Repr"@) || has_substring(
        d,
        "BEq"@,
    ) || has_substring(d, "Ord"@) || has_substring(d, "Hashable"@) || has_substring(d, "Inhabited"@)
        || has_substring(d, "ToString"@) || has_substring(d, "outParam"@) || has_substring(d, "autoParam"@)
}

/// True iff the description of an unsupported node names type-class
/// plumbing: it contains `inst`, `Decidable`, `Repr`, `BEq`, `Ord`,
/// `Hashable`, `Inhabited`, `ToString`, `outParam` or `autoParam`.
pub fn is_typeclass_noise_desc(description: &str) -> (r: bool)
    ensures
        r == noise_desc(description@),
{
    contains_str(description, "inst") || contains_str(description, "Decidable") || contains_str(
        description,
        "Repr",
    ) || contains_str(description, "BEq") || contains_str(description, "Ord") || contains_str(
        description,
        "Hashable",
    ) || contains_str(description, "Inhabited") || contains_str(description, "ToString")
        || contains_str(description, "outParam") || contains_str(description, "autoParam")
}

/// Names of type-class methods and dictionaries.
pub open spec fn method_name(n: Seq<char>) -> bool {
    ||| instance_name(n)
    ||| has_suffix(n, ".mk"@)
    ||| n == "Decidable.decide"@ || n == "Repr.reprPrec"@ || n == "Repr.repr"@ || n == "BEq.beq"@
        || n == "Ord.compare"@ || n == "Hashable.hash"@ || n == "ToString.toString"@
}

/// True iff `fn_name` names a type-class instance or method: an instance
/// name, a name ending in `.mk`, or one of `Decidable.decide`,
/// `Repr.reprPrec`, `Repr.repr`, `BEq.beq`, `Ord.compare`, `Hashable.hash`,
/// `ToString.toString`.
pub fn is_typeclass_method_name(fn_name: &str) -> (r: bool)
    ensures
        r == method_name(fn_name@),
{
    if is_instance_name(fn_name) {
        return true;
    }
    ends_with(fn_name, ".mk") || str_eq(fn_name, "Decidable.decide") || str_eq(fn_name, "Repr.reprPrec")
        || str_eq(fn_name, "Repr.repr") || str_eq(fn_name, "BEq.beq") || str_eq(fn_name, "Ord.compare")
        || str_eq(fn_name, "Hashable.hash") || str_eq(fn_name, "ToString.toString")
}

// ---------------------------------------------------------------------------
// Sanitizing
// ---------------------------------------------------------------------------

/// An argument that is a type-class dictionary.
pub open spec fn typeclass_arg(e: IRExprV) -> bool {
    match e {
        IRExprV::Unsupported(d) => noise_desc(d),
        IRExprV::App(n, _) => method_name(n),
        _ => false,
    }
}

fn is_typeclass_arg(e: &IRExpr) -> (r: bool)
    ensures
        r == typeclass_arg(e@),
{
    match e {
        IRExpr::Unsupported { description } => is_typeclass_noise_desc(description.as_str()),
        IRExpr::App { fn_name, .. } => is_typeclass_method_name(fn_name.as_str()),
        _ => false,
    }
}

/// The sanitized arguments: dictionaries dropped, the rest sanitized.
pub open spec fn sanitize_args(args: Seq<IRExprV>) -> Seq<IRExprV>
    decreases args, 1nat,
{
    if args.len() == 0 {
        seq![]
    } else {
        proof {
            assert(decreases_to!(args => args[args.len() - 1]));
        }
        let rest = sanitize_args(args.drop_last());
        if typeclass_arg(args.last()) {
            rest
        } else {
            rest.push(sanitize(args.last()))
        }
    }
}

/// The sanitized expression: noise descriptions become `True`, a method
/// application collapses to `True` or its single remaining argument, and
/// dictionary arguments are dropped from every application.
pub open spec fn sanitize(e: IRExprV) -> IRExprV
    decreases e, 0nat,
{
    match e {
        IRExprV::Unsupported(d) => if noise_desc(d) { IRExprV::True } else { e },
        IRExprV::App(n, args) => {
            let kept = sanitize_args(args);
            if method_name(n) && kept.len() == 0 {
                IRExprV::True
            } else if method_name(n) && kept.len() == 1 {
                kept[0]
            } else {
                IRExprV::App(n, kept)
            }
        },
        IRExprV::And(l, r) => IRExprV::And(Box::new(sanitize(*l)), Box::new(sanitize(*r))),
        IRExprV::Or(l, r) => IRExprV::Or(Box::new(sanitize(*l)), Box::new(sanitize(*r))),
        IRExprV::Not(b) => IRExprV::Not(Box::new(sanitize(*b))),
        IRExprV::Implies(l, r) => IRExprV::Implies(Box::new(sanitize(*l)), Box::new(sanitize(*r))),
        IRExprV::Iff(l, r) => IRExprV::Iff(Box::new(sanitize(*l)), Box::new(sanitize(*r))),
        IRExprV::Forall(v, s, b) => IRExprV::Forall(v, s, Box::new(sanitize(*b))),
        IRExprV::Exists(v, s, b) => IRExprV::Exists(v, s, Box::new(sanitize(*b))),
        IRExprV::Eq(l, r) => IRExprV::Eq(Box::new(sanitize(*l)), Box::new(sanitize(*r))),
        IRExprV::Neq(l, r) => IRExprV::Neq(Box::new(sanitize(*l)), Box::new(sanitize(*r))),
        IRExprV::Leq(l, r) => IRExprV::Leq(Box::new(sanitize(*l)), Box::new(sanitize(*r))),
        IRExprV::Lt(l, r) => IRExprV::Lt(Box::new(sanitize(*l)), Box::new(sanitize(*r))),
        IRExprV::Mem(l, r) => IRExprV::Mem(Box::new(sanitize(*l)), Box::new(sanitize(*r))),
        _ => e,
    }
}

fn sanitize_arg_list(args: &Vec<IRExpr>) -> (r: Vec<IRExpr>)
    ensures
        exprs_view(r@) == sanitize_args(exprs_view(args@)),
    decreases args, 1nat,
{
    let ghost av = exprs_view(args@);
    let mut out: Vec<IRExpr> = Vec::new();
    let mut i: usize = 0;
    while i < args.len()
        invariant
            i <= args@.len(),
            av == exprs_view(args@),
            exprs_view(out@) == sanitize_args(av.subrange(0, i as int)),
        decreases args.len() - i,
    {
        proof {
            assert(decreases_to!(args => args[i as int]));
            assert(av.subrange(0, i + 1).drop_last() =~= av.subrange(0, i as int));
            assert(av.subrange(0, i + 1).last() == av[i as int]);
            assert(av[i as int] == args@[i as int]@);
        }
        if !is_typeclass_arg(&args[i]) {
            let ghost before = out@;
            out.push(sanitize_expr(&args[i]));
            proof {
                assert(exprs_view(out@) =~= exprs_view(before).push(sanitize(av[i as int])));
            }
        }
        i = i + 1;
    }
    proof {
        assert(av.subrange(0, i as int) =~= av);
    }
    out
}

/// The sanitized expression (see [`sanitize`]): unsupported nodes that are
/// type-class plumbing become `True`; a type-class method application
/// becomes `True` when no real argument remains, its one real argument
/// when one remains, and otherwise keeps its real arguments; every other
/// application drops its dictionary arguments; the rest is rebuilt
/// recursively.
pub fn sanitize_expr(expr: &IRExpr) -> (r: IRExpr)
    ensures
        r@ == sanitize(expr@),
    decreases expr, 0nat,
{
    match expr {
        IRExpr::Unsupported { description } => {
            if is_typeclass_noise_desc(description.as_str()) {
                IRExpr::True
            } else {
                IRExpr::Unsupported { description: description.clone() }
            }
        },
        IRExpr::App { fn_name, args } => {
            let mut kept = sanitize_arg_list(args);
            if is_typeclass_method_name(fn_name.as_str()) && kept.len() == 0 {
                IRExpr::True
            } else if is_typeclass_method_name(fn_name.as_str()) && kept.len() == 1 {
                let x = kept.pop().unwrap();
                proof {
                    
                }
                x
            } else {
                IRExpr::App { fn_name: fn_name.clone(), args: kept }
            }
        },
        IRExpr::And { left, right } => IRExpr::And {
            left: Box::new(sanitize_expr(left)),
            right: Box::new(sanitize_expr(right)),
        },
        IRExpr::Or { left, right } => IRExpr::Or {
            left: Box::new(sanitize_expr(left)),
            right: Box::new(sanitize_expr(right)),
        },
        IRExpr::Not { body } => IRExpr::Not { body: Box::new(sanitize_expr(body)) },
        IRExpr::Implies { left, right } => IRExpr::Implies {
            left: Box::new(sanitize_expr(left)),
            right: Box::new(sanitize_expr(right)),
        },
        IRExpr::Iff { left, right } => IRExpr::Iff {
            left: Box::new(sanitize_expr(left)),
            right: Box::new(sanitize_expr(right)),
        },
        IRExpr::Forall { var, sort, body } => IRExpr::Forall {
            var: var.clone(),
            sort: sort.clone(),
            body: Box::new(sanitize_expr(body)),
        },
        IRExpr::Exists { var, sort, body } => IRExpr::Exists {
            var: var.clone(),
            sort: sort.clone(),
            body: Box::new(sanitize_expr(body)),
        },
        IRExpr::Eq { left, right } => IRExpr::Eq {
            left: Box::new(sanitize_expr(left)),
            right: Box::new(sanitize_expr(right)),
        },
        IRExpr::Neq { left, right } => IRExpr::Neq {
            left: Box::new(sanitize_expr(left)),
            right: Box::new(sanitize_expr(right)),
        },
        IRExpr::Leq { left, right } => IRExpr::Leq {
            left: Box::new(sanitize_expr(left)),
            right: Box::new(sanitize_expr(right)),
        },
        IRExpr::Lt { left, right } => IRExpr::Lt {
            left: Box::new(sanitize_expr(left)),
            right: Box::new(sanitize_expr(right)),
        },
        IRExpr::Mem { element, collection } => IRExpr::Mem {
            element: Box::new(sanitize_expr(element)),
            collection: Box::new(sanitize_expr(collection)),
        },
        IRExpr::Var { name } => IRExpr::Var { name: name.clone() },
        IRExpr::NatLit { value } => IRExpr::NatLit { value: *value },
        IRExpr::True => IRExpr::True,
        IRExpr::False => IRExpr::False,
    }
}

/// Abstract value of a binder: name and sort.
pub open spec fn params_view(ps: Seq<IRParam>) -> Seq<(Seq<char>, Seq<char>)> {
    ps.map_values(|p: IRParam| (p.name@, p.sort@))
}

/// A copy of a binder list.
pub fn copy_params(ps: &Vec<IRParam>) -> (r: Vec<IRParam>)
    ensures
        params_view(r@) == params_view(ps@),
{
    let mut out: Vec<IRParam> = Vec::new();
    let mut i: usize = 0;
    while i < ps.len()
        invariant
            i <= ps@.len(),
            out@.len() == i,
            forall|k: int| 0 <= k < i ==> (#[trigger] out@[k]).name@ == ps@[k].name@ && out@[k].sort@ == ps@[k].sort@,
        decreases ps.len() - i,
    {
        out.push(IRParam { name: ps[i].name.clone(), sort: ps[i].sort.clone() });
        i = i + 1;
    }
    assert(params_view(out@) =~= params_view(ps@));
    out
}

/// The equation with both sides sanitized and the same binders.
pub fn sanitize_equation(eq: &IREquation) -> (r: IREquation)
    ensures
        params_view(r.vars@) == params_view(eq.vars@),
        r.lhs@ == sanitize(eq.lhs@),
        r.rhs@ == sanitize(eq.rhs@),
{
    IREquation { vars: copy_params(&eq.vars), lhs: sanitize_expr(&eq.lhs), rhs: sanitize_expr(&eq.rhs) }
}

/// Some node of the expression is unsupported.
pub open spec fn has_unsupported(e: IRExprV) -> bool
    decreases e, 0nat,
{
    match e {
        IRExprV::Unsupported(_) => true,
        IRExprV::App(_, args) => args_have_unsupported(args),
        IRExprV::Forall(_, _, b) | IRExprV::Exists(_, _, b) | IRExprV::Not(b) => has_unsupported(*b),
        IRExprV::And(l, r) | IRExprV::Or(l, r) | IRExprV::Implies(l, r) | IRExprV::Iff(l, r)
        | IRExprV::Eq(l, r) | IRExprV::Neq(l, r) | IRExprV::Leq(l, r) | IRExprV::Lt(l, r)
        | IRExprV::Mem(l, r) => has_unsupported(*l) || has_unsupported(*r),
        _ => false,
    }
}

/// Some argument has an unsupported node.
pub open spec fn args_have_unsupported(args: Seq<IRExprV>) -> bool
    decreases args, 1nat,
{
    if args.len() == 0 {
        false
    } else {
        proof {
            assert(decreases_to!(args => args[args.len() - 1]));
        }
        args_have_unsupported(args.drop_last()) || has_unsupported(args.last())
    }
}

pub(crate) fn contains_unsupported(e: &IRExpr) -> (r: bool)
    ensures
        r == has_unsupported(e@),
    decreases e, 0nat,
{
    match e {
        IRExpr::Unsupported { .. } => true,
        IRExpr::App { args, .. } => any_unsupported(args),
        IRExpr::Forall { body, .. } | IRExpr::Exists { body, .. } | IRExpr::Not { body } => contains_unsupported(body),
        IRExpr::And { left, right } | IRExpr::Or { left, right } | IRExpr::Implies { left, right }
        | IRExpr::Iff { left, right } | IRExpr::Eq { left, right } | IRExpr::Neq { left, right }
        | IRExpr::Leq { left, right } | IRExpr::Lt { left, right } => contains_unsupported(left)
            || contains_unsupported(right),
        IRExpr::Mem { element, collection } => contains_unsupported(element) || contains_unsupported(collection),
        _ => false,
    }
}

fn any_unsupported(args: &Vec<IRExpr>) -> (r: bool)
    ensures
        r == args_have_unsupported(exprs_view(args@)),
    decreases args, 1nat,
{
    let ghost av = exprs_view(args@);
    let mut found = false;
    let mut i: usize = 0;
    while i < args.len()
        invariant
            i <= args@.len(),
            av == exprs_view(args@),
            found == args_have_unsupported(av.subrange(0, i as int)),
        decreases args.len() - i,
    {
        proof {
            assert(decreases_to!(args => args[i as int]));
            assert(av.subrange(0, i + 1).drop_last() =~= av.subrange(0, i as int));
            assert(av.subrange(0, i + 1).last() == av[i as int]);
        }
        let u = contains_unsupported(&args[i]);
        found = found || u;
        i = i + 1;
    }
    proof {
        assert(av.subrange(0, i as int) =~= av);
    }
    found
}

// ---------------------------------------------------------------------------
// Deduplication
// ---------------------------------------------------------------------------

/// Positions of the first occurrence of every distinct value, in order.
pub open spec fn first_occurrences(s: Seq<FormulaV>) -> Seq<int>
    decreases s.len(),
{
    if s.len() == 0 {
        seq![]
    } else if s.drop_last().contains(s.last()) {
        first_occurrences(s.drop_last())
    } else {
        first_occurrences(s.drop_last()).push(s.len() - 1)
    }
}

/// The values at the given positions.
pub open spec fn pick<T>(s: Seq<T>, idx: Seq<int>) -> Seq<T> {
    Seq::new(idx.len(), |k: int| s[idx[k]])
}

proof fn lemma_first_occurrences_bound(s: Seq<FormulaV>)
    ensures
        forall|k: int| 0 <= k < first_occurrences(s).len() ==> 0 <= #[trigger] first_occurrences(s)[k] < s.len(),
        first_occurrences(s).len() <= s.len(),
    decreases s.len(),
{
    if s.len() > 0 {
        lemma_first_occurrences_bound(s.drop_last());
    }
}

/// The axioms without repeats, each kept at its first occurrence.
pub fn deduplicate_axioms(axioms: Vec<Formula>) -> (r: Vec<Formula>)
    ensures
        formulas_view(r@) == pick(formulas_view(axioms@), first_occurrences(formulas_view(axioms@))),
{
    let mut origins: Vec<usize> = Vec::new();
    let mut i: usize = 0;
    while i < axioms.len()
        invariant
            i <= axioms@.len(),
            origins@.len() == i,
            forall|k: int| 0 <= k < i ==> origins@[k] == k,
        decreases axioms.len() - i,
    {
        origins.push(i);
        i = i + 1;
    }
    let (out, _) = dedup_with(axioms, origins);
    out
}

/// The axioms without repeats, each kept at its first occurrence, with
/// the origin of that occurrence.
pub fn deduplicate_axioms_with_origins(axioms: Vec<Formula>, origins: Vec<AxiomOrigin>) -> (r: (
    Vec<Formula>,
    Vec<AxiomOrigin>,
))
    requires
        axioms@.len() == origins@.len(),
    ensures
        formulas_view(r.0@) == pick(formulas_view(axioms@), first_occurrences(formulas_view(axioms@))),
        r.1@ == pick(origins@, first_occurrences(formulas_view(axioms@))),
{
    dedup_with(axioms, origins)
}

fn dedup_with<T>(axioms: Vec<Formula>, origins: Vec<T>) -> (r: (Vec<Formula>, Vec<T>))
    requires
        axioms@.len() == origins@.len(),
    ensures
        formulas_view(r.0@) == pick(formulas_view(axioms@), first_occurrences(formulas_view(axioms@))),
        r.1@ == pick(origins@, first_occurrences(formulas_view(axioms@))),
{
    let ghost fv = formulas_view(axioms@);
    let ghost ov = origins@;
    let mut out_a: Vec<Formula> = Vec::new();
    let mut out_o: Vec<T> = Vec::new();
    let mut rest_a = axioms;
    let mut rest_o = origins;
    // Walk from the front by reversing once.
    let mut rev_a: Vec<Formula> = Vec::new();
    let mut rev_o: Vec<T> = Vec::new();
    while rest_a.len() > 0
        invariant
            rest_a@.len() == rest_o@.len(),
            rest_a@.len() + rev_a@.len() == fv.len(),
            rev_a@.len() == rev_o@.len(),
            fv.len() == ov.len(),
            formulas_view(rest_a@) == fv.subrange(0, rest_a@.len() as int),
            rest_o@ == ov.subrange(0, rest_o@.len() as int),
            forall|k: int| 0 <= k < rev_a@.len() ==> (#[trigger] rev_a@[k])@ == fv[fv.len() - 1 - k],
            forall|k: int| 0 <= k < rev_o@.len() ==> #[trigger] rev_o@[k] == ov[ov.len() - 1 - k],
        decreases rest_a@.len(),
    {
        let ghost ra = rest_a@;
        let ghost ro = rest_o@;
        let a = rest_a.pop().unwrap();
        let o = rest_o.pop().unwrap();
        proof {
            assert(a@ == formulas_view(ra)[ra.len() - 1]);
            assert(formulas_view(rest_a@) =~= formulas_view(ra).drop_last());
        }
        rev_a.push(a);
        rev_o.push(o);
        proof {
            assert(formulas_view(rest_a@) =~= fv.subrange(0, rest_a@.len() as int));
            assert(rest_o@ =~= ov.subrange(0, rest_o@.len() as int));
        }
    }
    let n = rev_a.len();
    let mut i: usize = 0;
    while rev_a.len() > 0
        invariant
            n == fv.len(),
            fv.len() == ov.len(),
            rev_a@.len() == rev_o@.len(),
            i + rev_a@.len() == n,
            forall|k: int| 0 <= k < rev_a@.len() ==> (#[trigger] rev_a@[k])@ == fv[n - 1 - k],
            forall|k: int| 0 <= k < rev_o@.len() ==> #[trigger] rev_o@[k] == ov[n - 1 - k],
            formulas_view(out_a@) == pick(fv.subrange(0, i as int), first_occurrences(fv.subrange(0, i as int))),
            out_o@ == pick(ov.subrange(0, i as int), first_occurrences(fv.subrange(0, i as int))),
            forall|k: int| 0 <= k < out_a@.len() ==> fv.subrange(0, i as int).contains((#[trigger] out_a@[k])@),
            forall|x: FormulaV| fv.subrange(0, i as int).contains(x) ==> formulas_view(out_a@).contains(x),
        decreases rev_a@.len(),
    {
        let ghost ra = rev_a@;
        let ghost ro = rev_o@;
        let a = rev_a.pop().unwrap();
        let o = rev_o.pop().unwrap();
        proof {
            assert(a@ == fv[i as int]);
            assert(o == ov[i as int]);
            assert(forall|k: int| 0 <= k < rev_a@.len() ==> rev_a@[k] == ra[k]);
            assert(forall|k: int| 0 <= k < rev_o@.len() ==> rev_o@[k] == ro[k]);
        }
        let mut seen = false;
        let mut j: usize = 0;
        while j < out_a.len()
            invariant
                j <= out_a@.len(),
                seen <==> exists|w: int| 0 <= w < j && (#[trigger] out_a@[w])@ == a@,
            decreases out_a.len() - j,
        {
            if out_a[j].alpha_eq(&a) {
                seen = true;
            }
            j = j + 1;
        }
        let ghost pre = fv.subrange(0, i as int);
        let ghost post = fv.subrange(0, i + 1);
        proof {
            assert(post.drop_last() =~= pre);
            assert(post.last() == fv[i as int]);
            if seen {
                let w = choose|w: int| 0 <= w < out_a@.len() && (#[trigger] out_a@[w])@ == a@;
                assert(pre.contains(out_a@[w]@));
            } else {
                if pre.contains(a@) {
                    assert(formulas_view(out_a@).contains(a@));
                    let w = choose|w: int| 0 <= w < out_a@.len() && formulas_view(out_a@)[w] == a@;
                    assert(out_a@[w]@ == a@);
                }
            }
            assert(seen == pre.contains(a@));
            lemma_first_occurrences_bound(pre);
            lemma_first_occurrences_bound(post);
        }
        if !seen {
            let ghost ba = out_a@;
            let ghost bo = out_o@;
            out_a.push(a);
            out_o.push(o);
            proof {
                let fo = first_occurrences(post);
                assert(fo == first_occurrences(pre).push(i as int));
                assert(pick(pre, first_occurrences(pre)) =~= pick(post, first_occurrences(pre)));
                assert(formulas_view(ba) =~= pick(post, first_occurrences(pre)));
                assert(formulas_view(out_a@) =~= formulas_view(ba).push(a@));
                assert(pick(post, fo) =~= pick(post, first_occurrences(pre)).push(post[i as int]));
                assert(formulas_view(out_a@) =~= pick(post, fo));
                assert(pick(ov.subrange(0, i as int), first_occurrences(pre)) =~= pick(ov.subrange(0, i + 1), first_occurrences(pre)));
                assert(out_o@ =~= pick(ov.subrange(0, i + 1), fo));
                assert forall|k: int| 0 <= k < out_a@.len() implies post.contains((#[trigger] out_a@[k])@) by {
                    if k < ba.len() {
                        assert(pre.contains(ba[k]@));
                        let w = choose|w: int| 0 <= w < pre.len() && pre[w] == ba[k]@;
                        assert(post[w] == ba[k]@);
                    } else {
                        assert(post[i as int] == a@);
                    }
                }
                assert forall|x: FormulaV| post.contains(x) implies formulas_view(out_a@).contains(x) by {
                    let w = choose|w: int| 0 <= w < post.len() && post[w] == x;
                    if w < i {
                        assert(pre[w] == x);
                        assert(formulas_view(ba).contains(x));
                        let w2 = choose|w2: int| 0 <= w2 < ba.len() && formulas_view(ba)[w2] == x;
                        assert(formulas_view(out_a@)[w2] == x);
                    } else {
                        assert(formulas_view(out_a@)[ba.len() as int] == x);
                    }
                }
            }
        } else {
            proof {
                let fo = first_occurrences(post);
                assert(fo == first_occurrences(pre));
                assert(pick(post, fo) =~= pick(pre, fo));
                assert(pick(ov.subrange(0, i + 1), fo) =~= pick(ov.subrange(0, i as int), fo));
                assert forall|k: int| 0 <= k < out_a@.len() implies post.contains((#[trigger] out_a@[k])@) by {
                    assert(pre.contains(out_a@[k]@));
                    let w = choose|w: int| 0 <= w < pre.len() && pre[w] == out_a@[k]@;
                    assert(post[w] == out_a@[k]@);
                }
                assert forall|x: FormulaV| post.contains(x) implies formulas_view(out_a@).contains(x) by {
                    let w = choose|w: int| 0 <= w < post.len() && post[w] == x;
                    if w < i {
                        assert(pre[w] == x);
                    }
                }
            }
        }
        i = i + 1;
    }
    proof {
        assert(fv.subrange(0, i as int) =~= fv);
        assert(ov.subrange(0, i as int) =~= ov);
    }
    (out_a, out_o)
}

// ---------------------------------------------------------------------------
// Sort reachability
// ---------------------------------------------------------------------------

/// The set of names held by a list of strings.
pub open spec fn names_set(v: Seq<String>) -> Set<Seq<char>> {
    Set::new(|x: Seq<char>| exists|i: int| 0 <= i < v.len() && (#[trigger] v[i])@ == x)
}

/// No two strings of the list are equal.
pub open spec fn distinct_strings(v: Seq<String>) -> bool {
    forall|i: int, j: int| 0 <= i < j < v.len() ==> (#[trigger] v[i])@ != (#[trigger] v[j])@
}

/// Sorts mentioned by the function symbols of a term.
pub open spec fn term_sorts(t: TermV) -> Set<Seq<char>>
    decreases t, 0nat,
{
    match t {
        TermV::Var(_) => Set::empty(),
        TermV::App(f, args) => f.domain.to_set().insert(f.codomain).union(args_sorts(args)),
    }
}

/// Sorts mentioned by a list of terms.
pub open spec fn args_sorts(args: Seq<TermV>) -> Set<Seq<char>>
    decreases args, 1nat,
{
    if args.len() == 0 {
        Set::empty()
    } else {
        proof {
            assert(decreases_to!(args => args[args.len() - 1]));
        }
        args_sorts(args.drop_last()).union(term_sorts(args.last()))
    }
}

/// Sorts a formula mentions: quantifier sorts, relation arities and the
/// sorts of the function symbols of its terms.
pub open spec fn formula_sorts(f: FormulaV) -> Set<Seq<char>>
    decreases f,
{
    match f {
        FormulaV::Bot | FormulaV::Top => Set::empty(),
        FormulaV::Atom(r, args) | FormulaV::NegAtom(r, args) => r.arity.to_set().union(args_sorts(args)),
        FormulaV::Eq(a, b) | FormulaV::Neq(a, b) => term_sorts(a).union(term_sorts(b)),
        FormulaV::And(l, r) | FormulaV::Or(l, r) => formula_sorts(*l).union(formula_sorts(*r)),
        FormulaV::Forall(s, b) | FormulaV::Exists(s, b) => formula_sorts(*b).insert(s),
        FormulaV::Not(b) => formula_sorts(*b),
    }
}

/// Sorts mentioned by a list of formulas.
pub open spec fn axioms_sorts(fs: Seq<FormulaV>) -> Set<Seq<char>>
    decreases fs.len(),
{
    if fs.len() == 0 {
        Set::empty()
    } else {
        axioms_sorts(fs.drop_last()).union(formula_sorts(fs.last()))
    }
}

/// The sorts of a function symbol.
pub open spec fn fn_sorts(f: FunSym) -> Set<Seq<char>> {
    f.domain.to_set().insert(f.codomain)
}

/// A function symbol mentions a sort of `r`.
pub open spec fn touches(f: FunSym, r: Set<Seq<char>>) -> bool {
    r.contains(f.codomain) || exists|i: int| 0 <= i < f.domain.len() && r.contains(#[trigger] f.domain[i])
}

/// Every function touching `r` has all its sorts in `r`.
pub open spec fn closed_under(fs: Seq<FunSym>, r: Set<Seq<char>>) -> bool {
    forall|k: int| 0 <= k < fs.len() && touches(#[trigger] fs[k], r) ==> fn_sorts(fs[k]).subset_of(r)
}

/// `r` lies inside every closed set that contains `r0`.
pub open spec fn below_closed(fs: Seq<FunSym>, r0: Set<Seq<char>>, r: Set<Seq<char>>) -> bool {
    forall|s: Set<Seq<char>>| #[trigger] closed_under(fs, s) && r0.subset_of(s) ==> r.subset_of(s)
}

/// `r` is the least closed set containing `r0`.
pub open spec fn least_closed(fs: Seq<FunSym>, r0: Set<Seq<char>>, r: Set<Seq<char>>) -> bool {
    &&& r0.subset_of(r)
    &&& closed_under(fs, r)
    &&& below_closed(fs, r0, r)
}

pub(crate) fn has_name(v: &Vec<String>, name: &str) -> (r: bool)
    ensures
        r == names_set(v@).contains(name@),
{
    let mut i: usize = 0;
    while i < v.len()
        invariant
            i <= v@.len(),
            forall|j: int| 0 <= j < i ==> (#[trigger] v@[j])@ != name@,
        decreases v.len() - i,
    {
        if str_eq(v[i].as_str(), name) {
            assert(v@[i as int]@ == name@);
            return true;
        }
        i = i + 1;
    }
    false
}

pub(crate) fn add_name(v: &mut Vec<String>, name: &str) -> (added: bool)
    requires
        distinct_strings(old(v)@),
    ensures
        distinct_strings(final(v)@),
        names_set(final(v)@) == names_set(old(v)@).insert(name@),
        added == !names_set(old(v)@).contains(name@),
        final(v)@.len() == old(v)@.len() + if added { 1int } else { 0int },
{
    if has_name(v, name) {
        assert(names_set(v@) =~= names_set(v@).insert(name@));
        false
    } else {
        let ghost before = v@;
        v.push(String::from_str(name));
        proof {
            assert(v@[before.len() as int]@ == name@);
            assert forall|x: Seq<char>| names_set(v@).contains(x) <==> names_set(before).insert(name@).contains(x) by {
                if names_set(v@).contains(x) {
                    let i = choose|i: int| 0 <= i < v@.len() && (#[trigger] v@[i])@ == x;
                    if i < before.len() {
                        assert(before[i]@ == x);
                    }
                }
                if names_set(before).contains(x) {
                    let i = choose|i: int| 0 <= i < before.len() && (#[trigger] before[i])@ == x;
                    assert(v@[i]@ == x);
                }
            }
            assert(names_set(v@) =~= names_set(before).insert(name@));
            assert forall|i: int, j: int| 0 <= i < j < v@.len() implies (#[trigger] v@[i])@ != (#[trigger] v@[j])@ by {
                if j == before.len() {
                    assert(before[i]@ == v@[i]@);
                    if v@[i]@ == name@ {
                        assert(names_set(before).contains(name@));
                    }
                } else {
                    assert(before[i] == v@[i] && before[j] == v@[j]);
                }
            }
        }
        true
    }
}

pub(crate) fn add_sort_names(v: &mut Vec<String>, sorts: &Vec<SortSymbol>)
    requires
        distinct_strings(old(v)@),
    ensures
        distinct_strings(final(v)@),
        names_set(final(v)@) == names_set(old(v)@).union(sort_names(sorts@).to_set()),
{
    let mut i: usize = 0;
    while i < sorts.len()
        invariant
            i <= sorts@.len(),
            distinct_strings(v@),
            names_set(v@) == names_set(old(v)@).union(sort_names(sorts@.subrange(0, i as int)).to_set()),
        decreases sorts.len() - i,
    {
        let ghost b = names_set(v@);
        add_name(v, sorts[i].name.as_str());
        proof {
            assert(sort_names(sorts@.subrange(0, i + 1)) =~= sort_names(sorts@.subrange(0, i as int)).push(sorts@[i as int].name@));
            sort_names(sorts@.subrange(0, i as int)).lemma_push_to_set_commute(sorts@[i as int].name@);
            assert(names_set(v@) =~= names_set(old(v)@).union(sort_names(sorts@.subrange(0, i + 1)).to_set()));
        }
        i = i + 1;
    }
    proof {
        assert(sorts@.subrange(0, i as int) =~= sorts@);
    }
}

fn collect_term_sorts(t: &Term, v: &mut Vec<String>)
    requires
        distinct_strings(old(v)@),
    ensures
        distinct_strings(final(v)@),
        names_set(final(v)@) == names_set(old(v)@).union(term_sorts(t@)),
    decreases t, 0nat,
{
    match t {
        Term::Var(_) => {
            assert(names_set(v@) =~= names_set(v@).union(Set::empty()));
        },
        Term::App { function, args } => {
            add_sort_names(v, &function.domain);
            add_name(v, function.codomain.name.as_str());
            collect_args_sorts(args, v);
            proof {
                assert(function@.domain == sort_names(function.domain@));
                assert(names_set(v@) =~= names_set(old(v)@).union(term_sorts(t@)));
            }
        },
    }
}

fn collect_args_sorts(ts: &Vec<Term>, v: &mut Vec<String>)
    requires
        distinct_strings(old(v)@),
    ensures
        distinct_strings(final(v)@),
        names_set(final(v)@) == names_set(old(v)@).union(args_sorts(crate::formula::terms_view(ts@))),
    decreases ts, 1nat,
{
    let ghost tv = crate::formula::terms_view(ts@);
    let mut i: usize = 0;
    while i < ts.len()
        invariant
            i <= ts@.len(),
            tv == crate::formula::terms_view(ts@),
            distinct_strings(v@),
            names_set(v@) == names_set(old(v)@).union(args_sorts(tv.subrange(0, i as int))),
        decreases ts.len() - i,
    {
        proof {
            assert(decreases_to!(ts => ts[i as int]));
            assert(tv.subrange(0, i + 1).drop_last() =~= tv.subrange(0, i as int));
            assert(tv.subrange(0, i + 1).last() == ts@[i as int]@);
        }
        collect_term_sorts(&ts[i], v);
        proof {
            assert(names_set(v@) =~= names_set(old(v)@).union(args_sorts(tv.subrange(0, i + 1))));
        }
        i = i + 1;
    }
    proof {
        assert(tv.subrange(0, i as int) =~= tv);
    }
}

fn collect_formula_sorts(f: &Formula, v: &mut Vec<String>)
    requires
        distinct_strings(old(v)@),
    ensures
        distinct_strings(final(v)@),
        names_set(final(v)@) == names_set(old(v)@).union(formula_sorts(f@)),
    decreases f,
{
    match f {
        Formula::Bot | Formula::Top => {
            assert(names_set(v@) =~= names_set(v@).union(Set::empty()));
        },
        Formula::Atom { relation, args } | Formula::NegAtom { relation, args } => {
            add_sort_names(v, &relation.arity);
            collect_args_sorts(args, v);
            proof {
                assert(names_set(v@) =~= names_set(old(v)@).union(formula_sorts(f@)));
            }
        },
        Formula::Eq(a, b) | Formula::Neq(a, b) => {
            collect_term_sorts(a, v);
            collect_term_sorts(b, v);
            proof {
                assert(names_set(v@) =~= names_set(old(v)@).union(formula_sorts(f@)));
            }
        },
        Formula::And(l, r) | Formula::Or(l, r) => {
            collect_formula_sorts(l, v);
            collect_formula_sorts(r, v);
            proof {
                assert(names_set(v@) =~= names_set(old(v)@).union(formula_sorts(f@)));
            }
        },
        Formula::Forall { sort, body } | Formula::Exists { sort, body } => {
            add_name(v, sort.name.as_str());
            collect_formula_sorts(body, v);
            proof {
                assert(names_set(v@) =~= names_set(old(v)@).union(formula_sorts(f@)));
            }
        },
        Formula::Not(inner) => {
            collect_formula_sorts(inner, v);
        },
    }
}

/// The sorts of every function symbol, in order.
pub open spec fn all_fn_sorts(fs: Seq<FunSym>) -> Seq<Seq<char>>
    decreases fs.len(),
{
    if fs.len() == 0 {
        seq![]
    } else {
        all_fn_sorts(fs.drop_last()) + fs.last().domain.push(fs.last().codomain)
    }
}

proof fn lemma_all_fn_sorts(fs: Seq<FunSym>, k: int, x: Seq<char>)
    requires
        0 <= k < fs.len(),
        fn_sorts(fs[k]).contains(x),
    ensures
        all_fn_sorts(fs).contains(x),
    decreases fs.len(),
{
    let last = fs.last().domain.push(fs.last().codomain);
    if k == fs.len() - 1 {
        let f = fs[k];
        if x == f.codomain {
            assert((all_fn_sorts(fs.drop_last()) + last)[(all_fn_sorts(fs.drop_last()).len() + f.domain.len()) as int] == x);
        } else {
            assert(f.domain.contains(x));
            let i = choose|i: int| 0 <= i < f.domain.len() && f.domain[i] == x;
            assert((all_fn_sorts(fs.drop_last()) + last)[all_fn_sorts(fs.drop_last()).len() + i] == x);
        }
    } else {
        assert(fs.drop_last()[k] == fs[k]);
        lemma_all_fn_sorts(fs.drop_last(), k, x);
        let w = choose|w: int| 0 <= w < all_fn_sorts(fs.drop_last()).len() && all_fn_sorts(fs.drop_last())[w] == x;
        assert((all_fn_sorts(fs.drop_last()) + last)[w] == x);
    }
}

/// Number of entries of `u` outside `r`.
pub open spec fn missing(u: Seq<Seq<char>>, r: Set<Seq<char>>) -> nat
    decreases u.len(),
{
    if u.len() == 0 {
        0
    } else {
        missing(u.drop_last(), r) + if r.contains(u.last()) { 0nat } else { 1nat }
    }
}

proof fn lemma_missing_mono(u: Seq<Seq<char>>, r: Set<Seq<char>>, r2: Set<Seq<char>>)
    requires
        r.subset_of(r2),
    ensures
        missing(u, r2) <= missing(u, r),
    decreases u.len(),
{
    if u.len() > 0 {
        lemma_missing_mono(u.drop_last(), r, r2);
    }
}

proof fn lemma_missing_strict(u: Seq<Seq<char>>, r: Set<Seq<char>>, r2: Set<Seq<char>>, x: Seq<char>)
    requires
        r.subset_of(r2),
        u.contains(x),
        r2.contains(x),
        !r.contains(x),
    ensures
        missing(u, r2) < missing(u, r),
    decreases u.len(),
{
    if u.last() == x {
        lemma_missing_mono(u.drop_last(), r, r2);
    } else {
        let w = choose|w: int| 0 <= w < u.len() && u[w] == x;
        assert(u.drop_last()[w] == x);
        lemma_missing_strict(u.drop_last(), r, r2, x);
    }
}

fn fn_touches(f: &FunctionSymbol, v: &Vec<String>) -> (r: bool)
    ensures
        r == touches(f@, names_set(v@)),
{
    if has_name(v, f.codomain.name.as_str()) {
        return true;
    }
    let mut i: usize = 0;
    while i < f.domain.len()
        invariant
            i <= f.domain@.len(),
            forall|j: int| 0 <= j < i ==> !names_set(v@).contains(#[trigger] f@.domain[j]),
        decreases f.domain.len() - i,
    {
        if has_name(v, f.domain[i].name.as_str()) {
            assert(f@.domain[i as int] == f.domain@[i as int].name@);
            return true;
        }
        assert(f@.domain[i as int] == f.domain@[i as int].name@);
        i = i + 1;
    }
    false
}

fn all_names_in(sorts: &Vec<SortSymbol>, v: &Vec<String>) -> (r: bool)
    ensures
        r == forall|i: int| 0 <= i < sorts@.len() ==> names_set(v@).contains(#[trigger] sort_names(sorts@)[i]),
{
    let mut i: usize = 0;
    while i < sorts.len()
        invariant
            i <= sorts@.len(),
            forall|j: int| 0 <= j < i ==> names_set(v@).contains(#[trigger] sort_names(sorts@)[j]),
        decreases sorts.len() - i,
    {
        if !has_name(v, sorts[i].name.as_str()) {
            assert(sort_names(sorts@)[i as int] == sorts@[i as int].name@);
            return false;
        }
        i = i + 1;
    }
    true
}

/// Make `v` the least set of names containing it that is closed under the
/// function symbols.
fn close_sorts(fns: &Vec<FunctionSymbol>, v: &mut Vec<String>)
    requires
        distinct_strings(old(v)@),
    ensures
        distinct_strings(final(v)@),
        least_closed(fun_views(fns@), names_set(old(v)@), names_set(final(v)@)),
{
    let ghost fs = fun_views(fns@);
    let ghost r0 = names_set(v@);
    let ghost u = all_fn_sorts(fs);
    proof {
        assert forall|st: Set<Seq<char>>| #[trigger] closed_under(fs, st) && r0.subset_of(st) implies names_set(
            v@,
        ).subset_of(st) by {}
    }
    loop
        invariant
            fs == fun_views(fns@),
            u == all_fn_sorts(fs),
            distinct_strings(v@),
            r0.subset_of(names_set(v@)),
            below_closed(fs, r0, names_set(v@)),
        ensures
            distinct_strings(v@),
            r0.subset_of(names_set(v@)),
            below_closed(fs, r0, names_set(v@)),
            closed_under(fs, names_set(v@)),
        decreases missing(u, names_set(v@)),
    {
        let ghost start = names_set(v@);
        let mut grew = false;
        let mut k: usize = 0;
        while k < fns.len()
            invariant
                fs == fun_views(fns@),
                u == all_fn_sorts(fs),
                k <= fns@.len(),
                distinct_strings(v@),
                r0.subset_of(start),
                start.subset_of(names_set(v@)),
                below_closed(fs, r0, names_set(v@)),
                grew ==> missing(u, names_set(v@)) < missing(u, start),
                !grew ==> names_set(v@) == start,
                !grew ==> forall|j: int| 0 <= j < k && touches(#[trigger] fs[j], start) ==> fn_sorts(fs[j]).subset_of(start),
            decreases fns.len() - k,
        {
            let f = &fns[k];
            assert(fs[k as int] == f@);
            if fn_touches(f, v) {
                let dom_in = all_names_in(&f.domain, v);
                let cod_in = has_name(v, f.codomain.name.as_str());
                if dom_in && cod_in {
                    proof {
                        assert forall|x: Seq<char>| fn_sorts(f@).contains(x) implies names_set(v@).contains(x) by {
                            if x != f@.codomain {
                                let i = choose|i: int| 0 <= i < f@.domain.len() && f@.domain[i] == x;
                                assert(sort_names(f.domain@)[i] == x);
                            }
                        }
                    }
                } else {
                    let ghost before = names_set(v@);
                    let ghost bv = v@;
                    add_sort_names(v, &f.domain);
                    add_name(v, f.codomain.name.as_str());
                    proof {
                        assert(f@.domain == sort_names(f.domain@));
                        assert(names_set(v@) =~= before.union(fn_sorts(f@)));
                        let x = if !cod_in {
                            f@.codomain
                        } else {
                            let i = choose|i: int| 0 <= i < f.domain@.len() && !names_set(bv).contains(#[trigger] sort_names(f.domain@)[i]);
                            sort_names(f.domain@)[i]
                        };
                        assert(fn_sorts(f@).contains(x));
                        assert(!before.contains(x));
                        lemma_all_fn_sorts(fs, k as int, x);
                        lemma_missing_strict(u, start, names_set(v@), x);
                        lemma_missing_mono(u, before, names_set(v@));
                        assert forall|st: Set<Seq<char>>| #[trigger] closed_under(fs, st) && r0.subset_of(st) implies names_set(
                            v@,
                        ).subset_of(st) by {
                            assert(before.subset_of(st));
                            if before.contains(f@.codomain) {
                                assert(touches(fs[k as int], st));
                            } else {
                                let i = choose|i: int| 0 <= i < f@.domain.len() && before.contains(#[trigger] f@.domain[i]);
                                assert(st.contains(f@.domain[i]));
                                assert(touches(fs[k as int], st));
                            }
                        }
                    }
                    grew = true;
                }
            }
            k = k + 1;
        }
        if !grew {
            proof {
                assert forall|j: int| 0 <= j < fs.len() && touches(#[trigger] fs[j], names_set(v@)) implies fn_sorts(
                    fs[j],
                ).subset_of(names_set(v@)) by {}
            }
            break;
        }
    }
}

/// Function symbols whose sorts all lie in `r`.
pub open spec fn fn_kept(f: FunSym, r: Set<Seq<char>>) -> bool {
    r.contains(f.codomain) && forall|i: int| 0 <= i < f.domain.len() ==> r.contains(#[trigger] f.domain[i])
}

/// Relation symbols whose sorts all lie in `r`.
pub open spec fn rel_kept(g: RelSym, r: Set<Seq<char>>) -> bool {
    forall|i: int| 0 <= i < g.arity.len() ==> r.contains(#[trigger] g.arity[i])
}

/// `s` keeps exactly the sorts, functions and relations of `sig` that lie
/// in `r`.
pub open spec fn restricted_to(s: Signature, sig: Signature, r: Set<Seq<char>>) -> bool {
    &&& forall|x: Seq<char>| #[trigger] sort_names(s.sorts@).contains(x) <==> (sort_names(sig.sorts@).contains(x) && r.contains(x))
    &&& forall|g: FunSym| #[trigger] fun_views(s.functions@).contains(g) <==> (fun_views(sig.functions@).contains(g) && fn_kept(g, r))
    &&& forall|g: RelSym| #[trigger] rel_views(s.relations@).contains(g) <==> (rel_views(sig.relations@).contains(g) && rel_kept(g, r))
}

pub(crate) proof fn lemma_sort_names_same(x: Seq<SortSymbol>, y: Seq<SortSymbol>, e: Seq<char>)
    requires
        forall|t: SortSymbol| x.contains(t) <==> y.contains(t),
    ensures
        sort_names(x).contains(e) <==> sort_names(y).contains(e),
{
    if sort_names(x).contains(e) {
        let i = choose|i: int| 0 <= i < x.len() && sort_names(x)[i] == e;
        assert(y.contains(x[i]));
        let j = choose|j: int| 0 <= j < y.len() && y[j] == x[i];
        assert(sort_names(y)[j] == e);
    }
    if sort_names(y).contains(e) {
        let i = choose|i: int| 0 <= i < y.len() && sort_names(y)[i] == e;
        assert(x.contains(y[i]));
        let j = choose|j: int| 0 <= j < x.len() && x[j] == y[i];
        assert(sort_names(x)[j] == e);
    }
}

pub(crate) proof fn lemma_fun_views_same(x: Seq<FunctionSymbol>, y: Seq<FunctionSymbol>, e: FunSym)
    requires
        forall|t: FunctionSymbol| x.contains(t) <==> y.contains(t),
    ensures
        fun_views(x).contains(e) <==> fun_views(y).contains(e),
{
    if fun_views(x).contains(e) {
        let i = choose|i: int| 0 <= i < x.len() && fun_views(x)[i] == e;
        assert(y.contains(x[i]));
        let j = choose|j: int| 0 <= j < y.len() && y[j] == x[i];
        assert(fun_views(y)[j] == e);
    }
    if fun_views(y).contains(e) {
        let i = choose|i: int| 0 <= i < y.len() && fun_views(y)[i] == e;
        assert(x.contains(y[i]));
        let j = choose|j: int| 0 <= j < x.len() && x[j] == y[i];
        assert(fun_views(x)[j] == e);
    }
}

pub(crate) proof fn lemma_rel_views_same(x: Seq<RelationSymbol>, y: Seq<RelationSymbol>, e: RelSym)
    requires
        forall|t: RelationSymbol| x.contains(t) <==> y.contains(t),
    ensures
        rel_views(x).contains(e) <==> rel_views(y).contains(e),
{
    if rel_views(x).contains(e) {
        let i = choose|i: int| 0 <= i < x.len() && rel_views(x)[i] == e;
        assert(y.contains(x[i]));
        let j = choose|j: int| 0 <= j < y.len() && y[j] == x[i];
        assert(rel_views(y)[j] == e);
    }
    if rel_views(y).contains(e) {
        let i = choose|i: int| 0 <= i < y.len() && rel_views(y)[i] == e;
        assert(x.contains(y[i]));
        let j = choose|j: int| 0 <= j < x.len() && x[j] == y[i];
        assert(rel_views(x)[j] == e);
    }
}

pub(crate) proof fn lemma_push_contains<T>(s: Seq<T>, e: T, x: T)
    ensures
        s.push(e).contains(x) <==> (s.contains(x) || x == e),
{
    if s.push(e).contains(x) {
        let w = choose|w: int| 0 <= w < s.len() + 1 && s.push(e)[w] == x;
        if w < s.len() {
            assert(s[w] == x);
        }
    }
    if s.contains(x) {
        let w = choose|w: int| 0 <= w < s.len() && s[w] == x;
        assert(s.push(e)[w] == x);
    }
    if x == e {
        assert(s.push(e)[s.len() as int] == x);
    }
}

/// Drop the sorts the axioms do not reach, with the functions and
/// relations that mention them.  The reached sorts are the least set that
/// contains every sort the axioms mention (quantifier sorts, relation
/// arities, sorts of function symbols) and holds all sorts of any function
/// symbol that mentions one of its sorts.  When the axioms mention no sort,
/// the signature is returned as it is.
pub fn filter_signature(sig: &Signature, axioms: &[Formula]) -> (r: Result<Signature, SignatureError>)
    ensures
        sig.wf() ==> r is Ok,
        axioms_sorts(formulas_view(axioms@)) == Set::<Seq<char>>::empty() ==> (r matches Ok(s) && s.same_as(sig)),
        axioms_sorts(formulas_view(axioms@)) != Set::<Seq<char>>::empty() ==> exists|reach: Set<Seq<char>>|
            #[trigger] least_closed(fun_views(sig.functions@), axioms_sorts(formulas_view(axioms@)), reach) && (
            r matches Ok(s) ==> restricted_to(s, *sig, reach)),
{
    let ghost fv = formulas_view(axioms@);
    let mut reach: Vec<String> = Vec::new();
    let mut i: usize = 0;
    while i < axioms.len()
        invariant
            i <= axioms@.len(),
            fv == formulas_view(axioms@),
            distinct_strings(reach@),
            names_set(reach@) == axioms_sorts(fv.subrange(0, i as int)),
        decreases axioms.len() - i,
    {
        proof {
            assert(fv.subrange(0, i + 1).drop_last() =~= fv.subrange(0, i as int));
            assert(fv.subrange(0, i + 1).last() == axioms@[i as int]@);
        }
        collect_formula_sorts(&axioms[i], &mut reach);
        i = i + 1;
    }
    proof {
        assert(fv.subrange(0, i as int) =~= fv);
    }
    let ghost r0 = names_set(reach@);
    if reach.len() == 0 {
        proof {
            assert(names_set(reach@) =~= Set::<Seq<char>>::empty());
        }
        return Ok(sig.copy());
    }
    proof {
        assert(names_set(reach@).contains(reach@[0]@));
    }
    close_sorts(&sig.functions, &mut reach);
    let ghost rs = names_set(reach@);
    let mut sorts: Vec<SortSymbol> = Vec::new();
    let ghost mut six: Seq<int> = seq![];
    let mut i: usize = 0;
    while i < sig.sorts.len()
        invariant
            i <= sig.sorts@.len(),
            rs == names_set(reach@),
            index_map(six, keys(sorts@), keys(sig.sorts@), i as int),
            forall|x: Seq<char>| #[trigger] sort_names(sorts@).contains(x) <==> (sort_names(sig.sorts@.subrange(0, i as int)).contains(x) && rs.contains(x)),
        decreases sig.sorts.len() - i,
    {
        let ghost before = sorts@;
        if has_name(&reach, sig.sorts[i].name.as_str()) {
            sorts.push(sig.sorts[i].copy());
            proof {
                assert(sort_names(sorts@) =~= sort_names(before).push(sig.sorts@[i as int].name@));
                lemma_index_map_push(six, keys(before), keys(sig.sorts@), i as int, sorts@[sorts@.len() - 1].key());
                assert(keys(sorts@) =~= keys(before).push(sorts@[sorts@.len() - 1].key()));
                six = six.push(i as int);
            }
        }
        proof {
            assert(sort_names(sig.sorts@.subrange(0, i + 1)) =~= sort_names(sig.sorts@.subrange(0, i as int)).push(sig.sorts@[i as int].name@));
            assert forall|x: Seq<char>| #[trigger] sort_names(sorts@).contains(x) <==> (sort_names(sig.sorts@.subrange(0, i + 1)).contains(x) && rs.contains(x)) by {
                lemma_push_contains(sort_names(sig.sorts@.subrange(0, i as int)), sig.sorts@[i as int].name@, x);
                lemma_push_contains(sort_names(before), sig.sorts@[i as int].name@, x);
            }
        }
        i = i + 1;
    }
    proof {
        assert(sig.sorts@.subrange(0, i as int) =~= sig.sorts@);
    }
    let mut functions: Vec<FunctionSymbol> = Vec::new();
    let ghost mut fix: Seq<int> = seq![];
    let mut i: usize = 0;
    while i < sig.functions.len()
        invariant
            i <= sig.functions@.len(),
            rs == names_set(reach@),
            index_map(fix, keys(functions@), keys(sig.functions@), i as int),
            forall|g: FunSym| #[trigger] fun_views(functions@).contains(g) <==> (fun_views(sig.functions@.subrange(0, i as int)).contains(g) && fn_kept(g, rs)),
        decreases sig.functions.len() - i,
    {
        let f = &sig.functions[i];
        let ghost before = functions@;
        let keep = has_name(&reach, f.codomain.name.as_str()) && all_names_in(&f.domain, &reach);
        proof {
            assert(f@.domain == sort_names(f.domain@));
            assert(keep == fn_kept(f@, rs));
        }
        if keep {
            functions.push(f.copy());
            proof {
                assert(fun_views(functions@) =~= fun_views(before).push(f@));
                lemma_index_map_push(fix, keys(before), keys(sig.functions@), i as int, functions@[functions@.len() - 1].key());
                assert(keys(functions@) =~= keys(before).push(functions@[functions@.len() - 1].key()));
                fix = fix.push(i as int);
            }
        }
        proof {
            assert(fun_views(sig.functions@.subrange(0, i + 1)) =~= fun_views(sig.functions@.subrange(0, i as int)).push(f@));
            assert forall|g: FunSym| #[trigger] fun_views(functions@).contains(g) <==> (fun_views(sig.functions@.subrange(0, i + 1)).contains(g) && fn_kept(g, rs)) by {
                lemma_push_contains(fun_views(sig.functions@.subrange(0, i as int)), f@, g);
                lemma_push_contains(fun_views(before), f@, g);
            }
        }
        i = i + 1;
    }
    proof {
        assert(sig.functions@.subrange(0, i as int) =~= sig.functions@);
    }
    let mut relations: Vec<RelationSymbol> = Vec::new();
    let ghost mut rix: Seq<int> = seq![];
    let mut i: usize = 0;
    while i < sig.relations.len()
        invariant
            i <= sig.relations@.len(),
            rs == names_set(reach@),
            index_map(rix, keys(relations@), keys(sig.relations@), i as int),
            forall|g: RelSym| #[trigger] rel_views(relations@).contains(g) <==> (rel_views(sig.relations@.subrange(0, i as int)).contains(g) && rel_kept(g, rs)),
        decreases sig.relations.len() - i,
    {
        let g0 = &sig.relations[i];
        let ghost before = relations@;
        let keep = all_names_in(&g0.arity, &reach);
        proof {
            assert(g0@.arity == sort_names(g0.arity@));
            assert(keep == rel_kept(g0@, rs));
        }
        if keep {
            relations.push(g0.copy());
            proof {
                assert(rel_views(relations@) =~= rel_views(before).push(g0@));
                lemma_index_map_push(rix, keys(before), keys(sig.relations@), i as int, relations@[relations@.len() - 1].key());
                assert(keys(relations@) =~= keys(before).push(relations@[relations@.len() - 1].key()));
                rix = rix.push(i as int);
            }
        }
        proof {
            assert(rel_views(sig.relations@.subrange(0, i + 1)) =~= rel_views(sig.relations@.subrange(0, i as int)).push(g0@));
            assert forall|g: RelSym| #[trigger] rel_views(relations@).contains(g) <==> (rel_views(sig.relations@.subrange(0, i + 1)).contains(g) && rel_kept(g, rs)) by {
                lemma_push_contains(rel_views(sig.relations@.subrange(0, i as int)), g0@, g);
                lemma_push_contains(rel_views(before), g0@, g);
            }
        }
        i = i + 1;
    }
    proof {
        assert(sig.relations@.subrange(0, i as int) =~= sig.relations@);
    }
    let ghost ks = sorts@;
    let ghost kf = functions@;
    let ghost kr = relations@;
    proof {
        if sig.wf() {
            lemma_all_names_sub(sig.sorts@, sig.functions@, sig.relations@, ks, kf, kr, six, fix, rix);
            assert forall|a: int| 0 <= a < kf.len() implies crate::signature::all_declared(ks, crate::signature::fn_sort_refs(#[trigger] kf[a])) by {
                assert(fun_views(kf)[a] == kf[a]@);
                assert(fun_views(kf).contains(kf[a]@));
                let w = choose|w: int| 0 <= w < sig.functions@.len() && fun_views(sig.functions@)[w] == kf[a]@;
                let gw = sig.functions@[w];
                assert(crate::signature::all_declared(sig.sorts@, crate::signature::fn_sort_refs(gw)));
                assert(crate::signature::fn_sort_refs(gw) == crate::signature::fn_sort_refs(kf[a]));
                let refs = crate::signature::fn_sort_refs(kf[a]);
                assert(fn_kept(kf[a]@, rs));
                assert forall|q: int| 0 <= q < refs.len() implies crate::signature::declares_sort(ks, #[trigger] refs[q]) by {
                    let x = refs[q];
                    assert(crate::signature::declares_sort(sig.sorts@, x));
                    let z = choose|z: int| 0 <= z < sig.sorts@.len() && sig.sorts@[z].name@ == x;
                    assert(sort_names(sig.sorts@)[z] == x);
                    if q < refs.len() - 1 {
                        assert(kf[a]@.domain[q] == x);
                    }
                    assert(rs.contains(x));
                    assert(sort_names(ks).contains(x));
                    let y = choose|y: int| 0 <= y < ks.len() && sort_names(ks)[y] == x;
                    assert(ks[y].name@ == x);
                }
            }
            assert forall|a: int| 0 <= a < kr.len() implies crate::signature::all_declared(ks, sort_names(#[trigger] kr[a].arity@)) by {
                assert(rel_views(kr)[a] == kr[a]@);
                assert(rel_views(kr).contains(kr[a]@));
                let w = choose|w: int| 0 <= w < sig.relations@.len() && rel_views(sig.relations@)[w] == kr[a]@;
                let gw = sig.relations@[w];
                assert(crate::signature::all_declared(sig.sorts@, sort_names(gw.arity@)));
                let refs = sort_names(kr[a].arity@);
                assert(refs == gw@.arity);
                assert(rel_kept(kr[a]@, rs));
                assert forall|q: int| 0 <= q < refs.len() implies crate::signature::declares_sort(ks, #[trigger] refs[q]) by {
                    let x = refs[q];
                    assert(crate::signature::declares_sort(sig.sorts@, x));
                    let z = choose|z: int| 0 <= z < sig.sorts@.len() && sig.sorts@[z].name@ == x;
                    assert(sort_names(sig.sorts@)[z] == x);
                    assert(kr[a]@.arity[q] == x);
                    assert(rs.contains(x));
                    assert(sort_names(ks).contains(x));
                    let y = choose|y: int| 0 <= y < ks.len() && sort_names(ks)[y] == x;
                    assert(ks[y].name@ == x);
                }
            }
        }
    }
    let res = Signature::new(sorts, functions, relations);
    proof {
        assert(least_closed(fun_views(sig.functions@), axioms_sorts(fv), rs));
        if res is Ok {
            let s = res->Ok_0;
            assert forall|x: Seq<char>| #[trigger] sort_names(s.sorts@).contains(x) <==> (sort_names(sig.sorts@).contains(x) && rs.contains(x)) by {
                lemma_sort_names_same(s.sorts@, ks, x);
            }
            assert forall|g: FunSym| #[trigger] fun_views(s.functions@).contains(g) <==> (fun_views(sig.functions@).contains(g) && fn_kept(g, rs)) by {
                lemma_fun_views_same(s.functions@, kf, g);
            }
            assert forall|g: RelSym| #[trigger] rel_views(s.relations@).contains(g) <==> (rel_views(sig.relations@).contains(g) && rel_kept(g, rs)) by {
                lemma_rel_views_same(s.relations@, kr, g);
            }
            assert(restricted_to(s, *sig, rs));
        }
    }
    res
}

// ---------------------------------------------------------------------------
// The whole translation
// ---------------------------------------------------------------------------

/// What the sort filter removed.
#[derive(Debug, Clone)]
pub struct SortFilterReport {
    /// Number of sorts before filtering.
    pub original_sorts: usize,
    /// Number of sorts after filtering.
    pub filtered_sorts: usize,
    /// Names of the dropped sorts, in increasing order.
    pub removed: Vec<String>,
}

/// Result of translating an IR document.
#[derive(Debug)]
pub struct TranslationResult {
    /// The signature, after sort filtering.
    pub signature: Signature,
    /// The axioms, without repeats.
    pub axioms: Vec<Formula>,
    /// The origin of each axiom, position by position.
    pub axiom_origins: Vec<AxiomOrigin>,
    /// Theorems that translated.
    pub translated_theorems: Vec<String>,
    /// Theorems skipped, with the reason.
    pub skipped_theorems: Vec<(String, String)>,
    /// Predicates that gave at least one axiom.
    pub translated_predicates: Vec<String>,
    /// Predicates that gave none, with the reason.
    pub skipped_predicates: Vec<(String, String)>,
    /// Diagnostics: those of the IR, then those of the translation.
    pub warnings: Vec<String>,
    /// The sort filter's report.
    pub sort_filter: SortFilterReport,
}

/// Fatal translation errors.
#[derive(Debug)]
pub enum TranslationError {
    /// No theorem and no predicate gave an axiom.
    NothingTranslatable {
        /// Diagnostic.
        reason: String,
    },
    /// The collected symbols do not form a signature.
    SignatureError(SignatureError),
}

/// The translator.
pub struct LeanTranslator;

/// The state after declaring every sort, constructor, function and
/// predicate of `ir`.
pub open spec fn declared_state(ir: LeanIR) -> crate::translation::TrS {
    let st1 = crate::translation::TrS {
        sorts: crate::passes::pass1_sorts(ir),
        dfun: seq![],
        afun: seq![],
        drel: seq![],
        arel: seq![],
        arity: seq![],
    };
    crate::passes::preds_pass(
        crate::passes::fns_pass(crate::passes::ctors_pass(st1, ir.constructors@), ir.functions@),
        ir.predicates@,
    )
}

/// The predicate pass over the declared state.
pub open spec fn predicate_out(ir: LeanIR) -> crate::passes::PassOut {
    crate::passes::preds_axioms(declared_state(ir), ir.predicates@)
}

/// The theorem pass after the predicate pass.
pub open spec fn theorem_out(ir: LeanIR) -> crate::passes::PassOut {
    crate::passes::thms_axioms(predicate_out(ir).st, ir.theorems@)
}

/// Every axiom with its origin, predicates first, before removing repeats.
pub open spec fn raw_axioms(ir: LeanIR) -> Seq<(FormulaV, crate::passes::OriginV)> {
    predicate_out(ir).axioms + theorem_out(ir).axioms
}

/// The formulas of a list of axioms with origins.
pub open spec fn formulas_of(a: Seq<(FormulaV, crate::passes::OriginV)>) -> Seq<FormulaV> {
    a.map_values(|p: (FormulaV, crate::passes::OriginV)| p.0)
}

/// `raw` holds the final state's sorts, all its declared functions and
/// relations, and those declared on first use whose name is not declared.
pub open spec fn raw_signature(raw: Signature, st: crate::translation::TrS) -> bool {
    &&& forall|x: Seq<char>| #[trigger] sort_names(raw.sorts@).contains(x) <==> st.sorts.contains(x)
    &&& forall|g: FunSym| #[trigger] fun_views(raw.functions@).contains(g) <==> (st.dfun.contains(g) || (st.afun.contains(g)
        && crate::translation::fget(st.dfun, g.name) is None))
    &&& forall|g: RelSym| #[trigger] rel_views(raw.relations@).contains(g) <==> (st.drel.contains(g) || (st.arel.contains(g)
        && crate::translation::rget(st.drel, g.name) is None))
}

/// The symbols of `st` form a signature: some well-formed signature has
/// exactly its sorts and the functions and relations [`raw_signature`]
/// takes from it.
pub open spec fn symbols_form_signature(st: crate::translation::TrS) -> bool {
    exists|raw: Signature| #[trigger] raw_signature(raw, st) && raw.wf()
}

proof fn lemma_symbols_signature(
    st: crate::translation::TrS,
    ks: Seq<SortSymbol>,
    kf: Seq<FunctionSymbol>,
    kr: Seq<RelationSymbol>,
    raw: Signature,
)
    requires
        raw.wf(),
        raw_signature(raw, st),
        forall|x: Seq<char>| #[trigger] sort_names(ks).contains(x) <==> st.sorts.contains(x),
        forall|g: FunSym| #[trigger] fun_views(kf).contains(g) <==> (st.dfun.contains(g) || (st.afun.contains(g)
            && crate::translation::fget(st.dfun, g.name) is None)),
        forall|g: RelSym| #[trigger] rel_views(kr).contains(g) <==> (st.drel.contains(g) || (st.arel.contains(g)
            && crate::translation::rget(st.drel, g.name) is None)),
        crate::signature::no_repeats(keys(ks)),
        crate::signature::no_repeats(keys(kf)),
        crate::signature::no_repeats(keys(kr)),
    ensures
        crate::signature::no_repeats(crate::signature::all_names(ks, kf, kr)),
        crate::signature::functions_declared(ks, kf),
        crate::signature::relations_declared(ks, kr),
{
    let n = crate::signature::all_names(ks, kf, kr);
    let n2 = crate::signature::all_names(raw.sorts@, raw.functions@, raw.relations@);
    let a = ks.len() as int;
    let b = kf.len() as int;
    let a2 = raw.sorts@.len() as int;
    let b2 = raw.functions@.len() as int;
    assert forall|k: int| 0 <= k < n.len() implies !crate::signature::repeats_earlier(n, k) by {
        if crate::signature::repeats_earlier(n, k) {
            let j = choose|j: int| 0 <= j < k && n[j] == n[k];
            let x = n[k];
            // position of x in raw, for the part of n that j and k fall in
            if k < a {
                assert(keys(ks)[j] == n[j] && keys(ks)[k] == n[k]);
                assert(crate::signature::repeats_earlier(keys(ks), k));
            } else if k < a + b {
                let g = kf[k - a]@;
                assert(keys(kf)[k - a] == x && g.name == x);
                assert(fun_views(kf)[k - a] == g);
                assert(fun_views(kf).contains(g));
                assert(fun_views(raw.functions@).contains(g));
                let w = choose|w: int| 0 <= w < raw.functions@.len() && fun_views(raw.functions@)[w] == g;
                assert(n2[a2 + w] == x);
                if j < a {
                    assert(sort_names(ks)[j] == x);
                    assert(sort_names(ks).contains(x));
                    assert(sort_names(raw.sorts@).contains(x));
                    let z = choose|z: int| 0 <= z < raw.sorts@.len() && sort_names(raw.sorts@)[z] == x;
                    assert(n2[z] == x);
                    assert(crate::signature::repeats_earlier(n2, a2 + w));
                } else {
                    assert(keys(kf)[j - a] == n[j]);
                    assert(crate::signature::repeats_earlier(keys(kf), k - a));
                }
            } else {
                let g = kr[k - a - b]@;
                assert(keys(kr)[k - a - b] == x && g.name == x);
                assert(rel_views(kr)[k - a - b] == g);
                assert(rel_views(kr).contains(g));
                assert(rel_views(raw.relations@).contains(g));
                let w = choose|w: int| 0 <= w < raw.relations@.len() && rel_views(raw.relations@)[w] == g;
                assert(n2[a2 + b2 + w] == x);
                if j < a {
                    assert(sort_names(ks)[j] == x);
                    assert(sort_names(ks).contains(x));
                    assert(sort_names(raw.sorts@).contains(x));
                    let z = choose|z: int| 0 <= z < raw.sorts@.len() && sort_names(raw.sorts@)[z] == x;
                    assert(n2[z] == x);
                    assert(crate::signature::repeats_earlier(n2, a2 + b2 + w));
                } else if j < a + b {
                    let h = kf[j - a]@;
                    assert(keys(kf)[j - a] == x && h.name == x);
                    assert(fun_views(kf)[j - a] == h);
                    assert(fun_views(kf).contains(h));
                    assert(fun_views(raw.functions@).contains(h));
                    let v = choose|v: int| 0 <= v < raw.functions@.len() && fun_views(raw.functions@)[v] == h;
                    assert(n2[a2 + v] == x);
                    assert(crate::signature::repeats_earlier(n2, a2 + b2 + w));
                } else {
                    assert(keys(kr)[j - a - b] == n[j]);
                    assert(crate::signature::repeats_earlier(keys(kr), k - a - b));
                }
            }
        }
    }
    assert forall|i: int| 0 <= i < kf.len() implies crate::signature::all_declared(ks, crate::signature::fn_sort_refs(#[trigger] kf[i])) by {
        let g = kf[i]@;
        assert(fun_views(kf)[i] == g);
        assert(fun_views(kf).contains(g));
        assert(fun_views(raw.functions@).contains(g));
        let w = choose|w: int| 0 <= w < raw.functions@.len() && fun_views(raw.functions@)[w] == g;
        let gw = raw.functions@[w];
        assert(crate::signature::all_declared(raw.sorts@, crate::signature::fn_sort_refs(gw)));
        assert(crate::signature::fn_sort_refs(gw) == crate::signature::fn_sort_refs(kf[i]));
        let refs = crate::signature::fn_sort_refs(kf[i]);
        assert forall|q: int| 0 <= q < refs.len() implies crate::signature::declares_sort(ks, #[trigger] refs[q]) by {
            let x = refs[q];
            assert(crate::signature::declares_sort(raw.sorts@, x));
            let z = choose|z: int| 0 <= z < raw.sorts@.len() && raw.sorts@[z].name@ == x;
            assert(sort_names(raw.sorts@)[z] == x);
            assert(sort_names(raw.sorts@).contains(x));
            assert(sort_names(ks).contains(x));
            let y = choose|y: int| 0 <= y < ks.len() && sort_names(ks)[y] == x;
            assert(ks[y].name@ == x);
        }
    }
    assert forall|i: int| 0 <= i < kr.len() implies crate::signature::all_declared(ks, sort_names(#[trigger] kr[i].arity@)) by {
        let g = kr[i]@;
        assert(rel_views(kr)[i] == g);
        assert(rel_views(kr).contains(g));
        assert(rel_views(raw.relations@).contains(g));
        let w = choose|w: int| 0 <= w < raw.relations@.len() && rel_views(raw.relations@)[w] == g;
        let gw = raw.relations@[w];
        assert(crate::signature::all_declared(raw.sorts@, sort_names(gw.arity@)));
        let refs = sort_names(kr[i].arity@);
        assert(refs == gw@.arity);
        assert forall|q: int| 0 <= q < refs.len() implies crate::signature::declares_sort(ks, #[trigger] refs[q]) by {
            let x = refs[q];
            assert(crate::signature::declares_sort(raw.sorts@, x));
            let z = choose|z: int| 0 <= z < raw.sorts@.len() && raw.sorts@[z].name@ == x;
            assert(sort_names(raw.sorts@)[z] == x);
            assert(sort_names(raw.sorts@).contains(x));
            assert(sort_names(ks).contains(x));
            let y = choose|y: int| 0 <= y < ks.len() && sort_names(ks)[y] == x;
            assert(ks[y].name@ == x);
        }
    }
}

/// `s` is what [`filter_signature`] gives for `raw` and the axioms `fv`.
pub open spec fn filtered_from(s: Signature, raw: Signature, fv: Seq<FormulaV>) -> bool {
    &&& axioms_sorts(fv) == Set::<Seq<char>>::empty() ==> s.same_as(&raw)
    &&& axioms_sorts(fv) != Set::<Seq<char>>::empty() ==> exists|reach: Set<Seq<char>>|
        #[trigger] least_closed(fun_views(raw.functions@), axioms_sorts(fv), reach) && restricted_to(s, raw, reach)
}

impl LeanTranslator {
    /// Translate an IR document: declare the sorts (the built-ins and every
    /// non-noise sort the IR mentions), the constructors, functions and
    /// predicates; translate each predicate's equations (or, without any,
    /// its body) and each theorem; fail when no axiom comes out; remove
    /// repeated axioms; build the signature from the final state and keep
    /// the sorts the axioms reach.
    pub fn translate(ir: &LeanIR) -> (r: Result<TranslationResult, TranslationError>)
        ensures
            (r matches Err(TranslationError::NothingTranslatable { .. })) <==> raw_axioms(*ir).len() == 0,
            (r matches Err(TranslationError::SignatureError(_))) <==> (raw_axioms(*ir).len() > 0 && !symbols_form_signature(
                theorem_out(*ir).st,
            )),
            r is Ok <==> (raw_axioms(*ir).len() > 0 && symbols_form_signature(theorem_out(*ir).st)),
            r matches Ok(res) ==> {
                let fv = formulas_of(raw_axioms(*ir));
                let keep = first_occurrences(fv);
                &&& res.axioms@.len() == res.axiom_origins@.len()
                &&& crate::translation::warnings_kept(ir.warnings@, res.warnings@)
                &&& forall|k: int| 0 <= k < res.axioms@.len() ==> crate::formula::is_nnf((#[trigger] res.axioms@[k])@)
                &&& axioms_with_origins(res.axioms@, res.axiom_origins@) == pick(raw_axioms(*ir), keep)
                &&& crate::ir_types::strings_view(res.translated_theorems@) == theorem_out(*ir).translated
                &&& crate::passes::skipped_names(res.skipped_theorems@) == theorem_out(*ir).skipped
                &&& crate::ir_types::strings_view(res.translated_predicates@) == predicate_out(*ir).translated
                &&& crate::passes::skipped_names(res.skipped_predicates@) == predicate_out(*ir).skipped
                &&& exists|raw: Signature| #[trigger] raw_signature(raw, theorem_out(*ir).st) && filtered_from(
                    res.signature,
                    raw,
                    pick(fv, keep),
                ) && res.sort_filter.original_sorts == raw.sorts@.len()
                &&& res.sort_filter.filtered_sorts == res.signature.sorts@.len()
                &&& res.axioms@.len() > 20 ==> res.warnings@.len() > 0 && res.warnings@.last()@ == "large axiom set ("@
                    + crate::translation::decimal(res.axioms@.len() as nat) + " axioms); mutation generation may be slow"@
            },
    {
        let sorts = crate::passes::pass1(ir);
        let mut warnings0: Vec<String> = Vec::new();
        let mut w: usize = 0;
        while w < ir.warnings.len()
            invariant
                w <= ir.warnings@.len(),
                warnings0@.len() == w,
                forall|q: int| 0 <= q < w ==> (#[trigger] warnings0@[q])@ == ir.warnings@[q]@,
            decreases ir.warnings.len() - w,
        {
            warnings0.push(ir.warnings[w].clone());
            w = w + 1;
        }
        let ghost wi = warnings0@;
        let mut t = crate::translation::Translation::with_sorts(sorts, warnings0);
        crate::passes::declare(&mut t, ir);
        let (f4, o4, tp, sp) = crate::passes::predicates_pass(&mut t, &ir.predicates);
        let (f5, o5, tt, st) = crate::passes::theorems_pass(&mut t, &ir.theorems);
        let ghost a4 = axioms_with_origins(f4@, o4@);
        let ghost a5 = axioms_with_origins(f5@, o5@);
        if f4.len() == 0 && f5.len() == 0 {
            let a = crate::translation::decimal_string(st.len() as u64);
            let b = crate::translation::decimal_string(sp.len() as u64);
            let m = crate::ir_types::concat3("skipped ", a.as_str(), " theorems, ");
            let reason = crate::ir_types::concat3(m.as_str(), b.as_str(), " predicates; no axioms emitted");
            proof {
                assert(raw_axioms(*ir) =~= a4 + a5);
            }
            return Err(TranslationError::NothingTranslatable { reason });
        }
        let ghost g4 = f4@;
        let ghost g5 = f5@;
        let mut axioms = f4;
        let mut origins = o4;
        let mut f5m = f5;
        let mut o5m = o5;
        axioms.append(&mut f5m);
        origins.append(&mut o5m);
        proof {
            assert(axioms_with_origins(axioms@, origins@) =~= a4 + a5);
            assert(raw_axioms(*ir) =~= a4 + a5);
            assert(formulas_view(axioms@) =~= formulas_of(raw_axioms(*ir)));
        }
        proof {
            assert forall|k: int| 0 <= k < axioms@.len() implies crate::formula::is_nnf((#[trigger] axioms@[k])@) by {
                assert(axioms@ == g4 + g5);
                if k < g4.len() {
                    assert(axioms@[k] == g4[k]);
                } else {
                    assert(axioms@[k] == g5[k - g4.len()]);
                }
            }
        }
        let ghost before_dedup = origins@;
        let ghost ax_before = axioms@;
        let ghost fv_all = formulas_view(axioms@);
        let (axioms, origins) = dedup_with(axioms, origins);
        proof {
            let keep = first_occurrences(fv_all);
            lemma_first_occurrences_bound(fv_all);
            let ra = raw_axioms(*ir);
            assert(ra == axioms_with_origins(ax_before, before_dedup));
            assert(formulas_view(axioms@).len() == axioms@.len());
            assert(pick(fv_all, keep).len() == keep.len());
            assert(axioms@.len() == keep.len());
            assert forall|k: int| 0 <= k < keep.len() implies axioms_with_origins(axioms@, origins@)[k] == pick(ra, keep)[k] by {
                assert(0 <= keep[k] < fv_all.len());
                assert(formulas_view(axioms@)[k] == fv_all[keep[k]]);
                assert(axioms@[k]@ == formulas_view(axioms@)[k]);
                assert(origins@[k] == before_dedup[keep[k]]);
                assert(ra[keep[k]] == (ax_before[keep[k]]@, origin_view(before_dedup[keep[k]])));
            }
            assert(axioms_with_origins(axioms@, origins@) =~= pick(ra, keep));
            assert forall|k: int| 0 <= k < axioms@.len() implies crate::formula::is_nnf((#[trigger] axioms@[k])@) by {
                assert(formulas_view(axioms@)[k] == fv_all[keep[k]]);
                assert(fv_all[keep[k]] == ax_before[keep[k]]@);
            }
        }
        let (raw_sorts, raw_fns, raw_rels) = t.symbols();
        let ghost ks = raw_sorts@;
        let ghost kf = raw_fns@;
        let ghost kr = raw_rels@;
        let raw = match Signature::new(raw_sorts, raw_fns, raw_rels) {
            Ok(sig) => sig,
            Err(e) => {
                proof {
                    if symbols_form_signature(t@) {
                        let r2 = choose|r2: Signature| #[trigger] raw_signature(r2, t@) && r2.wf();
                        lemma_symbols_signature(t@, ks, kf, kr, r2);
                    }
                }
                return Err(TranslationError::SignatureError(e));
            },
        };
        proof {
            assert forall|x: Seq<char>| #[trigger] sort_names(raw.sorts@).contains(x) <==> sort_names(ks).contains(x) by {
                lemma_sort_names_same(raw.sorts@, ks, x);
            }
            assert forall|g: FunSym| #[trigger] fun_views(raw.functions@).contains(g) <==> fun_views(kf).contains(g) by {
                lemma_fun_views_same(raw.functions@, kf, g);
            }
            assert forall|g: RelSym| #[trigger] rel_views(raw.relations@).contains(g) <==> rel_views(kr).contains(g) by {
                lemma_rel_views_same(raw.relations@, kr, g);
            }
            assert(raw_signature(raw, t@));
            assert(symbols_form_signature(t@));
        }
        let signature = match filter_signature(&raw, axioms.as_slice()) {
            Ok(sig) => sig,
            Err(e) => {
                return Err(TranslationError::SignatureError(e));
            },
        };
        let mut dropped: Vec<SortSymbol> = Vec::new();
        let mut i: usize = 0;
        while i < raw.sorts.len()
            invariant
                i <= raw.sorts@.len(),
                raw.wf(),
                forall|a: int, b: int| 0 <= a < b < dropped@.len() ==> (#[trigger] dropped@[a]).name@ != (#[trigger] dropped@[b]).name@,
                forall|a: int| 0 <= a < dropped@.len() ==> exists|b: int| 0 <= b < i && (#[trigger] dropped@[a]).name@ == raw.sorts@[b].name@,
            decreases raw.sorts.len() - i,
        {
            if !has_sort_named(&signature.sorts, raw.sorts[i].name.as_str()) {
                let ghost db = dropped@;
                dropped.push(raw.sorts[i].copy());
                proof {
                    assert forall|a: int, b: int| 0 <= a < b < dropped@.len() implies (#[trigger] dropped@[a]).name@ != (#[trigger] dropped@[b]).name@ by {
                        if b == db.len() {
                            let c = choose|c: int| 0 <= c < i && db[a].name@ == raw.sorts@[c].name@;
                            crate::names::lemma_lex_order_antisym(raw.sorts@[c].name@, raw.sorts@[i as int].name@);
                            assert(crate::names::lex_lt(raw.sorts@[c].key(), raw.sorts@[i as int].key()));
                        } else {
                            assert(dropped@[a] == db[a] && dropped@[b] == db[b]);
                        }
                    }
                    assert forall|a: int| 0 <= a < dropped@.len() implies exists|b: int| 0 <= b < i + 1 && (#[trigger] dropped@[a]).name@ == raw.sorts@[b].name@ by {
                        if a < db.len() {
                            assert(dropped@[a] == db[a]);
                            let c = choose|c: int| 0 <= c < i && db[a].name@ == raw.sorts@[c].name@;
                        } else {
                            assert(dropped@[a].name@ == raw.sorts@[i as int].name@);
                        }
                    }
                }
            }
            i = i + 1;
        }
        let dropped = crate::signature::sort_by_key(dropped);
        let mut removed: Vec<String> = Vec::new();
        let mut k: usize = 0;
        while k < dropped.len()
            decreases dropped.len() - k,
        {
            removed.push(dropped[k].name.clone());
            k = k + 1;
        }
        let sort_filter = SortFilterReport {
            original_sorts: raw.sorts.len(),
            filtered_sorts: signature.sorts.len(),
            removed,
        };
        proof {
            assert(crate::translation::warnings_kept(wi, t.warnings@));
        }
        let mut warnings = t.into_warnings();
        if axioms.len() > 20 {
            let n = crate::translation::decimal_string(axioms.len() as u64);
            let m = concat3_owned("large axiom set (", n.as_str(), " axioms); mutation generation may be slow");
            warnings.push(m);
        }
        proof {
            assert(crate::ir_types::strings_view(tp@) == predicate_out(*ir).translated);
            assert(crate::passes::skipped_names(sp@) == predicate_out(*ir).skipped);
            assert(crate::ir_types::strings_view(tt@) == theorem_out(*ir).translated);
            assert(crate::passes::skipped_names(st@) == theorem_out(*ir).skipped);
            let fv = formulas_of(raw_axioms(*ir));
            let keep = first_occurrences(fv);
            assert(fv == fv_all);
            assert(formulas_view(axioms@) == pick(fv, keep));
            assert(filtered_from(signature, raw, pick(fv, keep)));
            assert(raw_signature(raw, theorem_out(*ir).st));
        }
        Ok(TranslationResult {
            signature,
            axioms,
            axiom_origins: origins,
            translated_theorems: tt,
            skipped_theorems: st,
            translated_predicates: tp,
            skipped_predicates: sp,
            warnings,
            sort_filter,
        })
    }
}

fn concat3_owned(a: &str, b: &str, c: &str) -> (r: String)
    ensures
        r@ == a@ + b@ + c@,
{
    crate::ir_types::concat3(a, b, c)
}

fn has_sort_named(v: &Vec<SortSymbol>, name: &str) -> (r: bool)
    ensures
        r == sort_names(v@).contains(name@),
{
    let mut i: usize = 0;
    while i < v.len()
        invariant
            i <= v@.len(),
            forall|j: int| 0 <= j < i ==> (#[trigger] v@[j]).name@ != name@,
        decreases v.len() - i,
    {
        if str_eq(v[i].name.as_str(), name) {
            assert(sort_names(v@)[i as int] == name@);
            return true;
        }
        i = i + 1;
    }
    false
}

} // verus!
