//! The expression and declaration translation of the Lean front end, as a
//! state machine: the state holds the sorts, the declared and
//! auto-declared function and relation symbols and the predicate arities;
//! every step is specified by a spec function from state and input to the
//! new state and the result (`None` for an input the translation rejects).
use vstd::prelude::*;
use crate::formula::{Formula, FormulaV, Term, TermV};
use crate::ir_types::{concat3, IRExpr, IRExprV};
use crate::names::{lemma_lex_lt_trans, lemma_lex_order_antisym, lemma_lex_order_zero_eq, lex_lt, str_eq, str_lt};
use crate::signature::{
    copy_sorts, fun_views, rel_views, sort_names, FunSym, FunctionSymbol, RelSym, RelationSymbol, SortSymbol,
};
use crate::translator::{distinct_strings, names_set};

verus! {

/// Abstract translation state.
pub struct TrS {
    /// Known sort names.
    pub sorts: Set<Seq<char>>,
    /// Declared function symbols (constructors and functions), by name.
    pub dfun: Seq<FunSym>,
    /// Function symbols declared on first use, by name.
    pub afun: Seq<FunSym>,
    /// Relation symbols of the predicates, by name.
    pub drel: Seq<RelSym>,
    /// Relation symbols declared on first use, by name.
    pub arel: Seq<RelSym>,
    /// Parameter sorts of each predicate, by name.
    pub arity: Seq<(Seq<char>, Seq<Seq<char>>)>,
}

// ---------------------------------------------------------------------------
// Keyed lists
// ---------------------------------------------------------------------------

/// No two function symbols share a name.
pub open spec fn funs_keyed(m: Seq<FunSym>) -> bool {
    forall|i: int, j: int| 0 <= i < j < m.len() ==> (#[trigger] m[i]).name != (#[trigger] m[j]).name
}

/// No two relation symbols share a name.
pub open spec fn rels_keyed(m: Seq<RelSym>) -> bool {
    forall|i: int, j: int| 0 <= i < j < m.len() ==> (#[trigger] m[i]).name != (#[trigger] m[j]).name
}

/// No two arity entries share a name.
pub open spec fn arity_keyed(m: Seq<(Seq<char>, Seq<Seq<char>>)>) -> bool {
    forall|i: int, j: int| 0 <= i < j < m.len() ==> (#[trigger] m[i]).0 != (#[trigger] m[j]).0
}

/// The function symbol named `k`.
pub open spec fn fget(m: Seq<FunSym>, k: Seq<char>) -> Option<FunSym> {
    if exists|i: int| 0 <= i < m.len() && (#[trigger] m[i]).name == k {
        Some(m[choose|i: int| 0 <= i < m.len() && (#[trigger] m[i]).name == k])
    } else {
        None
    }
}

/// `m` with `f` stored under its name.
pub open spec fn fput(m: Seq<FunSym>, f: FunSym) -> Seq<FunSym> {
    if exists|i: int| 0 <= i < m.len() && (#[trigger] m[i]).name == f.name {
        m.update(choose|i: int| 0 <= i < m.len() && (#[trigger] m[i]).name == f.name, f)
    } else {
        m.push(f)
    }
}

/// The relation symbol named `k`.
pub open spec fn rget(m: Seq<RelSym>, k: Seq<char>) -> Option<RelSym> {
    if exists|i: int| 0 <= i < m.len() && (#[trigger] m[i]).name == k {
        Some(m[choose|i: int| 0 <= i < m.len() && (#[trigger] m[i]).name == k])
    } else {
        None
    }
}

/// `m` with `g` stored under its name.
pub open spec fn rput(m: Seq<RelSym>, g: RelSym) -> Seq<RelSym> {
    if exists|i: int| 0 <= i < m.len() && (#[trigger] m[i]).name == g.name {
        m.update(choose|i: int| 0 <= i < m.len() && (#[trigger] m[i]).name == g.name, g)
    } else {
        m.push(g)
    }
}

/// The arity stored under `k`.
pub open spec fn aget(m: Seq<(Seq<char>, Seq<Seq<char>>)>, k: Seq<char>) -> Option<Seq<Seq<char>>> {
    if exists|i: int| 0 <= i < m.len() && (#[trigger] m[i]).0 == k {
        Some(m[choose|i: int| 0 <= i < m.len() && (#[trigger] m[i]).0 == k].1)
    } else {
        None
    }
}

/// `m` with `a` stored under `k`.
pub open spec fn aput(m: Seq<(Seq<char>, Seq<Seq<char>>)>, k: Seq<char>, a: Seq<Seq<char>>) -> Seq<
    (Seq<char>, Seq<Seq<char>>),
> {
    if exists|i: int| 0 <= i < m.len() && (#[trigger] m[i]).0 == k {
        m.update(choose|i: int| 0 <= i < m.len() && (#[trigger] m[i]).0 == k, (k, a))
    } else {
        m.push((k, a))
    }
}

/// The least name of a set in lexicographic order.
pub open spec fn least_name(s: Set<Seq<char>>) -> Seq<char> {
    choose|x: Seq<char>| s.contains(x) && forall|y: Seq<char>| #[trigger] s.contains(y) ==> !lex_lt(y, x)
}

/// The sort given to symbols whose sort cannot be inferred: the least known
/// sort, or `Nat` when none is known.
pub open spec fn default_sort(st: TrS) -> Seq<char> {
    if exists|x: Seq<char>| st.sorts.contains(x) {
        least_name(st.sorts)
    } else {
        "Nat"@
    }
}

// ---------------------------------------------------------------------------
// Sorts
// ---------------------------------------------------------------------------

/// Resolve a sort name: a known sort is itself; a placeholder falls back to
/// the default sort; any other name becomes a new sort.
pub open spec fn resolve_sort(st: TrS, name: Seq<char>) -> (TrS, Seq<char>) {
    if st.sorts.contains(name) {
        (st, name)
    } else if crate::translator::unknown_sort(name) {
        (st, default_sort(st))
    } else {
        (TrS { sorts: st.sorts.insert(name), ..st }, name)
    }
}

/// Resolve a list of sort names in order.
pub open spec fn resolve_sorts(st: TrS, names: Seq<Seq<char>>) -> (TrS, Seq<Seq<char>>)
    decreases names.len(),
{
    if names.len() == 0 {
        (st, seq![])
    } else {
        let (s1, done) = resolve_sorts(st, names.drop_last());
        let (s2, x) = resolve_sort(s1, names.last());
        (s2, done.push(x))
    }
}

/// Resolving a list gives one sort per name.
pub proof fn lemma_resolve_sorts_len(st: TrS, names: Seq<Seq<char>>)
    ensures
        resolve_sorts(st, names).1.len() == names.len(),
    decreases names.len(),
{
    if names.len() > 0 {
        lemma_resolve_sorts_len(st, names.drop_last());
    }
}

// ---------------------------------------------------------------------------
// Symbols declared on first use
// ---------------------------------------------------------------------------

/// A name is taken by a sort or by a symbol.
pub open spec fn taken(st: TrS, n: Seq<char>) -> bool {
    st.sorts.contains(n) || fget(st.dfun, n) is Some || fget(st.afun, n) is Some || rget(st.drel, n) is Some
        || rget(st.arel, n) is Some
}

/// Decimal digits of a number.
pub open spec fn decimal(n: nat) -> Seq<char>
    decreases n,
{
    if n < 10 {
        seq![digit(n)]
    } else {
        decimal(n / 10).push(digit(n % 10))
    }
}

/// The character of a digit.
pub open spec fn digit(d: nat) -> char {
    if d == 0 {
        '0'
    } else if d == 1 {
        '1'
    } else if d == 2 {
        '2'
    } else if d == 3 {
        '3'
    } else if d == 4 {
        '4'
    } else if d == 5 {
        '5'
    } else if d == 6 {
        '6'
    } else if d == 7 {
        '7'
    } else if d == 8 {
        '8'
    } else {
        '9'
    }
}

/// The `i`-th fallback name for `n`.
pub open spec fn numbered_name(n: Seq<char>, i: nat) -> Seq<char> {
    "_auto_"@ + n + "_"@ + decimal(i)
}

/// The least `i` in `[from, bound)` whose numbered name is free, else
/// `bound`.
pub open spec fn first_free(st: TrS, n: Seq<char>, from: nat, bound: nat) -> nat
    decreases bound - from,
{
    if from >= bound {
        bound
    } else if !taken(st, numbered_name(n, from)) {
        from
    } else {
        first_free(st, n, from + 1, bound)
    }
}

/// A name for a new symbol that takes no taken name: `n` itself, else
/// `_auto_n`, else `_auto_n_i` for the least free `i ≥ 1` (searched up to
/// `u32::MAX`).
pub open spec fn unique_name(st: TrS, n: Seq<char>) -> Seq<char> {
    if !taken(st, n) {
        n
    } else if !taken(st, "_auto_"@ + n) {
        "_auto_"@ + n
    } else {
        numbered_name(n, first_free(st, n, 1, u32::MAX as nat))
    }
}

/// The relation named `name`: a declared or an already auto-declared one,
/// else a new relation with the given arity under a free name.
pub open spec fn ensure_relation(st: TrS, name: Seq<char>, arity: Seq<Seq<char>>) -> (TrS, RelSym) {
    if rget(st.drel, name) is Some {
        (st, rget(st.drel, name)->0)
    } else if rget(st.arel, name) is Some {
        (st, rget(st.arel, name)->0)
    } else {
        let g = RelSym { name: unique_name(st, name), arity };
        (TrS { arel: rput(st.arel, g), ..st }, g)
    }
}

/// The constant named `name`: a declared or auto-declared symbol, else a
/// new constant of the default sort.
pub open spec fn ensure_constant(st: TrS, name: Seq<char>) -> (TrS, FunSym) {
    if fget(st.dfun, name) is Some {
        (st, fget(st.dfun, name)->0)
    } else if fget(st.afun, name) is Some {
        (st, fget(st.afun, name)->0)
    } else {
        let f = FunSym { name, domain: seq![], codomain: default_sort(st) };
        (TrS { afun: fput(st.afun, f), ..st }, f)
    }
}

/// The sort of a translated term: a variable's binder sort, or the
/// codomain of the function symbol as currently declared.
pub open spec fn infer_sort(st: TrS, t: TermV, stack: Seq<(Seq<char>, Seq<char>)>) -> Option<Seq<char>> {
    match t {
        TermV::Var(i) => if i < stack.len() {
            Some(stack[stack.len() - 1 - i].1)
        } else {
            None
        },
        TermV::App(f, _) => if fget(st.dfun, f.name) is Some {
            Some(fget(st.dfun, f.name)->0.codomain)
        } else if fget(st.afun, f.name) is Some {
            Some(fget(st.afun, f.name)->0.codomain)
        } else {
            Some(f.codomain)
        },
    }
}

/// The inferred sort, or `fallback`.
pub open spec fn sort_or(o: Option<Seq<char>>, fallback: Seq<char>) -> Seq<char> {
    match o {
        Some(s) => s,
        None => fallback,
    }
}

/// The inferred sorts of the arguments, the default sort where none is
/// inferred.
pub open spec fn arg_sorts(st: TrS, args: Seq<TermV>, stack: Seq<(Seq<char>, Seq<char>)>) -> Seq<Seq<char>> {
    Seq::new(args.len(), |k: int| sort_or(infer_sort(st, args[k], stack), default_sort(st)))
}

/// The function symbol named `name`: a declared or auto-declared one,
/// else a new symbol whose domain is inferred from the arguments and whose
/// codomain is the first argument's sort.
pub open spec fn ensure_function(st: TrS, name: Seq<char>, args: Seq<TermV>, stack: Seq<(Seq<char>, Seq<char>)>) -> (
    TrS,
    FunSym,
) {
    if fget(st.dfun, name) is Some {
        (st, fget(st.dfun, name)->0)
    } else if fget(st.afun, name) is Some {
        (st, fget(st.afun, name)->0)
    } else {
        let dom = arg_sorts(st, args, stack);
        let f = FunSym { name, domain: dom, codomain: if dom.len() > 0 { dom[0] } else { default_sort(st) } };
        (TrS { afun: fput(st.afun, f), ..st }, f)
    }
}

/// The symbol `zero : Nat`.
pub open spec fn zero_sym() -> FunSym {
    FunSym { name: "zero"@, domain: seq![], codomain: "Nat"@ }
}

/// The symbol `succ : Nat → Nat`.
pub open spec fn succ_sym() -> FunSym {
    FunSym { name: "succ"@, domain: seq!["Nat"@], codomain: "Nat"@ }
}

/// `succ` applied `n` times to `zero`.
pub open spec fn succ_chain(n: nat) -> TermV
    decreases n,
{
    if n == 0 {
        TermV::App(zero_sym(), seq![])
    } else {
        TermV::App(succ_sym(), seq![succ_chain((n - 1) as nat)])
    }
}

/// The state after a natural-number literal: `zero` and `succ` declared
/// unless already auto-declared.
pub open spec fn with_nat_symbols(st: TrS) -> TrS {
    let a1 = if fget(st.afun, "zero"@) is Some { st.afun } else { fput(st.afun, zero_sym()) };
    let a2 = if fget(a1, "succ"@) is Some { a1 } else { fput(a1, succ_sym()) };
    TrS { afun: a2, ..st }
}

// ---------------------------------------------------------------------------
// Expressions
// ---------------------------------------------------------------------------

/// A bare reference to a known sort, which applications drop as a type
/// argument.
pub open spec fn type_arg_noise(sorts: Set<Seq<char>>, e: IRExprV) -> bool {
    match e {
        IRExprV::App(n, args) => args.len() == 0 && sorts.contains(n),
        _ => false,
    }
}

/// Distance of the nearest binder named `name` from the top of the stack.
pub open spec fn var_index(stack: Seq<(Seq<char>, Seq<char>)>, name: Seq<char>) -> Option<nat>
    decreases stack.len(),
{
    if stack.len() == 0 {
        None
    } else if stack.last().0 == name {
        Some(0)
    } else {
        match var_index(stack.drop_last(), name) {
            Some(i) => Some(i + 1),
            None => None,
        }
    }
}

/// `¬l ∨ r`.
pub open spec fn implies_v(l: FormulaV, r: FormulaV) -> FormulaV {
    FormulaV::Or(Box::new(FormulaV::Not(Box::new(l))), Box::new(r))
}

/// `(l → r) ∧ (r → l)`.
pub open spec fn iff_v(l: FormulaV, r: FormulaV) -> FormulaV {
    FormulaV::And(Box::new(implies_v(l, r)), Box::new(implies_v(r, l)))
}

/// Translation of an expression in term position.
pub open spec fn term_tr(st: TrS, e: IRExprV, stack: Seq<(Seq<char>, Seq<char>)>) -> (TrS, Option<TermV>)
    decreases e, 0nat,
{
    match e {
        IRExprV::Var(name) => match var_index(stack, name) {
            Some(i) => (st, Some(TermV::Var(i))),
            None => {
                let (s1, f) = ensure_constant(st, name);
                (s1, Some(TermV::App(f, seq![])))
            },
        },
        IRExprV::NatLit(v) => (with_nat_symbols(st), Some(succ_chain(v as nat))),
        IRExprV::App(n, args) => {
            let (s1, ts) = terms_tr(st, st.sorts, args, stack);
            match ts {
                Some(ts) => {
                    let (s2, f) = ensure_function(s1, n, ts, stack);
                    (s2, Some(TermV::App(f, ts)))
                },
                None => (s1, None),
            }
        },
        _ => (st, None),
    }
}

/// Translation of a list of expressions in term position, left to right,
/// skipping the bare references to the sorts of `filt` and stopping at the
/// first rejected one.
pub open spec fn terms_tr(st: TrS, filt: Set<Seq<char>>, es: Seq<IRExprV>, stack: Seq<(Seq<char>, Seq<char>)>) -> (
    TrS,
    Option<Seq<TermV>>,
)
    decreases es, 1nat,
{
    if es.len() == 0 {
        (st, Some(seq![]))
    } else {
        proof {
            assert(decreases_to!(es => es[es.len() - 1]));
        }
        let (s1, done) = terms_tr(st, filt, es.drop_last(), stack);
        match done {
            Some(ts) => if type_arg_noise(filt, es.last()) {
                (s1, Some(ts))
            } else {
                let (s2, t) = term_tr(s1, es.last(), stack);
                match t {
                    Some(t) => (s2, Some(ts.push(t))),
                    None => (s2, None),
                }
            },
            None => (s1, None),
        }
    }
}

/// Translation of the two sides of a binary connective, left then right.
#[verifier::opaque]
pub open spec fn pair_tr(st: TrS, e: IRExprV, stack: Seq<(Seq<char>, Seq<char>)>) -> (TrS, Option<(FormulaV, FormulaV)>)
    decreases e, 0nat,
{
    match e {
        IRExprV::And(l, r) | IRExprV::Or(l, r) | IRExprV::Implies(l, r) | IRExprV::Iff(l, r) => {
            let (s1, a) = prop_tr(st, *l, stack);
            match a {
                Some(a) => {
                    let (s2, b) = prop_tr(s1, *r, stack);
                    match b {
                        Some(b) => (s2, Some((a, b))),
                        None => (s2, None),
                    }
                },
                None => (s1, None),
            }
        },
        _ => (st, None),
    }
}

/// One step of the translation of a biconditional: both sides are
/// translated in turn and joined by [`iff_v`].
pub proof fn lemma_prop_tr_iff(st: TrS, l: IRExprV, r: IRExprV, stack: Seq<(Seq<char>, Seq<char>)>)
    ensures
        ({
            let (s1, x) = prop_tr(st, l, stack);
            let (s2, y) = prop_tr(s1, r, stack);
            let res = prop_tr(st, IRExprV::Iff(Box::new(l), Box::new(r)), stack);
            &&& x is None ==> res == (s1, None::<FormulaV>)
            &&& x is Some && y is None ==> res == (s2, None::<FormulaV>)
            &&& x is Some && y is Some ==> res == (s2, Some(iff_v(x->0, y->0)))
        }),
{
    reveal(prop_tr);
    reveal(pair_tr);
    let e = IRExprV::Iff(Box::new(l), Box::new(r));
    let (s1, x) = prop_tr(st, l, stack);
    let (s2, y) = prop_tr(s1, r, stack);
    let pr = pair_tr(st, e, stack);
    if x is None {
        assert(pr == (s1, None::<(FormulaV, FormulaV)>));
    } else if y is None {
        assert(pr == (s2, None::<(FormulaV, FormulaV)>));
    } else {
        assert(pr == (s2, Some((x->0, y->0))));
    }
}

/// Translation of two terms, left then right.
pub open spec fn term_pair_tr(st: TrS, l: IRExprV, r: IRExprV, stack: Seq<(Seq<char>, Seq<char>)>) -> (TrS, Option<(TermV, TermV)>) {
    let (s1, a) = term_tr(st, l, stack);
    match a {
        Some(a) => {
            let (s2, b) = term_tr(s1, r, stack);
            match b {
                Some(b) => (s2, Some((a, b))),
                None => (s2, None),
            }
        },
        None => (s1, None),
    }
}

/// Translation of an expression in proposition position.
#[verifier::opaque]
pub open spec fn prop_tr(st: TrS, e: IRExprV, stack: Seq<(Seq<char>, Seq<char>)>) -> (TrS, Option<FormulaV>)
    decreases e, 1nat,
{
    match e {
        IRExprV::True => (st, Some(FormulaV::Top)),
        IRExprV::False => (st, Some(FormulaV::Bot)),
        IRExprV::And(_, _) => {
            let (s1, p) = pair_tr(st, e, stack);
            (s1, match p { Some(p) => Some(FormulaV::And(Box::new(p.0), Box::new(p.1))), None => None })
        },
        IRExprV::Or(_, _) => {
            let (s1, p) = pair_tr(st, e, stack);
            (s1, match p { Some(p) => Some(FormulaV::Or(Box::new(p.0), Box::new(p.1))), None => None })
        },
        IRExprV::Not(b) => {
            let (s1, x) = prop_tr(st, *b, stack);
            (s1, match x { Some(x) => Some(FormulaV::Not(Box::new(x))), None => None })
        },
        IRExprV::Implies(_, _) => {
            let (s1, p) = pair_tr(st, e, stack);
            (s1, match p { Some(p) => Some(implies_v(p.0, p.1)), None => None })
        },
        IRExprV::Iff(_, _) => {
            let (s1, p) = pair_tr(st, e, stack);
            (s1, match p { Some(p) => Some(iff_v(p.0, p.1)), None => None })
        },
        IRExprV::Forall(v, s, b) => {
            let (s1, sort) = resolve_sort(st, s);
            let (s2, x) = prop_tr(s1, *b, stack.push((v, sort)));
            (s2, match x { Some(x) => Some(FormulaV::Forall(sort, Box::new(x))), None => None })
        },
        IRExprV::Exists(v, s, b) => {
            let (s1, sort) = resolve_sort(st, s);
            let (s2, x) = prop_tr(s1, *b, stack.push((v, sort)));
            (s2, match x { Some(x) => Some(FormulaV::Exists(sort, Box::new(x))), None => None })
        },
        IRExprV::Eq(l, r) => {
            let (s1, p) = term_pair_tr(st, *l, *r, stack);
            (s1, match p { Some(p) => Some(FormulaV::Eq(p.0, p.1)), None => None })
        },
        IRExprV::Neq(l, r) => {
            let (s1, p) = term_pair_tr(st, *l, *r, stack);
            (s1, match p { Some(p) => Some(FormulaV::Neq(p.0, p.1)), None => None })
        },
        IRExprV::Leq(l, r) => {
            let (s1, p) = term_pair_tr(st, *l, *r, stack);
            match p {
                Some(p) => {
                    let s = sort_or(infer_sort(s1, p.0, stack), "Nat"@);
                    let (s2, g) = ensure_relation(s1, "leq"@, seq![s, s]);
                    (s2, Some(FormulaV::Atom(g, seq![p.0, p.1])))
                },
                None => (s1, None),
            }
        },
        IRExprV::Lt(l, r) => {
            let (s1, p) = term_pair_tr(st, *l, *r, stack);
            match p {
                Some(p) => {
                    let s = sort_or(infer_sort(s1, p.0, stack), "Nat"@);
                    let (s2, g) = ensure_relation(s1, "lt"@, seq![s, s]);
                    (s2, Some(FormulaV::Atom(g, seq![p.0, p.1])))
                },
                None => (s1, None),
            }
        },
        IRExprV::Mem(l, r) => {
            let (s1, p) = term_pair_tr(st, *l, *r, stack);
            match p {
                Some(p) => {
                    let a = sort_or(infer_sort(s1, p.0, stack), "Nat"@);
                    let b = sort_or(infer_sort(s1, p.1, stack), "Nat"@);
                    let (s2, g) = ensure_relation(s1, "mem"@, seq![a, b]);
                    (s2, Some(FormulaV::Atom(g, seq![p.0, p.1])))
                },
                None => (s1, None),
            }
        },
        IRExprV::App(n, args) => if aget(st.arity, n) is Some {
            let (s1, ts) = terms_tr(st, st.sorts, args, stack);
            match ts {
                Some(ts) => (s1, Some(FormulaV::Atom(RelSym { name: n, arity: aget(st.arity, n)->0 }, ts))),
                None => (s1, None),
            }
        } else {
            (st, None)
        },
        _ => (st, None),
    }
}

/// The message of a failed translation in term position: an unsupported
/// node, a propositional node where a term was expected, or the message of
/// the argument that failed.
pub open spec fn term_err(st: TrS, e: IRExprV, stack: Seq<(Seq<char>, Seq<char>)>) -> Seq<char>
    decreases e, 0nat,
{
    match e {
        IRExprV::App(_, args) => terms_err(st, st.sorts, args, stack),
        IRExprV::Unsupported(d) => "unsupported node: "@ + d,
        IRExprV::Var(_) | IRExprV::NatLit(_) => seq![],
        _ => "context mismatch: expected term, got propositional node \""@ + kind_name(e) + "\""@,
    }
}

/// The message of the first argument of `es` whose translation fails.
pub open spec fn terms_err(st: TrS, filt: Set<Seq<char>>, es: Seq<IRExprV>, stack: Seq<(Seq<char>, Seq<char>)>) -> Seq<char>
    decreases es, 1nat,
{
    if es.len() == 0 {
        seq![]
    } else {
        proof {
            assert(decreases_to!(es => es[es.len() - 1]));
        }
        let (s1, done) = terms_tr(st, filt, es.drop_last(), stack);
        match done {
            Some(_) => term_err(s1, es.last(), stack),
            None => terms_err(st, filt, es.drop_last(), stack),
        }
    }
}

/// The message of a failed translation of two terms, left then right.
pub open spec fn term_pair_err(st: TrS, l: IRExprV, r: IRExprV, stack: Seq<(Seq<char>, Seq<char>)>) -> Seq<char> {
    let (s1, a) = term_tr(st, l, stack);
    match a {
        Some(_) => term_err(s1, r, stack),
        None => term_err(st, l, stack),
    }
}

/// The message of a failed translation in proposition position: for a
/// connective, binder or comparison the message of the part that failed
/// first; an unsupported node; or a term-shaped node (a variable, a
/// literal, an application of a symbol that is not a predicate) where a
/// proposition was expected.
pub open spec fn prop_err(st: TrS, e: IRExprV, stack: Seq<(Seq<char>, Seq<char>)>) -> Seq<char>
    decreases e,
{
    match e {
        IRExprV::And(l, r) | IRExprV::Or(l, r) | IRExprV::Implies(l, r) | IRExprV::Iff(l, r) => {
            let (s1, a) = prop_tr(st, *l, stack);
            match a {
                Some(_) => prop_err(s1, *r, stack),
                None => prop_err(st, *l, stack),
            }
        },
        IRExprV::Not(b) => prop_err(st, *b, stack),
        IRExprV::Forall(v, s, b) | IRExprV::Exists(v, s, b) => {
            let (s1, sort) = resolve_sort(st, s);
            prop_err(s1, *b, stack.push((v, sort)))
        },
        IRExprV::Eq(l, r) | IRExprV::Neq(l, r) | IRExprV::Leq(l, r) | IRExprV::Lt(l, r) | IRExprV::Mem(l, r) => term_pair_err(
            st,
            *l,
            *r,
            stack,
        ),
        IRExprV::App(n, args) => if aget(st.arity, n) is Some {
            terms_err(st, st.sorts, args, stack)
        } else {
            "context mismatch: expected proposition, got function application '"@ + n + "'"@
        },
        IRExprV::Var(n) => "context mismatch: expected proposition, got bare variable reference '"@ + n + "'"@,
        IRExprV::NatLit(v) => "context mismatch: expected proposition, got nat literal "@ + decimal(v as nat),
        IRExprV::Unsupported(d) => "unsupported node: "@ + d,
        IRExprV::True | IRExprV::False => seq![],
    }
}

// ---------------------------------------------------------------------------
// The executable state
// ---------------------------------------------------------------------------

/// Abstract value of a stack of binders.
pub open spec fn stack_view(v: Seq<(String, String)>) -> Seq<(Seq<char>, Seq<char>)> {
    v.map_values(|p: (String, String)| (p.0@, p.1@))
}

/// Abstract value of the arity list.
pub open spec fn arity_view(v: Seq<(String, Vec<SortSymbol>)>) -> Seq<(Seq<char>, Seq<Seq<char>>)> {
    v.map_values(|p: (String, Vec<SortSymbol>)| (p.0@, sort_names(p.1@)))
}

/// The translation state.
pub(crate) struct Translation {
    pub(crate) sorts: Vec<String>,
    pub(crate) dfun: Vec<FunctionSymbol>,
    pub(crate) afun: Vec<FunctionSymbol>,
    pub(crate) drel: Vec<RelationSymbol>,
    pub(crate) arel: Vec<RelationSymbol>,
    pub(crate) arity: Vec<(String, Vec<SortSymbol>)>,
    /// Diagnostics collected so far.
    pub(crate) warnings: Vec<String>,
}

/// The diagnostics `a` are kept, in order, at the front of `b`.
pub open spec fn warnings_kept(a: Seq<String>, b: Seq<String>) -> bool {
    a.len() <= b.len() && forall|i: int| 0 <= i < a.len() ==> (#[trigger] b[i])@ == a[i]@
}

impl View for Translation {
    type V = TrS;

    closed spec fn view(&self) -> TrS {
        TrS {
            sorts: names_set(self.sorts@),
            dfun: fun_views(self.dfun@),
            afun: fun_views(self.afun@),
            drel: rel_views(self.drel@),
            arel: rel_views(self.arel@),
            arity: arity_view(self.arity@),
        }
    }
}

proof fn lemma_fget_at(m: Seq<FunSym>, i: int, f: FunSym)
    requires
        funs_keyed(m),
        0 <= i < m.len(),
        m[i].name == f.name,
    ensures
        fget(m, f.name) == Some(m[i]),
        fput(m, f) == m.update(i, f),
        funs_keyed(m.update(i, f)),
{
    let j = choose|j: int| 0 <= j < m.len() && (#[trigger] m[j]).name == f.name;
    if j != i {
        if j < i {
            assert(m[j].name != m[i].name);
        } else {
            assert(m[i].name != m[j].name);
        }
    }
}

proof fn lemma_fget_none(m: Seq<FunSym>, f: FunSym)
    requires
        funs_keyed(m),
        forall|i: int| 0 <= i < m.len() ==> (#[trigger] m[i]).name != f.name,
    ensures
        fget(m, f.name) is None,
        fput(m, f) == m.push(f),
        funs_keyed(m.push(f)),
{
}

proof fn lemma_rget_at(m: Seq<RelSym>, i: int, g: RelSym)
    requires
        rels_keyed(m),
        0 <= i < m.len(),
        m[i].name == g.name,
    ensures
        rget(m, g.name) == Some(m[i]),
        rput(m, g) == m.update(i, g),
        rels_keyed(m.update(i, g)),
{
    let j = choose|j: int| 0 <= j < m.len() && (#[trigger] m[j]).name == g.name;
    if j != i {
        if j < i {
            assert(m[j].name != m[i].name);
        } else {
            assert(m[i].name != m[j].name);
        }
    }
}

proof fn lemma_rget_none(m: Seq<RelSym>, g: RelSym)
    requires
        rels_keyed(m),
        forall|i: int| 0 <= i < m.len() ==> (#[trigger] m[i]).name != g.name,
    ensures
        rget(m, g.name) is None,
        rput(m, g) == m.push(g),
        rels_keyed(m.push(g)),
{
}

proof fn lemma_aget_at(m: Seq<(Seq<char>, Seq<Seq<char>>)>, i: int, k: Seq<char>, a: Seq<Seq<char>>)
    requires
        arity_keyed(m),
        0 <= i < m.len(),
        m[i].0 == k,
    ensures
        aget(m, k) == Some(m[i].1),
        aput(m, k, a) == m.update(i, (k, a)),
        arity_keyed(m.update(i, (k, a))),
{
    let j = choose|j: int| 0 <= j < m.len() && (#[trigger] m[j]).0 == k;
    if j != i {
        if j < i {
            assert(m[j].0 != m[i].0);
        } else {
            assert(m[i].0 != m[j].0);
        }
    }
}

proof fn lemma_aget_none(m: Seq<(Seq<char>, Seq<Seq<char>>)>, k: Seq<char>, a: Seq<Seq<char>>)
    requires
        arity_keyed(m),
        forall|i: int| 0 <= i < m.len() ==> (#[trigger] m[i]).0 != k,
    ensures
        aget(m, k) is None,
        aput(m, k, a) == m.push((k, a)),
        arity_keyed(m.push((k, a))),
{
}

fn find_fun(v: &Vec<FunctionSymbol>, k: &str) -> (r: Option<usize>)
    ensures
        r matches Some(i) ==> i < v@.len() && v@[i as int].name@ == k@,
        r is None ==> forall|i: int| 0 <= i < v@.len() ==> (#[trigger] fun_views(v@)[i]).name != k@,
{
    let mut i: usize = 0;
    while i < v.len()
        invariant
            i <= v@.len(),
            forall|j: int| 0 <= j < i ==> (#[trigger] fun_views(v@)[j]).name != k@,
        decreases v.len() - i,
    {
        if str_eq(v[i].name.as_str(), k) {
            return Some(i);
        }
        i = i + 1;
    }
    None
}

fn find_rel(v: &Vec<RelationSymbol>, k: &str) -> (r: Option<usize>)
    ensures
        r matches Some(i) ==> i < v@.len() && v@[i as int].name@ == k@,
        r is None ==> forall|i: int| 0 <= i < v@.len() ==> (#[trigger] rel_views(v@)[i]).name != k@,
{
    let mut i: usize = 0;
    while i < v.len()
        invariant
            i <= v@.len(),
            forall|j: int| 0 <= j < i ==> (#[trigger] rel_views(v@)[j]).name != k@,
        decreases v.len() - i,
    {
        if str_eq(v[i].name.as_str(), k) {
            return Some(i);
        }
        i = i + 1;
    }
    None
}

fn find_arity(v: &Vec<(String, Vec<SortSymbol>)>, k: &str) -> (r: Option<usize>)
    ensures
        r matches Some(i) ==> i < v@.len() && v@[i as int].0@ == k@,
        r is None ==> forall|i: int| 0 <= i < v@.len() ==> (#[trigger] arity_view(v@)[i]).0 != k@,
{
    let mut i: usize = 0;
    while i < v.len()
        invariant
            i <= v@.len(),
            forall|j: int| 0 <= j < i ==> (#[trigger] arity_view(v@)[j]).0 != k@,
        decreases v.len() - i,
    {
        if str_eq(v[i].0.as_str(), k) {
            return Some(i);
        }
        i = i + 1;
    }
    None
}

/// The decimal digits of `n`.
pub fn decimal_string(n: u64) -> (r: String)
    ensures
        r@ == decimal(n as nat),
    decreases n,
{
    let d = n % 10;
    let c = if d == 0 {
        "0"
    } else if d == 1 {
        "1"
    } else if d == 2 {
        "2"
    } else if d == 3 {
        "3"
    } else if d == 4 {
        "4"
    } else if d == 5 {
        "5"
    } else if d == 6 {
        "6"
    } else if d == 7 {
        "7"
    } else if d == 8 {
        "8"
    } else {
        "9"
    };
    proof {
        reveal_strlit("0");
        reveal_strlit("1");
        reveal_strlit("2");
        reveal_strlit("3");
        reveal_strlit("4");
        reveal_strlit("5");
        reveal_strlit("6");
        reveal_strlit("7");
        reveal_strlit("8");
        reveal_strlit("9");
        assert(c@ =~= seq![digit(d as nat)]);
    }
    if n < 10 {
        String::from_str(c)
    } else {
        let mut s = decimal_string(n / 10);
        s.append(c);
        s
    }
}

impl Translation {
    /// Well-formedness: no name twice in any table.
    pub(crate) open spec fn wf(&self) -> bool {
        &&& distinct_strings(self.sorts@)
        &&& funs_keyed(fun_views(self.dfun@))
        &&& funs_keyed(fun_views(self.afun@))
        &&& rels_keyed(rel_views(self.drel@))
        &&& rels_keyed(rel_views(self.arel@))
        &&& arity_keyed(arity_view(self.arity@))
    }

    /// The empty state.
    pub(crate) fn empty(warnings: Vec<String>) -> (r: Self)
        ensures
            r.wf(),
            r@ == (TrS {
                sorts: Set::empty(),
                dfun: seq![],
                afun: seq![],
                drel: seq![],
                arel: seq![],
                arity: seq![],
            }),
            r.warnings@ == warnings@,
    {
        let r = Translation {
            sorts: Vec::new(),
            dfun: Vec::new(),
            afun: Vec::new(),
            drel: Vec::new(),
            arel: Vec::new(),
            arity: Vec::new(),
            warnings,
        };
        proof {
            assert(names_set(r.sorts@) =~= Set::empty());
            assert(fun_views(r.dfun@) =~= seq![]);
            assert(fun_views(r.afun@) =~= seq![]);
            assert(rel_views(r.drel@) =~= seq![]);
            assert(rel_views(r.arel@) =~= seq![]);
            assert(arity_view(r.arity@) =~= seq![]);
        }
        r
    }

    /// The least known sort, or `Nat`.
    fn default_sort_name(&self) -> (r: String)
        ensures
            r@ == default_sort(self@),
    {
        if self.sorts.len() == 0 {
            proof {
                assert forall|x: Seq<char>| !names_set(self.sorts@).contains(x) by {}
            }
            return String::from_str("Nat");
        }
        let mut best: usize = 0;
        let mut i: usize = 1;
        proof {
            lemma_lex_order_antisym(self.sorts@[0]@, self.sorts@[0]@);
        }
        while i < self.sorts.len()
            invariant
                1 <= i <= self.sorts@.len(),
                best < i,
                forall|j: int| 0 <= j < i ==> !lex_lt(#[trigger] self.sorts@[j]@, self.sorts@[best as int]@),
            decreases self.sorts.len() - i,
        {
            if str_lt(self.sorts[i].as_str(), self.sorts[best].as_str()) {
                proof {
                    assert forall|j: int| 0 <= j < i + 1 implies !lex_lt(#[trigger] self.sorts@[j]@, self.sorts@[i as int]@) by {
                        if j < i && lex_lt(self.sorts@[j]@, self.sorts@[i as int]@) {
                            lemma_lex_lt_trans(self.sorts@[j]@, self.sorts@[i as int]@, self.sorts@[best as int]@);
                        }
                        if j == i {
                            lemma_lex_order_antisym(self.sorts@[j]@, self.sorts@[j]@);
                        }
                    }
                }
                best = i;
            }
            i = i + 1;
        }
        let ghost b = self.sorts@[best as int]@;
        proof {
            let st = names_set(self.sorts@);
            assert(st.contains(b));
            assert forall|y: Seq<char>| #[trigger] st.contains(y) implies !lex_lt(y, b) by {
                let j = choose|j: int| 0 <= j < self.sorts@.len() && (#[trigger] self.sorts@[j])@ == y;
            }
            let c = least_name(st);
            assert(st.contains(c) && forall|y: Seq<char>| #[trigger] st.contains(y) ==> !lex_lt(y, c));
            assert(!lex_lt(b, c) && !lex_lt(c, b));
            lemma_lex_order_antisym(b, c);
            lemma_lex_order_zero_eq(b, c);
            assert(self@.sorts == st);
            assert(self@.sorts.contains(b));
            assert(default_sort(self@) == c);
        }
        self.sorts[best].clone()
    }

    /// Resolve a sort name (see [`resolve_sort`]).
    pub(crate) fn resolve(&mut self, name: &str) -> (r: String)
        requires
            old(self).wf(),
        ensures
            warnings_kept(old(self).warnings@, final(self).warnings@),
            final(self).wf(),
            (final(self)@, r@) == resolve_sort(old(self)@, name@),
            final(self).warnings@.len() >= old(self).warnings@.len(),
    {
        if crate::translator::has_name(&self.sorts, name) {
            return String::from_str(name);
        }
        if crate::translator::is_unknown_sort(name) {
            let fallback = self.default_sort_name();
            let m = concat3("placeholder sort '", name, "' fell back to '");
            let m2 = concat3(m.as_str(), fallback.as_str(), "'");
            self.warnings.push(m2);
            return fallback;
        }
        let ghost before = names_set(self.sorts@);
        crate::translator::add_name(&mut self.sorts, name);
        String::from_str(name)
    }
}
/// Result of a translation step, as its abstract value.
pub open spec fn term_res(r: Result<Term, String>) -> Option<TermV> {
    match r {
        Ok(t) => Some(t@),
        Err(_) => None,
    }
}

/// Result of a list translation, as its abstract value.
pub open spec fn terms_res(r: Result<Vec<Term>, String>) -> Option<Seq<TermV>> {
    match r {
        Ok(ts) => Some(crate::formula::terms_view(ts@)),
        Err(_) => None,
    }
}

/// Result of a proposition translation, as its abstract value.
pub open spec fn prop_res(r: Result<Formula, String>) -> Option<FormulaV> {
    match r {
        Ok(f) => Some(f@),
        Err(_) => None,
    }
}

fn var_position(stack: &Vec<(String, String)>, name: &str) -> (r: Option<usize>)
    ensures
        (match r {
            Some(i) => Some(i as nat),
            None => None,
        }) == var_index(stack_view(stack@), name@),
        r matches Some(i) ==> i < stack@.len(),
{
    let ghost sv = stack_view(stack@);
    let mut k: usize = stack.len();
    proof {
        assert(sv.subrange(0, k as int) =~= sv);
    }
    while k > 0
        invariant
            k <= stack@.len(),
            sv == stack_view(stack@),
            forall|j: int| k <= j < stack@.len() ==> (#[trigger] stack@[j]).0@ != name@,
            var_index(sv, name@) == match var_index(sv.subrange(0, k as int), name@) {
                Some(i) => Some(i + (stack@.len() - k) as nat),
                None => None,
            },
        decreases k,
    {
        let ghost pre = sv.subrange(0, k as int);
        proof {
            assert(pre.drop_last() =~= sv.subrange(0, k - 1));
            assert(pre.last() == sv[k - 1]);
        }
        if str_eq(stack[k - 1].0.as_str(), name) {
            return Some(stack.len() - k);
        }
        k = k - 1;
    }
    proof {
        assert(sv.subrange(0, 0) =~= Seq::<(Seq<char>, Seq<char>)>::empty());
    }
    None
}

impl Translation {
    fn taken_name(&self, n: &str) -> (r: bool)
        ensures
            r == taken(self@, n@),
    {
        let a = crate::translator::has_name(&self.sorts, n);
        let b = find_fun(&self.dfun, n);
        let c = find_fun(&self.afun, n);
        let d = find_rel(&self.drel, n);
        let e = find_rel(&self.arel, n);
        proof {
            if let Some(i) = b {
                assert(fun_views(self.dfun@)[i as int].name == n@);
            }
            if let Some(i) = c {
                assert(fun_views(self.afun@)[i as int].name == n@);
            }
            if let Some(i) = d {
                assert(rel_views(self.drel@)[i as int].name == n@);
            }
            if let Some(i) = e {
                assert(rel_views(self.arel@)[i as int].name == n@);
            }
        }
        a || b.is_some() || c.is_some() || d.is_some() || e.is_some()
    }

    fn unique_symbol_name(&self, n: &str) -> (r: String)
        ensures
            r@ == unique_name(self@, n@),
    {
        if !self.taken_name(n) {
            return String::from_str(n);
        }
        let auto = concat3("_auto_", n, "");
        proof {
            reveal_strlit("");
            assert(auto@ =~= "_auto_"@ + n@);
        }
        if !self.taken_name(auto.as_str()) {
            return auto;
        }
        let mut i: u32 = 1;
        while i < u32::MAX
            invariant
                1 <= i <= u32::MAX,
                auto@ == "_auto_"@ + n@,
                taken(self@, n@),
                taken(self@, "_auto_"@ + n@),
                first_free(self@, n@, 1, u32::MAX as nat) == first_free(self@, n@, i as nat, u32::MAX as nat),
            decreases u32::MAX - i,
        {
            let num = decimal_string(i as u64);
            let pre = concat3(auto.as_str(), "_", num.as_str());
            proof {
                assert(pre@ =~= numbered_name(n@, i as nat));
            }
            if !self.taken_name(pre.as_str()) {
                return pre;
            }
            i = i + 1;
        }
        let num = decimal_string(u32::MAX as u64);
        let last = concat3(auto.as_str(), "_", num.as_str());
        proof {
            assert(last@ =~= numbered_name(n@, u32::MAX as nat));
        }
        last
    }

    /// The relation for `name` (see [`ensure_relation`]).
    pub(crate) fn ensure_rel(&mut self, name: &str, arity: Vec<SortSymbol>) -> (r: RelationSymbol)
        requires
            old(self).wf(),
        ensures
            warnings_kept(old(self).warnings@, final(self).warnings@),
            final(self).wf(),
            (final(self)@, r@) == ensure_relation(old(self)@, name@, sort_names(arity@)),
    {
        match find_rel(&self.drel, name) {
            Some(i) => {
                proof {
                    lemma_rget_at(rel_views(self.drel@), i as int, rel_views(self.drel@)[i as int]);
                }
                return self.drel[i].copy();
            },
            None => {},
        }
        match find_rel(&self.arel, name) {
            Some(i) => {
                proof {
                    lemma_rget_at(rel_views(self.arel@), i as int, rel_views(self.arel@)[i as int]);
                }
                return self.arel[i].copy();
            },
            None => {},
        }
        let eff = self.unique_symbol_name(name);
        let g = RelationSymbol { name: eff, arity };
        let ghost old_arel = rel_views(self.arel@);
        match find_rel(&self.arel, g.name.as_str()) {
            Some(i) => {
                proof {
                    lemma_rget_at(old_arel, i as int, g@);
                }
                self.arel.set(i, g.copy());
                proof {
                    assert(rel_views(self.arel@) =~= old_arel.update(i as int, g@));
                }
            },
            None => {
                proof {
                    lemma_rget_none(old_arel, g@);
                }
                self.arel.push(g.copy());
                proof {
                    assert(rel_views(self.arel@) =~= old_arel.push(g@));
                }
            },
        }
        let m = concat3("auto-declared relation '", g.name.as_str(), "' from usage");
        self.warnings.push(m);
        g
    }

    /// The constant for `name` (see [`ensure_constant`]).
    fn ensure_const(&mut self, name: &str) -> (r: FunctionSymbol)
        requires
            old(self).wf(),
        ensures
            warnings_kept(old(self).warnings@, final(self).warnings@),
            final(self).wf(),
            final(self)@.sorts == old(self)@.sorts,
            (final(self)@, r@) == ensure_constant(old(self)@, name@),
    {
        match find_fun(&self.dfun, name) {
            Some(i) => {
                proof {
                    lemma_fget_at(fun_views(self.dfun@), i as int, fun_views(self.dfun@)[i as int]);
                }
                return self.dfun[i].copy();
            },
            None => {},
        }
        match find_fun(&self.afun, name) {
            Some(i) => {
                proof {
                    lemma_fget_at(fun_views(self.afun@), i as int, fun_views(self.afun@)[i as int]);
                }
                return self.afun[i].copy();
            },
            None => {},
        }
        let codomain = self.default_sort_name();
        let f = FunctionSymbol { name: String::from_str(name), domain: Vec::new(), codomain: SortSymbol { name: codomain } };
        let ghost old_afun = fun_views(self.afun@);
        proof {
            assert(f@.domain =~= seq![]);
            lemma_fget_none(old_afun, f@);
        }
        self.afun.push(f.copy());
        proof {
            assert(fun_views(self.afun@) =~= old_afun.push(f@));
        }
        let m = concat3("auto-declared constant '", name, "'");
        self.warnings.push(m);
        f
    }

    fn infer_term_sort(&self, t: &Term, stack: &Vec<(String, String)>) -> (r: Option<String>)
        requires
            self.wf(),
        ensures
            (match r {
                Some(x) => Some(x@),
                None => None,
            }) == infer_sort(self@, t@, stack_view(stack@)),
    {
        match t {
            Term::Var(i) => {
                if *i < stack.len() {
                    Some(stack[stack.len() - 1 - *i].1.clone())
                } else {
                    None
                }
            },
            Term::App { function, .. } => {
                match find_fun(&self.dfun, function.name.as_str()) {
                    Some(i) => {
                        proof {
                            lemma_fget_at(fun_views(self.dfun@), i as int, fun_views(self.dfun@)[i as int]);
                        }
                        return Some(self.dfun[i].codomain.name.clone());
                    },
                    None => {},
                }
                match find_fun(&self.afun, function.name.as_str()) {
                    Some(i) => {
                        proof {
                            lemma_fget_at(fun_views(self.afun@), i as int, fun_views(self.afun@)[i as int]);
                        }
                        return Some(self.afun[i].codomain.name.clone());
                    },
                    None => {},
                }
                Some(function.codomain.name.clone())
            },
        }
    }

    /// The function symbol for `name` applied to `args` (see
    /// [`ensure_function`]).
    fn ensure_fun(&mut self, name: &str, args: &Vec<Term>, stack: &Vec<(String, String)>) -> (r: FunctionSymbol)
        requires
            old(self).wf(),
        ensures
            warnings_kept(old(self).warnings@, final(self).warnings@),
            final(self).wf(),
            final(self)@.sorts == old(self)@.sorts,
            (final(self)@, r@) == ensure_function(old(self)@, name@, crate::formula::terms_view(args@), stack_view(stack@)),
    {
        match find_fun(&self.dfun, name) {
            Some(i) => {
                proof {
                    lemma_fget_at(fun_views(self.dfun@), i as int, fun_views(self.dfun@)[i as int]);
                }
                return self.dfun[i].copy();
            },
            None => {},
        }
        match find_fun(&self.afun, name) {
            Some(i) => {
                proof {
                    lemma_fget_at(fun_views(self.afun@), i as int, fun_views(self.afun@)[i as int]);
                }
                return self.afun[i].copy();
            },
            None => {},
        }
        let ghost st = self@;
        let ghost av = crate::formula::terms_view(args@);
        let dflt = self.default_sort_name();
        let mut domain: Vec<SortSymbol> = Vec::new();
        let mut i: usize = 0;
        while i < args.len()
            invariant
                i <= args@.len(),
                self.wf(),
                st == self@,
                av == crate::formula::terms_view(args@),
                dflt@ == default_sort(st),
                sort_names(domain@) == arg_sorts(st, av, stack_view(stack@)).subrange(0, i as int),
            decreases args.len() - i,
        {
            proof {
                assert(av[i as int] == args@[i as int]@);
            }
            let s = match self.infer_term_sort(&args[i], stack) {
                Some(x) => x,
                None => dflt.clone(),
            };
            proof {
                assert(s@ == arg_sorts(st, av, stack_view(stack@))[i as int]);
            }
            let ghost before = domain@;
            domain.push(SortSymbol { name: s });
            proof {
                assert(sort_names(domain@) =~= sort_names(before).push(s@));
                assert(sort_names(domain@) =~= arg_sorts(st, av, stack_view(stack@)).subrange(0, i + 1));
            }
            i = i + 1;
        }
        proof {
            assert(arg_sorts(st, av, stack_view(stack@)).subrange(0, i as int) =~= arg_sorts(st, av, stack_view(stack@)));
        }
        let codomain = if domain.len() > 0 {
            domain[0].copy()
        } else {
            SortSymbol { name: dflt }
        };
        let f = FunctionSymbol { name: String::from_str(name), domain, codomain };
        let ghost old_afun = fun_views(self.afun@);
        proof {
            lemma_fget_none(old_afun, f@);
        }
        self.afun.push(f.copy());
        proof {
            assert(fun_views(self.afun@) =~= old_afun.push(f@));
        }
        let m = concat3("auto-declared function '", name, "' from usage");
        self.warnings.push(m);
        f
    }

    fn ensure_nat_symbol(&mut self, f: FunctionSymbol)
        requires
            old(self).wf(),
        ensures
            warnings_kept(old(self).warnings@, final(self).warnings@),
            final(self).wf(),
            final(self)@ == (TrS {
                afun: if fget(old(self)@.afun, f@.name) is Some {
                    old(self)@.afun
                } else {
                    fput(old(self)@.afun, f@)
                },
                ..old(self)@
            }),
    {
        match find_fun(&self.afun, f.name.as_str()) {
            Some(i) => {
                proof {
                    lemma_fget_at(fun_views(self.afun@), i as int, fun_views(self.afun@)[i as int]);
                }
            },
            None => {
                let ghost old_afun = fun_views(self.afun@);
                proof {
                    lemma_fget_none(old_afun, f@);
                }
                self.afun.push(f);
                proof {
                    assert(fun_views(self.afun@) =~= old_afun.push(f@));
                }
            },
        }
    }

    /// The term `succ(…(zero))` with `value` applications, declaring `zero`
    /// and `succ` on first use.
    fn nat_literal(&mut self, value: u64) -> (r: Term)
        requires
            old(self).wf(),
        ensures
            warnings_kept(old(self).warnings@, final(self).warnings@),
            final(self).wf(),
            final(self)@ == with_nat_symbols(old(self)@),
            r@ == succ_chain(value as nat),
    {
        let zero = FunctionSymbol { name: String::from_str("zero"), domain: Vec::new(), codomain: SortSymbol::new("Nat") };
        let mut nat_dom: Vec<SortSymbol> = Vec::new();
        nat_dom.push(SortSymbol::new("Nat"));
        let succ = FunctionSymbol { name: String::from_str("succ"), domain: nat_dom, codomain: SortSymbol::new("Nat") };
        proof {
            assert(zero@.domain =~= seq![]);
            assert(zero@ == zero_sym());
            assert(succ@.domain =~= seq!["Nat"@]);
            assert(succ@ == succ_sym());
        }
        self.ensure_nat_symbol(zero.copy());
        self.ensure_nat_symbol(succ.copy());
        if value > 16 {
            let num = decimal_string(value);
            let m = concat3("literal ", num.as_str(), " expanded into a succ-chain; small model bounds will not represent it");
            self.warnings.push(m);
        }
        let mut term = Term::App { function: zero, args: Vec::new() };
        proof {
            assert(crate::formula::terms_view(Seq::<Term>::empty()) =~= seq![]);
        }
        let mut k: u64 = 0;
        while k < value
            invariant
                k <= value,
                term@ == succ_chain(k as nat),
                succ@ == succ_sym(),
            decreases value - k,
        {
            let mut args: Vec<Term> = Vec::new();
            args.push(term);
            term = Term::App { function: succ.copy(), args };
            proof {
                assert(crate::formula::terms_view(args@) =~= seq![succ_chain(k as nat)]);
            }
            k = k + 1;
        }
        term
    }
}

/// [`terms_tr`], opaque.
#[verifier::opaque]
pub open spec fn terms_tr_o(st: TrS, filt: Set<Seq<char>>, es: Seq<IRExprV>, stack: Seq<(Seq<char>, Seq<char>)>) -> (
    TrS,
    Option<Seq<TermV>>,
) {
    terms_tr(st, filt, es, stack)
}

/// [`term_tr`], opaque.
#[verifier::opaque]
pub open spec fn term_tr_o(st: TrS, e: IRExprV, stack: Seq<(Seq<char>, Seq<char>)>) -> (TrS, Option<TermV>) {
    term_tr(st, e, stack)
}

/// One step of [`terms_tr`]: the translation so far, extended by `e`.
pub open spec fn terms_step(prev: (TrS, Option<Seq<TermV>>), filt: Set<Seq<char>>, e: IRExprV, stack: Seq<(Seq<char>, Seq<char>)>) -> (
    TrS,
    Option<Seq<TermV>>,
) {
    match prev.1 {
        Some(ts) => if type_arg_noise(filt, e) {
            prev
        } else {
            let (s2, t) = term_tr_o(prev.0, e, stack);
            match t {
                Some(t) => (s2, Some(ts.push(t))),
                None => (s2, None),
            }
        },
        None => prev,
    }
}

proof fn lemma_terms_step(st: TrS, filt: Set<Seq<char>>, es: Seq<IRExprV>, stack: Seq<(Seq<char>, Seq<char>)>, i: int)
    requires
        0 <= i < es.len(),
    ensures
        terms_tr_o(st, filt, es.subrange(0, i + 1), stack) == terms_step(terms_tr_o(st, filt, es.subrange(0, i), stack), filt, es[i], stack),
{
    reveal(terms_tr_o);
    reveal(term_tr_o);
    assert(es.subrange(0, i + 1).drop_last() =~= es.subrange(0, i));
    assert(es.subrange(0, i + 1).last() == es[i]);
}

proof fn lemma_terms_err_stop(st: TrS, filt: Set<Seq<char>>, es: Seq<IRExprV>, stack: Seq<(Seq<char>, Seq<char>)>, i: int, m: int)
    requires
        0 <= i < m <= es.len(),
        terms_tr(st, filt, es.subrange(0, i), stack).1 is Some,
        terms_tr(st, filt, es.subrange(0, i + 1), stack).1 is None,
    ensures
        terms_err(st, filt, es.subrange(0, m), stack) == term_err(terms_tr(st, filt, es.subrange(0, i), stack).0, es[i], stack),
    decreases m,
{
    let sm = es.subrange(0, m);
    assert(sm.drop_last() =~= es.subrange(0, m - 1));
    if m == i + 1 {
        assert(sm.last() == es[i]);
    } else {
        lemma_terms_err_stop(st, filt, es, stack, i, m - 1);
        lemma_terms_tr_stop(st, filt, es, stack, i + 1, m - 1);
    }
}

proof fn lemma_terms_tr_o_stop(st: TrS, filt: Set<Seq<char>>, es: Seq<IRExprV>, stack: Seq<(Seq<char>, Seq<char>)>, k: int)
    requires
        0 <= k <= es.len(),
        terms_tr_o(st, filt, es.subrange(0, k), stack).1 is None,
    ensures
        terms_tr(st, filt, es, stack) == terms_tr_o(st, filt, es.subrange(0, k), stack),
{
    reveal(terms_tr_o);
    lemma_terms_tr_stop(st, filt, es, stack, k, es.len() as int);
    assert(es.subrange(0, es.len() as int) =~= es);
}

proof fn lemma_terms_tr_stop(st: TrS, filt: Set<Seq<char>>, es: Seq<IRExprV>, stack: Seq<(Seq<char>, Seq<char>)>, k: int, m: int)
    requires
        0 <= k <= m <= es.len(),
        terms_tr(st, filt, es.subrange(0, k), stack).1 is None,
    ensures
        terms_tr(st, filt, es.subrange(0, m), stack) == terms_tr(st, filt, es.subrange(0, k), stack),
    decreases m - k,
{
        if m > k {
        lemma_terms_tr_stop(st, filt, es, stack, k, m - 1);
        assert(es.subrange(0, m).drop_last() =~= es.subrange(0, m - 1));
    }
}

/// A short name for an expression node.
pub open spec fn kind_name(e: IRExprV) -> Seq<char> {
    match e {
        IRExprV::Var(_) => "var"@,
        IRExprV::App(_, _) => "app"@,
        IRExprV::Forall(_, _, _) => "forall"@,
        IRExprV::Exists(_, _, _) => "exists"@,
        IRExprV::And(_, _) => "and"@,
        IRExprV::Or(_, _) => "or"@,
        IRExprV::Not(_) => "not"@,
        IRExprV::Implies(_, _) => "implies"@,
        IRExprV::Iff(_, _) => "iff"@,
        IRExprV::Eq(_, _) => "eq"@,
        IRExprV::Neq(_, _) => "neq"@,
        IRExprV::Leq(_, _) => "leq"@,
        IRExprV::Lt(_, _) => "lt"@,
        IRExprV::Mem(_, _) => "mem"@,
        IRExprV::NatLit(_) => "nat_lit"@,
        IRExprV::True => "true"@,
        IRExprV::False => "false"@,
        IRExprV::Unsupported(_) => "unsupported"@,
    }
}

/// A short name for an expression node.
pub fn node_kind(e: &IRExpr) -> (r: &'static str)
    ensures
        r@ == kind_name(e@),
{
    match e {
        IRExpr::Var { .. } => "var",
        IRExpr::App { .. } => "app",
        IRExpr::Forall { .. } => "forall",
        IRExpr::Exists { .. } => "exists",
        IRExpr::And { .. } => "and",
        IRExpr::Or { .. } => "or",
        IRExpr::Not { .. } => "not",
        IRExpr::Implies { .. } => "implies",
        IRExpr::Iff { .. } => "iff",
        IRExpr::Eq { .. } => "eq",
        IRExpr::Neq { .. } => "neq",
        IRExpr::Leq { .. } => "leq",
        IRExpr::Lt { .. } => "lt",
        IRExpr::Mem { .. } => "mem",
        IRExpr::NatLit { .. } => "nat_lit",
        IRExpr::True => "true",
        IRExpr::False => "false",
        IRExpr::Unsupported { .. } => "unsupported",
    }
}

impl Translation {
    fn is_type_arg(&self, e: &IRExpr) -> (r: bool)
        ensures
            r == type_arg_noise(self@.sorts, e@),
    {
        match e {
            IRExpr::App { fn_name, args } => {
                proof {
                    assert(e@ == IRExprV::App(fn_name@, crate::ir_types::exprs_view(args@)));
                }
                args.len() == 0 && crate::translator::has_name(&self.sorts, fn_name.as_str())
            },
            _ => false,
        }
    }

    /// Translate an expression in term position (see [`term_tr`]).
    /// Translate an expression in term position (see [`term_tr`]).
    pub(crate) fn term(&mut self, e: &IRExpr, stack: &Vec<(String, String)>) -> (r: Result<Term, String>)
        requires
            old(self).wf(),
        ensures
            warnings_kept(old(self).warnings@, final(self).warnings@),
            final(self).wf(),
            final(self)@.sorts == old(self)@.sorts,
            final(self)@.arity == old(self)@.arity,
            final(self)@ == term_tr(old(self)@, e@, stack_view(stack@)).0,
            term_res(r) == term_tr(old(self)@, e@, stack_view(stack@)).1,
            r matches Err(m) ==> m@ == term_err(old(self)@, e@, stack_view(stack@)),
        decreases e, 0nat,
    {
        let ghost st0 = self@;
        let ghost sv = stack_view(stack@);
        match e {
            IRExpr::Var { name } => match var_position(stack, name.as_str()) {
                Some(i) => {
                    proof {
                        assert(e@ == IRExprV::Var(name@));
                        assert(term_tr(st0, e@, sv) == (st0, Some(TermV::Var(i as nat))));
                    }
                    Ok(Term::Var(i))
                },
                None => {
                    let f = self.ensure_const(name.as_str());
                    let t = Term::App { function: f, args: Vec::new() };
                    proof {
                        assert(e@ == IRExprV::Var(name@));
                        assert(crate::formula::terms_view(Seq::<Term>::empty()) =~= seq![]);
                        assert(term_tr(st0, e@, sv) == (self@, Some(t@)));
                    }
                    Ok(t)
                },
            },
            IRExpr::NatLit { value } => {
                let t = self.nat_literal(*value);
                proof {
                    assert(e@ == IRExprV::NatLit(*value));
                    assert(term_tr(st0, e@, sv) == (self@, Some(t@)));
                }
                Ok(t)
            },
            IRExpr::App { fn_name, args } => {
                proof {
                    assert(decreases_to!(e => args));
                    assert(e@ == IRExprV::App(fn_name@, crate::ir_types::exprs_view(args@)));
                }
                match self.terms(args, stack) {
                    Ok(ts) => {
                        let ghost s1 = self@;
                        let f = self.ensure_fun(fn_name.as_str(), &ts, stack);
                        let ghost tsv = crate::formula::terms_view(ts@);
                        let t = Term::App { function: f, args: ts };
                        proof {
                            assert(t@ == TermV::App(f@, tsv));
                            assert(st0.sorts == st0.sorts);
                            assert(terms_tr(st0, st0.sorts, crate::ir_types::exprs_view(args@), sv).1 == Some(tsv));
                            assert(terms_tr(st0, st0.sorts, crate::ir_types::exprs_view(args@), sv).0 == s1);
                            assert(ensure_function(s1, fn_name@, tsv, sv) == (self@, f@));
                            assert(term_tr(st0, e@, sv) == (self@, Some(t@)));
                        }
                        Ok(t)
                    },
                    Err(m) => {
                        proof {
                            assert(term_tr(st0, e@, sv) == (self@, None::<TermV>));
                            assert(term_err(st0, e@, sv) == terms_err(st0, st0.sorts, crate::ir_types::exprs_view(args@), sv));
                        }
                        Err(m)
                    },
                }
            },
            _ => {
                proof {
                    assert(term_tr(st0, e@, sv) == (st0, None::<TermV>));
                }
                match e {
                    IRExpr::Unsupported { description } => {
                        proof {
                            assert(e@ == IRExprV::Unsupported(description@));
                            reveal_strlit("");
                            assert(""@ =~= Seq::<char>::empty());
                        }
                        Err(concat3("unsupported node: ", description.as_str(), ""))
                    },
                    _ => {
                        let k = node_kind(e);
                        proof {
                            assert(!(e@ is App) && !(e@ is Unsupported) && !(e@ is Var) && !(e@ is NatLit));
                            assert(term_err(st0, e@, sv) == "context mismatch: expected term, got propositional node \""@ + kind_name(e@)
                                + "\""@);
                        }
                        Err(concat3("context mismatch: expected term, got propositional node \"", k, "\""))
                    },
                }
            },
        }
    }

    /// Translate a list of expressions in term position, skipping type
    /// arguments (see [`terms_tr`]).
    #[verifier::rlimit(60)]
    pub(crate) fn terms(&mut self, es: &Vec<IRExpr>, stack: &Vec<(String, String)>) -> (r: Result<Vec<Term>, String>)
        requires
            old(self).wf(),
        ensures
            warnings_kept(old(self).warnings@, final(self).warnings@),
            final(self).wf(),
            final(self)@.sorts == old(self)@.sorts,
            final(self)@.arity == old(self)@.arity,
            final(self)@ == terms_tr(old(self)@, old(self)@.sorts, crate::ir_types::exprs_view(es@), stack_view(stack@)).0,
            terms_res(r) == terms_tr(old(self)@, old(self)@.sorts, crate::ir_types::exprs_view(es@), stack_view(stack@)).1,
            r matches Err(m) ==> m@ == terms_err(old(self)@, old(self)@.sorts, crate::ir_types::exprs_view(es@), stack_view(stack@)),
        decreases es, 1nat,
    {
        let ghost st0 = self@;
        let ghost w0 = self.warnings@;
        let ghost ev = crate::ir_types::exprs_view(es@);
        let ghost sv = stack_view(stack@);
        let mut out: Vec<Term> = Vec::new();
        let mut i: usize = 0;
        let mut failure: Option<String> = None;
        proof {
            reveal(terms_tr_o);
            assert(ev.subrange(0, 0) =~= Seq::<IRExprV>::empty());
            assert(crate::formula::terms_view(out@) =~= seq![]);
        }
        while i < es.len()
            invariant_except_break
                failure is None,
                terms_tr_o(st0, st0.sorts, ev.subrange(0, i as int), sv) == (self@, Some(crate::formula::terms_view(out@))),
            invariant
                i <= es@.len(),
                self.wf(),
                self@.sorts == st0.sorts,
                self@.arity == st0.arity,
                ev == crate::ir_types::exprs_view(es@),
                sv == stack_view(stack@),
                warnings_kept(w0, self.warnings@),
            ensures
                failure is Some ==> terms_tr(st0, st0.sorts, ev, sv) == (self@, None::<Seq<TermV>>),
                failure matches Some(m) ==> m@ == terms_err(st0, st0.sorts, ev, sv),
                failure is None ==> i == es@.len() && terms_tr_o(st0, st0.sorts, ev.subrange(0, i as int), sv) == (self@, Some(crate::formula::terms_view(out@))),
            decreases es.len() - i,
        {
            proof {
                assert(decreases_to!(es => es[i as int]));
                assert(ev[i as int] == es@[i as int]@);
                lemma_terms_step(st0, st0.sorts, ev, sv, i as int);
            }
            if !self.is_type_arg(&es[i]) {
                let ghost sb = self@;
                let ghost ob = crate::formula::terms_view(out@);
                match self.term(&es[i], stack) {
                    Ok(t) => {
                        proof {
                            assert(term_tr_o(sb, ev[i as int], sv) == (self@, Some(t@))) by {
                                reveal(term_tr_o);
                            }
                        }
                        out.push(t);
                        proof {
                            assert(crate::formula::terms_view(out@) =~= ob.push(t@));
                        }
                    },
                    Err(m) => {
                        proof {
                            assert(term_tr_o(sb, ev[i as int], sv) == (self@, None::<TermV>)) by {
                                reveal(term_tr_o);
                            }
                            lemma_terms_tr_o_stop(st0, st0.sorts, ev, sv, i + 1);
                            reveal(terms_tr_o);
                            lemma_terms_err_stop(st0, st0.sorts, ev, sv, i as int, ev.len() as int);
                            assert(ev.subrange(0, ev.len() as int) =~= ev);
                        }
                        failure = Some(m);
                        break;
                    },
                }
            }
            i = i + 1;
        }
        match failure {
            Some(m) => {
                return Err(m);
            },
            None => {},
        }
        proof {
            assert(ev.subrange(0, i as int) =~= ev);
            reveal(terms_tr_o);
        }
        Ok(out)
    }

    fn term_pair(&mut self, l: &IRExpr, r: &IRExpr, stack: &Vec<(String, String)>) -> (res: Result<(Term, Term), String>)
        requires
            old(self).wf(),
        ensures
            warnings_kept(old(self).warnings@, final(self).warnings@),
            final(self).wf(),
            final(self)@ == term_pair_tr(old(self)@, l@, r@, stack_view(stack@)).0,
            (match res {
                Ok(p) => Some((p.0@, p.1@)),
                Err(_) => None,
            }) == term_pair_tr(old(self)@, l@, r@, stack_view(stack@)).1,
            res matches Err(m) ==> m@ == term_pair_err(old(self)@, l@, r@, stack_view(stack@)),
    {
        match self.term(l, stack) {
            Ok(a) => match self.term(r, stack) {
                Ok(b) => Ok((a, b)),
                Err(m) => Err(m),
            },
            Err(m) => Err(m),
        }
    }

    fn atom_of(&mut self, name: &str, s1: String, s2: String, l: Term, r: Term) -> (f: Formula)
        requires
            old(self).wf(),
        ensures
            warnings_kept(old(self).warnings@, final(self).warnings@),
            final(self).wf(),
            (final(self)@, f@) == ({
                let (st, g) = ensure_relation(old(self)@, name@, seq![s1@, s2@]);
                (st, FormulaV::Atom(g, seq![l@, r@]))
            }),
    {
        let mut arity: Vec<SortSymbol> = Vec::new();
        arity.push(SortSymbol { name: s1 });
        arity.push(SortSymbol { name: s2 });
        proof {
            assert(sort_names(arity@) =~= seq![s1@, s2@]);
        }
        let g = self.ensure_rel(name, arity);
        let mut args: Vec<Term> = Vec::new();
        args.push(l);
        args.push(r);
        proof {
            assert(crate::formula::terms_view(args@) =~= seq![l@, r@]);
        }
        Formula::Atom { relation: g, args }
    }

    /// Translate an expression in proposition position (see [`prop_tr`]).
    #[verifier::rlimit(60)]
    pub(crate) fn prop(&mut self, e: &IRExpr, stack: &mut Vec<(String, String)>) -> (res: Result<Formula, String>)
        requires
            old(self).wf(),
        ensures
            warnings_kept(old(self).warnings@, final(self).warnings@),
            final(self).wf(),
            final(stack)@ == old(stack)@,
            final(self)@ == prop_tr(old(self)@, e@, stack_view(old(stack)@)).0,
            prop_res(res) == prop_tr(old(self)@, e@, stack_view(old(stack)@)).1,
            res matches Err(m) ==> m@ == prop_err(old(self)@, e@, stack_view(old(stack)@)),
        decreases e, 2nat,
    {
        proof {
            reveal(prop_tr);
        }
        match e {
            IRExpr::True => Ok(Formula::Top),
            IRExpr::False => Ok(Formula::Bot),
            IRExpr::And { .. } => self.prop_and(e, stack),
            IRExpr::Or { .. } => self.prop_or(e, stack),
            IRExpr::Implies { .. } => self.prop_implies(e, stack),
            IRExpr::Iff { .. } => self.prop_iff(e, stack),
            IRExpr::Not { .. } => self.prop_not(e, stack),
            IRExpr::Forall { .. } | IRExpr::Exists { .. } => self.prop_binder(e, stack),
            IRExpr::Eq { .. } | IRExpr::Neq { .. } | IRExpr::Leq { .. } | IRExpr::Lt { .. } | IRExpr::Mem { .. } => self.prop_compare(e, stack),
            IRExpr::App { .. } => self.prop_app(e, stack),
            IRExpr::Var { name } => {
                proof {
                    assert(e@ == IRExprV::Var(name@));
                }
                Err(concat3("context mismatch: expected proposition, got bare variable reference '", name.as_str(), "'"))
            },
            IRExpr::NatLit { value } => {
                let d = decimal_string(*value);
                proof {
                    assert(e@ == IRExprV::NatLit(*value));
                    reveal_strlit("");
                    assert(""@ =~= Seq::<char>::empty());
                }
                Err(concat3("context mismatch: expected proposition, got nat literal ", d.as_str(), ""))
            },
            IRExpr::Unsupported { description } => {
                proof {
                    assert(e@ == IRExprV::Unsupported(description@));
                    reveal_strlit("");
                    assert(""@ =~= Seq::<char>::empty());
                }
                Err(concat3("unsupported node: ", description.as_str(), ""))
            },
        }
    }

    fn prop_not(&mut self, e: &IRExpr, stack: &mut Vec<(String, String)>) -> (res: Result<Formula, String>)
        requires
            old(self).wf(),
            e is Not,
        ensures
            warnings_kept(old(self).warnings@, final(self).warnings@),
            final(self).wf(),
            final(stack)@ == old(stack)@,
            final(self)@ == prop_tr(old(self)@, e@, stack_view(old(stack)@)).0,
            prop_res(res) == prop_tr(old(self)@, e@, stack_view(old(stack)@)).1,
            res matches Err(m) ==> m@ == prop_err(old(self)@, e@, stack_view(old(stack)@)),
        decreases e, 1nat,
    {
        proof {
            reveal(prop_tr);
        }
        match e {
            IRExpr::Not { body } => {
                proof {
                    assert(e@ == IRExprV::Not(Box::new(body@)));
                }
                match self.prop(body, stack) {
                    Ok(x) => Ok(Formula::Not(Box::new(x))),
                    Err(m) => Err(m),
                }
            },
            _ => Err(String::from_str("unexpected node")),
        }
    }

    fn prop_and(&mut self, e: &IRExpr, stack: &mut Vec<(String, String)>) -> (res: Result<Formula, String>)
        requires
            old(self).wf(),
            e is And,
        ensures
            warnings_kept(old(self).warnings@, final(self).warnings@),
            final(self).wf(),
            final(stack)@ == old(stack)@,
            final(self)@ == prop_tr(old(self)@, e@, stack_view(old(stack)@)).0,
            prop_res(res) == prop_tr(old(self)@, e@, stack_view(old(stack)@)).1,
            res matches Err(m) ==> m@ == prop_err(old(self)@, e@, stack_view(old(stack)@)),
        decreases e, 1nat,
    {
        proof {
            reveal(prop_tr);
            reveal(pair_tr);
        }
        let ghost st0 = self@;
        let ghost sv0 = stack_view(stack@);
        let (left, right) = match e {
            IRExpr::And { left, right } => (left, right),
            _ => {
                return Err(String::from_str("unexpected node"));
            },
        };
        proof {
            assert(e@ == IRExprV::And(Box::new(left@), Box::new(right@)));
        }
        let a = match self.prop(left, stack) {
            Ok(a) => a,
            Err(m) => {
                proof {
                    assert(pair_tr(st0, e@, sv0) == (self@, None::<(FormulaV, FormulaV)>));
                }
                return Err(m);
            },
        };
        let ghost s1 = self@;
        let b = match self.prop(right, stack) {
            Ok(b) => b,
            Err(m) => {
                proof {
                    assert(prop_tr(st0, left@, sv0) == (s1, Some(a@)));
                    assert(pair_tr(st0, e@, sv0) == (self@, None::<(FormulaV, FormulaV)>));
                }
                return Err(m);
            },
        };
        proof {
            assert(prop_tr(st0, left@, sv0) == (s1, Some(a@)));
            assert(pair_tr(st0, e@, sv0) == (self@, Some((a@, b@))));
        }
        Ok(Formula::And(Box::new(a), Box::new(b)))
    }

    fn prop_or(&mut self, e: &IRExpr, stack: &mut Vec<(String, String)>) -> (res: Result<Formula, String>)
        requires
            old(self).wf(),
            e is Or,
        ensures
            warnings_kept(old(self).warnings@, final(self).warnings@),
            final(self).wf(),
            final(stack)@ == old(stack)@,
            final(self)@ == prop_tr(old(self)@, e@, stack_view(old(stack)@)).0,
            prop_res(res) == prop_tr(old(self)@, e@, stack_view(old(stack)@)).1,
            res matches Err(m) ==> m@ == prop_err(old(self)@, e@, stack_view(old(stack)@)),
        decreases e, 1nat,
    {
        proof {
            reveal(prop_tr);
            reveal(pair_tr);
        }
        let ghost st0 = self@;
        let ghost sv0 = stack_view(stack@);
        let (left, right) = match e {
            IRExpr::Or { left, right } => (left, right),
            _ => {
                return Err(String::from_str("unexpected node"));
            },
        };
        proof {
            assert(e@ == IRExprV::Or(Box::new(left@), Box::new(right@)));
        }
        let a = match self.prop(left, stack) {
            Ok(a) => a,
            Err(m) => {
                proof {
                    assert(pair_tr(st0, e@, sv0) == (self@, None::<(FormulaV, FormulaV)>));
                }
                return Err(m);
            },
        };
        let ghost s1 = self@;
        let b = match self.prop(right, stack) {
            Ok(b) => b,
            Err(m) => {
                proof {
                    assert(prop_tr(st0, left@, sv0) == (s1, Some(a@)));
                    assert(pair_tr(st0, e@, sv0) == (self@, None::<(FormulaV, FormulaV)>));
                }
                return Err(m);
            },
        };
        proof {
            assert(prop_tr(st0, left@, sv0) == (s1, Some(a@)));
            assert(pair_tr(st0, e@, sv0) == (self@, Some((a@, b@))));
        }
        Ok(Formula::Or(Box::new(a), Box::new(b)))
    }

    fn prop_implies(&mut self, e: &IRExpr, stack: &mut Vec<(String, String)>) -> (res: Result<Formula, String>)
        requires
            old(self).wf(),
            e is Implies,
        ensures
            warnings_kept(old(self).warnings@, final(self).warnings@),
            final(self).wf(),
            final(stack)@ == old(stack)@,
            final(self)@ == prop_tr(old(self)@, e@, stack_view(old(stack)@)).0,
            prop_res(res) == prop_tr(old(self)@, e@, stack_view(old(stack)@)).1,
            res matches Err(m) ==> m@ == prop_err(old(self)@, e@, stack_view(old(stack)@)),
        decreases e, 1nat,
    {
        proof {
            reveal(prop_tr);
            reveal(pair_tr);
        }
        let ghost st0 = self@;
        let ghost sv0 = stack_view(stack@);
        let (left, right) = match e {
            IRExpr::Implies { left, right } => (left, right),
            _ => {
                return Err(String::from_str("unexpected node"));
            },
        };
        proof {
            assert(e@ == IRExprV::Implies(Box::new(left@), Box::new(right@)));
        }
        let a = match self.prop(left, stack) {
            Ok(a) => a,
            Err(m) => {
                proof {
                    assert(pair_tr(st0, e@, sv0) == (self@, None::<(FormulaV, FormulaV)>));
                }
                return Err(m);
            },
        };
        let ghost s1 = self@;
        let b = match self.prop(right, stack) {
            Ok(b) => b,
            Err(m) => {
                proof {
                    assert(prop_tr(st0, left@, sv0) == (s1, Some(a@)));
                    assert(pair_tr(st0, e@, sv0) == (self@, None::<(FormulaV, FormulaV)>));
                }
                return Err(m);
            },
        };
        proof {
            assert(prop_tr(st0, left@, sv0) == (s1, Some(a@)));
            assert(pair_tr(st0, e@, sv0) == (self@, Some((a@, b@))));
        }
        let ghost av = a@;
        let ghost bv = b@;
        let na = Formula::Not(Box::new(a));
        proof {
            assert(na@ == FormulaV::Not(Box::new(av)));
        }
        let f = Formula::Or(Box::new(na), Box::new(b));
        proof {
            assert(f@ == implies_v(av, bv));
            assert(prop_tr(st0, e@, sv0) == (self@, Some(implies_v(av, bv))));
        }
        Ok(f)
    }

    fn prop_iff(&mut self, e: &IRExpr, stack: &mut Vec<(String, String)>) -> (res: Result<Formula, String>)
        requires
            old(self).wf(),
            e is Iff,
        ensures
            warnings_kept(old(self).warnings@, final(self).warnings@),
            final(self).wf(),
            final(stack)@ == old(stack)@,
            final(self)@ == prop_tr(old(self)@, e@, stack_view(old(stack)@)).0,
            prop_res(res) == prop_tr(old(self)@, e@, stack_view(old(stack)@)).1,
            res matches Err(m) ==> m@ == prop_err(old(self)@, e@, stack_view(old(stack)@)),
        decreases e, 1nat,
    {
        proof {
            reveal(prop_tr);
            reveal(pair_tr);
        }
        let ghost st0 = self@;
        let ghost sv0 = stack_view(stack@);
        let (left, right) = match e {
            IRExpr::Iff { left, right } => (left, right),
            _ => {
                return Err(String::from_str("unexpected node"));
            },
        };
        proof {
            assert(e@ == IRExprV::Iff(Box::new(left@), Box::new(right@)));
        }
        let a = match self.prop(left, stack) {
            Ok(a) => a,
            Err(m) => {
                proof {
                    assert(pair_tr(st0, e@, sv0) == (self@, None::<(FormulaV, FormulaV)>));
                }
                return Err(m);
            },
        };
        let ghost s1 = self@;
        let b = match self.prop(right, stack) {
            Ok(b) => b,
            Err(m) => {
                proof {
                    assert(prop_tr(st0, left@, sv0) == (s1, Some(a@)));
                    assert(pair_tr(st0, e@, sv0) == (self@, None::<(FormulaV, FormulaV)>));
                }
                return Err(m);
            },
        };
        proof {
            assert(prop_tr(st0, left@, sv0) == (s1, Some(a@)));
            assert(pair_tr(st0, e@, sv0) == (self@, Some((a@, b@))));
        }
        let ghost av = a@;
        let ghost bv = b@;
        let a2 = a.clone();
        let b2 = b.clone();
        let na = Formula::Not(Box::new(a));
        let nb = Formula::Not(Box::new(b2));
        proof {
            assert(na@ == FormulaV::Not(Box::new(av)));
            assert(nb@ == FormulaV::Not(Box::new(bv)));
        }
        let f1 = Formula::Or(Box::new(na), Box::new(b));
        let f2 = Formula::Or(Box::new(nb), Box::new(a2));
        proof {
            assert(f1@ == implies_v(av, bv));
            assert(f2@ == implies_v(bv, av));
        }
        let f = Formula::And(Box::new(f1), Box::new(f2));
        proof {
            assert(f@ == iff_v(av, bv));
            assert(prop_tr(st0, e@, sv0) == (self@, Some(iff_v(av, bv))));
        }
        Ok(f)
    }

    fn prop_binder(&mut self, e: &IRExpr, stack: &mut Vec<(String, String)>) -> (res: Result<Formula, String>)
        requires
            old(self).wf(),
            e is Forall || e is Exists,
        ensures
            warnings_kept(old(self).warnings@, final(self).warnings@),
            final(self).wf(),
            final(stack)@ == old(stack)@,
            final(self)@ == prop_tr(old(self)@, e@, stack_view(old(stack)@)).0,
            prop_res(res) == prop_tr(old(self)@, e@, stack_view(old(stack)@)).1,
            res matches Err(m) ==> m@ == prop_err(old(self)@, e@, stack_view(old(stack)@)),
        decreases e, 1nat,
    {
        proof {
            reveal(prop_tr);
        }
        let (var, sort, body, universal) = match e {
            IRExpr::Forall { var, sort, body } => (var, sort, body, true),
            IRExpr::Exists { var, sort, body } => (var, sort, body, false),
            _ => {
                return Err(String::from_str("not a quantifier"));
            },
        };
        let s = self.resolve(sort.as_str());
        let ghost old_stack = stack@;
        stack.push((var.clone(), s.clone()));
        proof {
            assert(stack_view(stack@) =~= stack_view(old_stack).push((var@, s@)));
        }
        let inner = self.prop(body, stack);
        stack.pop();
        proof {
            assert(stack@ =~= old_stack);
        }
        match inner {
            Ok(x) => if universal {
                Ok(Formula::Forall { sort: SortSymbol { name: s }, body: Box::new(x) })
            } else {
                Ok(Formula::Exists { sort: SortSymbol { name: s }, body: Box::new(x) })
            },
            Err(m) => Err(m),
        }
    }

    fn prop_compare(&mut self, e: &IRExpr, stack: &mut Vec<(String, String)>) -> (res: Result<Formula, String>)
        requires
            old(self).wf(),
            e is Eq || e is Neq || e is Leq || e is Lt || e is Mem,
        ensures
            warnings_kept(old(self).warnings@, final(self).warnings@),
            final(self).wf(),
            final(stack)@ == old(stack)@,
            final(self)@ == prop_tr(old(self)@, e@, stack_view(old(stack)@)).0,
            prop_res(res) == prop_tr(old(self)@, e@, stack_view(old(stack)@)).1,
            res matches Err(m) ==> m@ == prop_err(old(self)@, e@, stack_view(old(stack)@)),
    {
        proof {
            reveal(prop_tr);
        }
        let (left, right) = match e {
            IRExpr::Eq { left, right } | IRExpr::Neq { left, right } | IRExpr::Leq { left, right } | IRExpr::Lt {
                left,
                right,
            } => (left, right),
            IRExpr::Mem { element, collection } => (element, collection),
            _ => {
                return Err(String::from_str("not a comparison"));
            },
        };
        let p = match self.term_pair(left, right, stack) {
            Ok(p) => p,
            Err(m) => {
                return Err(m);
            },
        };
        match e {
            IRExpr::Eq { .. } => Ok(Formula::Eq(p.0, p.1)),
            IRExpr::Neq { .. } => Ok(Formula::Neq(p.0, p.1)),
            IRExpr::Mem { .. } => {
                let a = match self.infer_term_sort(&p.0, stack) {
                    Some(x) => x,
                    None => String::from_str("Nat"),
                };
                let b = match self.infer_term_sort(&p.1, stack) {
                    Some(x) => x,
                    None => String::from_str("Nat"),
                };
                Ok(self.atom_of("mem", a, b, p.0, p.1))
            },
            _ => {
                let s = match self.infer_term_sort(&p.0, stack) {
                    Some(x) => x,
                    None => String::from_str("Nat"),
                };
                let name = match e {
                    IRExpr::Leq { .. } => "leq",
                    _ => "lt",
                };
                Ok(self.atom_of(name, s.clone(), s, p.0, p.1))
            },
        }
    }

    fn prop_app(&mut self, e: &IRExpr, stack: &mut Vec<(String, String)>) -> (res: Result<Formula, String>)
        requires
            old(self).wf(),
            e is App,
        ensures
            warnings_kept(old(self).warnings@, final(self).warnings@),
            final(self).wf(),
            final(stack)@ == old(stack)@,
            final(self)@ == prop_tr(old(self)@, e@, stack_view(old(stack)@)).0,
            prop_res(res) == prop_tr(old(self)@, e@, stack_view(old(stack)@)).1,
            res matches Err(m) ==> m@ == prop_err(old(self)@, e@, stack_view(old(stack)@)),
    {
        proof {
            reveal(prop_tr);
        }
        let (fn_name, args) = match e {
            IRExpr::App { fn_name, args } => (fn_name, args),
            _ => {
                return Err(String::from_str("not an application"));
            },
        };
        match find_arity(&self.arity, fn_name.as_str()) {
            Some(i) => {
                proof {
                    lemma_aget_at(arity_view(self.arity@), i as int, fn_name@, arity_view(self.arity@)[i as int].1);
                }
                let ar = copy_sorts(&self.arity[i].1);
                match self.terms(args, stack) {
                    Ok(ts) => Ok(Formula::Atom { relation: RelationSymbol { name: fn_name.clone(), arity: ar }, args: ts }),
                    Err(m) => Err(m),
                }
            },
            None => Err(concat3("context mismatch: expected proposition, got function application '", fn_name.as_str(), "'")),
        }
    }
}

impl Translation {
    /// The relation symbol of the predicate `name`, if declared.
    pub(crate) fn declared_relation(&self, name: &str) -> (r: Option<RelationSymbol>)
        requires
            self.wf(),
        ensures
            (match r {
                Some(g) => Some(g@),
                None => None,
            }) == rget(self@.drel, name@),
    {
        match find_rel(&self.drel, name) {
            Some(i) => {
                proof {
                    lemma_rget_at(rel_views(self.drel@), i as int, rel_views(self.drel@)[i as int]);
                }
                Some(self.drel[i].copy())
            },
            None => None,
        }
    }

    /// Record a diagnostic.
    pub(crate) fn warn(&mut self, m: String)
        requires
            old(self).wf(),
        ensures
            warnings_kept(old(self).warnings@, final(self).warnings@),
            final(self).wf(),
            final(self)@ == old(self)@,
            final(self).warnings@ == old(self).warnings@.push(m),
    {
        self.warnings.push(m);
    }

    /// A state knowing the given sorts and nothing else.
    pub(crate) fn with_sorts(sorts: Vec<String>, warnings: Vec<String>) -> (r: Self)
        requires
            distinct_strings(sorts@),
        ensures
            r.wf(),
            r@ == (TrS {
                sorts: names_set(sorts@),
                dfun: seq![],
                afun: seq![],
                drel: seq![],
                arel: seq![],
                arity: seq![],
            }),
            r.warnings@ == warnings@,
    {
        let r = Translation {
            sorts,
            dfun: Vec::new(),
            afun: Vec::new(),
            drel: Vec::new(),
            arel: Vec::new(),
            arity: Vec::new(),
            warnings,
        };
        proof {
            assert(fun_views(r.dfun@) =~= seq![]);
            assert(fun_views(r.afun@) =~= seq![]);
            assert(rel_views(r.drel@) =~= seq![]);
            assert(rel_views(r.arel@) =~= seq![]);
            assert(arity_view(r.arity@) =~= seq![]);
        }
        r
    }

    /// Resolve a list of sort names (see [`resolve_sorts`]).
    pub(crate) fn resolve_all(&mut self, names: &Vec<String>) -> (r: Vec<SortSymbol>)
        requires
            old(self).wf(),
        ensures
            warnings_kept(old(self).warnings@, final(self).warnings@),
            final(self).wf(),
            (final(self)@, sort_names(r@)) == resolve_sorts(old(self)@, crate::ir_types::strings_view(names@)),
    {
        let ghost st0 = self@;
        let ghost w0 = self.warnings@;
        let ghost nv = crate::ir_types::strings_view(names@);
        let mut out: Vec<SortSymbol> = Vec::new();
        let mut i: usize = 0;
        proof {
            assert(nv.subrange(0, 0) =~= Seq::<Seq<char>>::empty());
            assert(sort_names(out@) =~= seq![]);
        }
        while i < names.len()
            invariant
                i <= names@.len(),
                self.wf(),
                nv == crate::ir_types::strings_view(names@),
                (self@, sort_names(out@)) == resolve_sorts(st0, nv.subrange(0, i as int)),
                warnings_kept(w0, self.warnings@),
            decreases names.len() - i,
        {
            proof {
                assert(nv.subrange(0, i + 1).drop_last() =~= nv.subrange(0, i as int));
                assert(nv.subrange(0, i + 1).last() == names@[i as int]@);
            }
            let ghost ob = sort_names(out@);
            let s = self.resolve(names[i].as_str());
            out.push(SortSymbol { name: s });
            proof {
                assert(sort_names(out@) =~= ob.push(s@));
            }
            i = i + 1;
        }
        proof {
            assert(nv.subrange(0, i as int) =~= nv);
        }
        out
    }

    /// Store a declared function symbol under its name.
    pub(crate) fn put_dfun(&mut self, f: FunctionSymbol)
        requires
            old(self).wf(),
        ensures
            warnings_kept(old(self).warnings@, final(self).warnings@),
            final(self).wf(),
            final(self)@ == (TrS { dfun: fput(old(self)@.dfun, f@), ..old(self)@ }),
    {
        let ghost old_d = fun_views(self.dfun@);
        match find_fun(&self.dfun, f.name.as_str()) {
            Some(i) => {
                proof {
                    lemma_fget_at(old_d, i as int, f@);
                }
                self.dfun.set(i, f);
                proof {
                    assert(fun_views(self.dfun@) =~= old_d.update(i as int, f@));
                }
            },
            None => {
                proof {
                    lemma_fget_none(old_d, f@);
                }
                self.dfun.push(f);
                proof {
                    assert(fun_views(self.dfun@) =~= old_d.push(f@));
                }
            },
        }
    }

    /// Store a predicate's arity and relation symbol under its name.
    pub(crate) fn put_predicate(&mut self, name: &String, arity: Vec<SortSymbol>)
        requires
            old(self).wf(),
        ensures
            warnings_kept(old(self).warnings@, final(self).warnings@),
            final(self).wf(),
            final(self)@ == (TrS {
                arity: aput(old(self)@.arity, name@, sort_names(arity@)),
                drel: rput(old(self)@.drel, RelSym { name: name@, arity: sort_names(arity@) }),
                ..old(self)@
            }),
    {
        let ghost old_a = arity_view(self.arity@);
        let ghost old_r = rel_views(self.drel@);
        let g = RelationSymbol { name: name.clone(), arity: copy_sorts(&arity) };
        match find_arity(&self.arity, name.as_str()) {
            Some(i) => {
                proof {
                    lemma_aget_at(old_a, i as int, name@, sort_names(arity@));
                }
                self.arity.set(i, (name.clone(), arity));
                proof {
                    assert(arity_view(self.arity@) =~= old_a.update(i as int, (name@, sort_names(arity@))));
                }
            },
            None => {
                proof {
                    lemma_aget_none(old_a, name@, sort_names(arity@));
                }
                self.arity.push((name.clone(), arity));
                proof {
                    assert(arity_view(self.arity@) =~= old_a.push((name@, sort_names(arity@))));
                }
            },
        }
        match find_rel(&self.drel, name.as_str()) {
            Some(i) => {
                proof {
                    lemma_rget_at(old_r, i as int, g@);
                }
                self.drel.set(i, g);
                proof {
                    assert(rel_views(self.drel@) =~= old_r.update(i as int, g@));
                }
            },
            None => {
                proof {
                    lemma_rget_none(old_r, g@);
                }
                self.drel.push(g);
                proof {
                    assert(rel_views(self.drel@) =~= old_r.push(g@));
                }
            },
        }
    }
}

impl Translation {
    /// The diagnostics collected.
    pub(crate) fn into_warnings(self) -> (r: Vec<String>)
        ensures
            r@ == self.warnings@,
    {
        self.warnings
    }

    /// The sorts, the function symbols (declared ones, then those declared
    /// on first use under a name not declared) and the relation symbols
    /// (likewise) of the state.
    pub(crate) fn symbols(&self) -> (r: (Vec<SortSymbol>, Vec<FunctionSymbol>, Vec<RelationSymbol>))
        requires
            self.wf(),
        ensures
            forall|x: Seq<char>| #[trigger] sort_names(r.0@).contains(x) <==> self@.sorts.contains(x),
            forall|g: FunSym| #[trigger] fun_views(r.1@).contains(g) <==> (self@.dfun.contains(g) || (self@.afun.contains(g)
                && fget(self@.dfun, g.name) is None)),
            forall|g: RelSym| #[trigger] rel_views(r.2@).contains(g) <==> (self@.drel.contains(g) || (self@.arel.contains(g)
                && rget(self@.drel, g.name) is None)),
            crate::signature::no_repeats(crate::signature::keys(r.0@)),
            crate::signature::no_repeats(crate::signature::keys(r.1@)),
            crate::signature::no_repeats(crate::signature::keys(r.2@)),
    {
        let mut sorts: Vec<SortSymbol> = Vec::new();
        let mut i: usize = 0;
        while i < self.sorts.len()
            invariant
                i <= self.sorts@.len(),
                sorts@.len() == i,
                forall|k: int| 0 <= k < i ==> (#[trigger] sorts@[k]).name@ == self.sorts@[k]@,
            decreases self.sorts.len() - i,
        {
            sorts.push(SortSymbol { name: self.sorts[i].clone() });
            i = i + 1;
        }
        proof {
            assert forall|x: Seq<char>| #[trigger] sort_names(sorts@).contains(x) <==> names_set(self.sorts@).contains(x) by {
                if sort_names(sorts@).contains(x) {
                    let k = choose|k: int| 0 <= k < sorts@.len() && sort_names(sorts@)[k] == x;
                    assert(self.sorts@[k]@ == x);
                }
                if names_set(self.sorts@).contains(x) {
                    let k = choose|k: int| 0 <= k < self.sorts@.len() && (#[trigger] self.sorts@[k])@ == x;
                    assert(sort_names(sorts@)[k] == x);
                }
            }
            let ks = crate::signature::keys(sorts@);
            assert forall|k: int| 0 <= k < ks.len() implies !crate::signature::repeats_earlier(ks, k) by {
                if crate::signature::repeats_earlier(ks, k) {
                    let j = choose|j: int| 0 <= j < k && ks[j] == ks[k];
                    assert(sorts@[j].name@ == self.sorts@[j]@);
                    assert(sorts@[k].name@ == self.sorts@[k]@);
                }
            }
        }
        let mut fns: Vec<FunctionSymbol> = Vec::new();
        let mut i: usize = 0;
        while i < self.dfun.len()
            invariant
                i <= self.dfun@.len(),
                fns@.len() == i,
                forall|k: int| 0 <= k < i ==> (#[trigger] fns@[k])@ == self.dfun@[k]@,
                forall|g: FunSym| #[trigger] fun_views(fns@).contains(g) <==> fun_views(self.dfun@).subrange(0, i as int).contains(g),
            decreases self.dfun.len() - i,
        {
            let ghost b = fun_views(fns@);
            fns.push(self.dfun[i].copy());
            proof {
                assert(fun_views(fns@) =~= b.push(self.dfun@[i as int]@));
                assert(fun_views(self.dfun@).subrange(0, i + 1) =~= fun_views(self.dfun@).subrange(0, i as int).push(self.dfun@[i as int]@));
                assert forall|g: FunSym| #[trigger] fun_views(fns@).contains(g) <==> fun_views(self.dfun@).subrange(0, i + 1).contains(g) by {
                    crate::translator::lemma_push_contains(b, self.dfun@[i as int]@, g);
                    crate::translator::lemma_push_contains(fun_views(self.dfun@).subrange(0, i as int), self.dfun@[i as int]@, g);
                }
            }
            i = i + 1;
        }
        proof {
            assert(fun_views(self.dfun@).subrange(0, i as int) =~= fun_views(self.dfun@));
        }
        let ghost nd = self.dfun@.len() as int;
        let ghost mut ax: Seq<int> = seq![];
        let mut i: usize = 0;
        while i < self.afun.len()
            invariant
                self.wf(),
                i <= self.afun@.len(),
                nd == self.dfun@.len(),
                fns@.len() == nd + ax.len(),
                forall|k: int| 0 <= k < nd ==> (#[trigger] fns@[k])@ == self.dfun@[k]@,
                forall|t: int| 0 <= t < ax.len() ==> 0 <= #[trigger] ax[t] < i && fns@[nd + t]@ == self.afun@[ax[t]]@
                    && fget(fun_views(self.dfun@), self.afun@[ax[t]]@.name) is None,
                forall|a: int, b: int| 0 <= a < b < ax.len() ==> #[trigger] ax[a] < #[trigger] ax[b],
                forall|g: FunSym| #[trigger] fun_views(fns@).contains(g) <==> (fun_views(self.dfun@).contains(g) || (
                    fun_views(self.afun@).subrange(0, i as int).contains(g) && fget(fun_views(self.dfun@), g.name) is None)),
            decreases self.afun.len() - i,
        {
            let ghost b = fun_views(fns@);
            let g0 = &self.afun[i];
            let found = find_fun(&self.dfun, g0.name.as_str());
            proof {
                assert(fun_views(self.afun@).subrange(0, i + 1) =~= fun_views(self.afun@).subrange(0, i as int).push(g0@));
                if let Some(j) = found {
                    lemma_fget_at(fun_views(self.dfun@), j as int, fun_views(self.dfun@)[j as int]);
                } else {
                    assert(fget(fun_views(self.dfun@), g0@.name) is None);
                }
            }
            if found.is_none() {
                fns.push(g0.copy());
                proof {
                    assert(fun_views(fns@) =~= b.push(g0@));
                    ax = ax.push(i as int);
                }
            }
            proof {
                assert forall|g: FunSym| #[trigger] fun_views(fns@).contains(g) <==> (fun_views(self.dfun@).contains(g) || (
                    fun_views(self.afun@).subrange(0, i + 1).contains(g) && fget(fun_views(self.dfun@), g.name) is None)) by {
                    crate::translator::lemma_push_contains(b, g0@, g);
                    crate::translator::lemma_push_contains(fun_views(self.afun@).subrange(0, i as int), g0@, g);
                }
            }
            i = i + 1;
        }
        proof {
            assert(fun_views(self.afun@).subrange(0, i as int) =~= fun_views(self.afun@));
            let kf = crate::signature::keys(fns@);
            assert forall|k: int| 0 <= k < kf.len() implies !crate::signature::repeats_earlier(kf, k) by {
                if crate::signature::repeats_earlier(kf, k) {
                    let j = choose|j: int| 0 <= j < k && kf[j] == kf[k];
                    assert(fns@[j].name@ == fns@[j]@.name);
                    assert(fns@[k].name@ == fns@[k]@.name);
                    if k < nd {
                        assert(fun_views(self.dfun@)[j].name != fun_views(self.dfun@)[k].name);
                    } else if j < nd {
                        let t = k - nd;
                        assert(fun_views(self.dfun@)[j].name == self.afun@[ax[t]]@.name);
                    } else {
                        let t1 = j - nd;
                        let t2 = k - nd;
                        assert(ax[t1] < ax[t2]);
                        assert(fun_views(self.afun@)[ax[t1]].name != fun_views(self.afun@)[ax[t2]].name);
                    }
                }
            }
        }
        let mut rels: Vec<RelationSymbol> = Vec::new();
        let mut i: usize = 0;
        while i < self.drel.len()
            invariant
                i <= self.drel@.len(),
                rels@.len() == i,
                forall|k: int| 0 <= k < i ==> (#[trigger] rels@[k])@ == self.drel@[k]@,
                forall|g: RelSym| #[trigger] rel_views(rels@).contains(g) <==> rel_views(self.drel@).subrange(0, i as int).contains(g),
            decreases self.drel.len() - i,
        {
            let ghost b = rel_views(rels@);
            rels.push(self.drel[i].copy());
            proof {
                assert(rel_views(rels@) =~= b.push(self.drel@[i as int]@));
                assert(rel_views(self.drel@).subrange(0, i + 1) =~= rel_views(self.drel@).subrange(0, i as int).push(self.drel@[i as int]@));
                assert forall|g: RelSym| #[trigger] rel_views(rels@).contains(g) <==> rel_views(self.drel@).subrange(0, i + 1).contains(g) by {
                    crate::translator::lemma_push_contains(b, self.drel@[i as int]@, g);
                    crate::translator::lemma_push_contains(rel_views(self.drel@).subrange(0, i as int), self.drel@[i as int]@, g);
                }
            }
            i = i + 1;
        }
        proof {
            assert(rel_views(self.drel@).subrange(0, i as int) =~= rel_views(self.drel@));
        }
        let ghost nr = self.drel@.len() as int;
        let ghost mut rx: Seq<int> = seq![];
        let mut i: usize = 0;
        while i < self.arel.len()
            invariant
                self.wf(),
                i <= self.arel@.len(),
                nr == self.drel@.len(),
                rels@.len() == nr + rx.len(),
                forall|k: int| 0 <= k < nr ==> (#[trigger] rels@[k])@ == self.drel@[k]@,
                forall|t: int| 0 <= t < rx.len() ==> 0 <= #[trigger] rx[t] < i && rels@[nr + t]@ == self.arel@[rx[t]]@
                    && rget(rel_views(self.drel@), self.arel@[rx[t]]@.name) is None,
                forall|a: int, b: int| 0 <= a < b < rx.len() ==> #[trigger] rx[a] < #[trigger] rx[b],
                forall|g: RelSym| #[trigger] rel_views(rels@).contains(g) <==> (rel_views(self.drel@).contains(g) || (
                    rel_views(self.arel@).subrange(0, i as int).contains(g) && rget(rel_views(self.drel@), g.name) is None)),
            decreases self.arel.len() - i,
        {
            let ghost b = rel_views(rels@);
            let g0 = &self.arel[i];
            let found = find_rel(&self.drel, g0.name.as_str());
            proof {
                assert(rel_views(self.arel@).subrange(0, i + 1) =~= rel_views(self.arel@).subrange(0, i as int).push(g0@));
                if let Some(j) = found {
                    lemma_rget_at(rel_views(self.drel@), j as int, rel_views(self.drel@)[j as int]);
                } else {
                    assert(rget(rel_views(self.drel@), g0@.name) is None);
                }
            }
            if found.is_none() {
                rels.push(g0.copy());
                proof {
                    assert(rel_views(rels@) =~= b.push(g0@));
                    rx = rx.push(i as int);
                }
            }
            proof {
                assert forall|g: RelSym| #[trigger] rel_views(rels@).contains(g) <==> (rel_views(self.drel@).contains(g) || (
                    rel_views(self.arel@).subrange(0, i + 1).contains(g) && rget(rel_views(self.drel@), g.name) is None)) by {
                    crate::translator::lemma_push_contains(b, g0@, g);
                    crate::translator::lemma_push_contains(rel_views(self.arel@).subrange(0, i as int), g0@, g);
                }
            }
            i = i + 1;
        }
        proof {
            assert(rel_views(self.arel@).subrange(0, i as int) =~= rel_views(self.arel@));
            let kr = crate::signature::keys(rels@);
            assert forall|k: int| 0 <= k < kr.len() implies !crate::signature::repeats_earlier(kr, k) by {
                if crate::signature::repeats_earlier(kr, k) {
                    let j = choose|j: int| 0 <= j < k && kr[j] == kr[k];
                    assert(rels@[j].name@ == rels@[j]@.name);
                    assert(rels@[k].name@ == rels@[k]@.name);
                    if k < nr {
                        assert(rel_views(self.drel@)[j].name != rel_views(self.drel@)[k].name);
                    } else if j < nr {
                        let t = k - nr;
                        assert(rel_views(self.drel@)[j].name == self.arel@[rx[t]]@.name);
                    } else {
                        let t1 = j - nr;
                        let t2 = k - nr;
                        assert(rx[t1] < rx[t2]);
                        assert(rel_views(self.arel@)[rx[t1]].name != rel_views(self.arel@)[rx[t2]].name);
                    }
                }
            }
        }
        (sorts, fns, rels)
    }
}

} // verus!
