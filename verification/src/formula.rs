//! First-order formulas in negation normal form, with de Bruijn-indexed
//! variables.
//!
//! [`Formula`] can hold a [`Formula::Not`] node so that external input can
//! be represented before normalization; after [`Formula::to_nnf`] no `Not`
//! node remains and negation appears only at the atomic level (`NegAtom`,
//! `Neq`).
//!
//! Every formula has an abstract value ([`FormulaV`]) in which symbols are
//! replaced by their abstract values; all contracts speak of those.
use vstd::prelude::*;
use std::cmp::Ordering;
use crate::names::{
    lemma_lex_lt_trans, lemma_lex_order_antisym, lemma_lex_order_zero_eq, lex_order, compare_str, str_eq,
};
use crate::signature::{
    copy_sorts, sort_names, FunSym, FunctionSymbol, RelSym, RelationSymbol, SortSymbol,
};

verus! {

broadcast use vstd::std_specs::vec::group_vec_axioms;

/// A term in first-order logic.
///
/// Bound variables use de Bruijn indices: `Var(0)` is the innermost binder,
/// `Var(1)` the next outer one, and so on.
#[derive(Debug, PartialEq, Eq, Hash, PartialOrd, Ord)]
pub enum Term {
    /// de Bruijn index for a bound or free variable.
    Var(usize),
    /// Function application: f(t₁, …, tₙ).
    App {
        /// The function symbol being applied.
        function: FunctionSymbol,
        /// The arguments, in order.
        args: Vec<Term>,
    },
}

/// A first-order formula.  The variant order is the canonical order
/// `Bot < Top < Atom < NegAtom < Eq < Neq < And < Or < Forall < Exists`,
/// with `Not` last.
#[derive(Debug, PartialEq, Eq, Hash, PartialOrd, Ord)]
pub enum Formula {
    /// ⊥ (false).
    Bot,
    /// ⊤ (true).
    Top,
    /// R(t₁, …, tₙ).
    Atom {
        /// The relation symbol being applied.
        relation: RelationSymbol,
        /// The arguments, in order.
        args: Vec<Term>,
    },
    /// ¬R(t₁, …, tₙ) — negation only at the atomic level.
    NegAtom {
        /// The relation symbol being applied.
        relation: RelationSymbol,
        /// The arguments, in order.
        args: Vec<Term>,
    },
    /// t₁ = t₂.
    Eq(Term, Term),
    /// t₁ ≠ t₂.
    Neq(Term, Term),
    /// φ₁ ∧ φ₂.
    And(Box<Formula>, Box<Formula>),
    /// φ₁ ∨ φ₂.
    Or(Box<Formula>, Box<Formula>),
    /// ∀x:S. φ  (binds de Bruijn index 0 in φ).
    Forall {
        /// The sort of the bound variable.
        sort: SortSymbol,
        /// The body of the quantifier.
        body: Box<Formula>,
    },
    /// ∃x:S. φ.
    Exists {
        /// The sort of the bound variable.
        sort: SortSymbol,
        /// The body of the quantifier.
        body: Box<Formula>,
    },
    /// General negation, eliminated by [`Formula::to_nnf`].
    Not(Box<Formula>),
}

/// Abstract value of a term.
pub enum TermV {
    Var(nat),
    App(FunSym, Seq<TermV>),
}

/// Abstract value of a formula.
pub enum FormulaV {
    Bot,
    Top,
    Atom(RelSym, Seq<TermV>),
    NegAtom(RelSym, Seq<TermV>),
    Eq(TermV, TermV),
    Neq(TermV, TermV),
    And(Box<FormulaV>, Box<FormulaV>),
    Or(Box<FormulaV>, Box<FormulaV>),
    Forall(Seq<char>, Box<FormulaV>),
    Exists(Seq<char>, Box<FormulaV>),
    Not(Box<FormulaV>),
}

pub open spec fn term_view(t: Term) -> TermV
    decreases t,
{
    match t {
        Term::Var(i) => TermV::Var(i as nat),
        Term::App { function, args } => {
            proof {
                assert(decreases_to!(args => args@));
            }
            TermV::App(function@, terms_view(args@))
        },
    }
}

pub open spec fn terms_view(ts: Seq<Term>) -> Seq<TermV>
    decreases ts,
{
    Seq::new(ts.len(), |i: int| if 0 <= i < ts.len() { term_view(ts[i]) } else { TermV::Var(0) })
}

pub open spec fn formula_view(f: Formula) -> FormulaV
    decreases f,
{
    match f {
        Formula::Bot => FormulaV::Bot,
        Formula::Top => FormulaV::Top,
        Formula::Atom { relation, args } => FormulaV::Atom(relation@, terms_view(args@)),
        Formula::NegAtom { relation, args } => FormulaV::NegAtom(relation@, terms_view(args@)),
        Formula::Eq(a, b) => FormulaV::Eq(term_view(a), term_view(b)),
        Formula::Neq(a, b) => FormulaV::Neq(term_view(a), term_view(b)),
        Formula::And(l, r) => FormulaV::And(Box::new(formula_view(*l)), Box::new(formula_view(*r))),
        Formula::Or(l, r) => FormulaV::Or(Box::new(formula_view(*l)), Box::new(formula_view(*r))),
        Formula::Forall { sort, body } => FormulaV::Forall(sort.name@, Box::new(formula_view(*body))),
        Formula::Exists { sort, body } => FormulaV::Exists(sort.name@, Box::new(formula_view(*body))),
        Formula::Not(inner) => FormulaV::Not(Box::new(formula_view(*inner))),
    }
}

impl View for Term {
    type V = TermV;

    open spec fn view(&self) -> TermV {
        term_view(*self)
    }
}

impl View for Formula {
    type V = FormulaV;

    open spec fn view(&self) -> FormulaV {
        formula_view(*self)
    }
}

/// Abstract values of a sequence of formulas.
pub open spec fn formulas_view(fs: Seq<Formula>) -> Seq<FormulaV> {
    fs.map_values(|f: Formula| f@)
}

// ---------------------------------------------------------------------------
// Negation normal form
// ---------------------------------------------------------------------------

/// Push negations inward: the NNF of `f` when `positive`, the NNF of `¬f`
/// otherwise.
pub open spec fn nnf_pol(f: FormulaV, positive: bool) -> FormulaV
    decreases f,
{
    match f {
        FormulaV::Bot => if positive { FormulaV::Bot } else { FormulaV::Top },
        FormulaV::Top => if positive { FormulaV::Top } else { FormulaV::Bot },
        FormulaV::Atom(r, a) => if positive { FormulaV::Atom(r, a) } else { FormulaV::NegAtom(r, a) },
        FormulaV::NegAtom(r, a) => if positive { FormulaV::NegAtom(r, a) } else { FormulaV::Atom(r, a) },
        FormulaV::Eq(a, b) => if positive { FormulaV::Eq(a, b) } else { FormulaV::Neq(a, b) },
        FormulaV::Neq(a, b) => if positive { FormulaV::Neq(a, b) } else { FormulaV::Eq(a, b) },
        FormulaV::And(l, r) => if positive {
            FormulaV::And(Box::new(nnf_pol(*l, true)), Box::new(nnf_pol(*r, true)))
        } else {
            FormulaV::Or(Box::new(nnf_pol(*l, false)), Box::new(nnf_pol(*r, false)))
        },
        FormulaV::Or(l, r) => if positive {
            FormulaV::Or(Box::new(nnf_pol(*l, true)), Box::new(nnf_pol(*r, true)))
        } else {
            FormulaV::And(Box::new(nnf_pol(*l, false)), Box::new(nnf_pol(*r, false)))
        },
        FormulaV::Forall(s, b) => if positive {
            FormulaV::Forall(s, Box::new(nnf_pol(*b, true)))
        } else {
            FormulaV::Exists(s, Box::new(nnf_pol(*b, false)))
        },
        FormulaV::Exists(s, b) => if positive {
            FormulaV::Exists(s, Box::new(nnf_pol(*b, true)))
        } else {
            FormulaV::Forall(s, Box::new(nnf_pol(*b, false)))
        },
        FormulaV::Not(g) => nnf_pol(*g, !positive),
    }
}

/// The negation normal form of `f`.
pub open spec fn nnf(f: FormulaV) -> FormulaV {
    nnf_pol(f, true)
}

/// `f` contains no `Not` node.
pub open spec fn is_nnf(f: FormulaV) -> bool
    decreases f,
{
    match f {
        FormulaV::Not(_) => false,
        FormulaV::And(l, r) => is_nnf(*l) && is_nnf(*r),
        FormulaV::Or(l, r) => is_nnf(*l) && is_nnf(*r),
        FormulaV::Forall(_, b) => is_nnf(*b),
        FormulaV::Exists(_, b) => is_nnf(*b),
        _ => true,
    }
}

/// The quantifier rank: the maximum nesting depth of quantifiers.
pub open spec fn rank(f: FormulaV) -> nat
    decreases f,
{
    match f {
        FormulaV::And(l, r) => if rank(*l) >= rank(*r) { rank(*l) } else { rank(*r) },
        FormulaV::Or(l, r) => if rank(*l) >= rank(*r) { rank(*l) } else { rank(*r) },
        FormulaV::Forall(_, b) => 1 + rank(*b),
        FormulaV::Exists(_, b) => 1 + rank(*b),
        FormulaV::Not(g) => rank(*g),
        _ => 0,
    }
}

/// Normalization yields a formula without `Not` nodes.
pub proof fn lemma_nnf_pol_is_nnf(f: FormulaV, positive: bool)
    ensures
        is_nnf(nnf_pol(f, positive)),
    decreases f,
{
    match f {
        FormulaV::And(l, r) => {
            lemma_nnf_pol_is_nnf(*l, positive);
            lemma_nnf_pol_is_nnf(*r, positive);
        },
        FormulaV::Or(l, r) => {
            lemma_nnf_pol_is_nnf(*l, positive);
            lemma_nnf_pol_is_nnf(*r, positive);
        },
        FormulaV::Forall(_, b) => lemma_nnf_pol_is_nnf(*b, positive),
        FormulaV::Exists(_, b) => lemma_nnf_pol_is_nnf(*b, positive),
        FormulaV::Not(g) => lemma_nnf_pol_is_nnf(*g, !positive),
        _ => {},
    }
}

/// Negating a normalized formula is normalizing the negation.
pub proof fn lemma_nnf_pol_compose(f: FormulaV, p: bool, q: bool)
    ensures
        nnf_pol(nnf_pol(f, p), q) == nnf_pol(f, p == q),
    decreases f,
{
    match f {
        FormulaV::And(l, r) => {
            lemma_nnf_pol_compose(*l, p, q);
            lemma_nnf_pol_compose(*r, p, q);
        },
        FormulaV::Or(l, r) => {
            lemma_nnf_pol_compose(*l, p, q);
            lemma_nnf_pol_compose(*r, p, q);
        },
        FormulaV::Forall(_, b) => lemma_nnf_pol_compose(*b, p, q),
        FormulaV::Exists(_, b) => lemma_nnf_pol_compose(*b, p, q),
        FormulaV::Not(g) => lemma_nnf_pol_compose(*g, !p, q),
        _ => {},
    }
}

/// Normalization keeps the quantifier rank.
pub proof fn lemma_nnf_pol_rank(f: FormulaV, positive: bool)
    ensures
        rank(nnf_pol(f, positive)) == rank(f),
    decreases f,
{
    match f {
        FormulaV::And(l, r) => {
            lemma_nnf_pol_rank(*l, positive);
            lemma_nnf_pol_rank(*r, positive);
        },
        FormulaV::Or(l, r) => {
            lemma_nnf_pol_rank(*l, positive);
            lemma_nnf_pol_rank(*r, positive);
        },
        FormulaV::Forall(_, b) => lemma_nnf_pol_rank(*b, positive),
        FormulaV::Exists(_, b) => lemma_nnf_pol_rank(*b, positive),
        FormulaV::Not(g) => lemma_nnf_pol_rank(*g, !positive),
        _ => {},
    }
}

/// A formula already in NNF is left unchanged by normalization.
pub proof fn lemma_nnf_of_nnf(f: FormulaV)
    requires
        is_nnf(f),
    ensures
        nnf(f) == f,
    decreases f,
{
    match f {
        FormulaV::And(l, r) => {
            lemma_nnf_of_nnf(*l);
            lemma_nnf_of_nnf(*r);
        },
        FormulaV::Or(l, r) => {
            lemma_nnf_of_nnf(*l);
            lemma_nnf_of_nnf(*r);
        },
        FormulaV::Forall(_, b) => lemma_nnf_of_nnf(*b),
        FormulaV::Exists(_, b) => lemma_nnf_of_nnf(*b),
        _ => {},
    }
}

// ---------------------------------------------------------------------------
// Free variables, substitution, atoms
// ---------------------------------------------------------------------------

/// Variable `x` (interpreted `depth` binders up) occurs free in `t`.
pub open spec fn term_has_free(t: TermV, depth: nat, x: nat) -> bool
    decreases t,
{
    match t {
        TermV::Var(i) => i >= depth && i - depth == x,
        TermV::App(_, args) => args_free(args, depth, x),
    }
}

/// Variable `x` occurs free in one of `args` (recursive form).
pub open spec fn args_free(args: Seq<TermV>, depth: nat, x: nat) -> bool
    decreases args,
{
    if args.len() == 0 {
        false
    } else {
        term_has_free(args[0], depth, x) || args_free(args.subrange(1, args.len() as int), depth, x)
    }
}

/// Variable `x` occurs free in one of `args`.
pub open spec fn args_have_free(args: Seq<TermV>, depth: nat, x: nat) -> bool {
    exists|k: int| 0 <= k < args.len() && term_has_free(#[trigger] args[k], depth, x)
}

/// Variable `x` (interpreted at `depth`) occurs free in `f`.
pub open spec fn has_free(f: FormulaV, depth: nat, x: nat) -> bool
    decreases f,
{
    match f {
        FormulaV::Atom(_, args) => args_have_free(args, depth, x),
        FormulaV::NegAtom(_, args) => args_have_free(args, depth, x),
        FormulaV::Eq(a, b) => term_has_free(a, depth, x) || term_has_free(b, depth, x),
        FormulaV::Neq(a, b) => term_has_free(a, depth, x) || term_has_free(b, depth, x),
        FormulaV::And(l, r) => has_free(*l, depth, x) || has_free(*r, depth, x),
        FormulaV::Or(l, r) => has_free(*l, depth, x) || has_free(*r, depth, x),
        FormulaV::Forall(_, b) => has_free(*b, depth + 1, x),
        FormulaV::Exists(_, b) => has_free(*b, depth + 1, x),
        FormulaV::Not(g) => has_free(*g, depth, x),
        _ => false,
    }
}

/// `f` has no free variable.
pub open spec fn is_sentence_spec(f: FormulaV) -> bool {
    forall|x: nat| !has_free(f, 0, x)
}

/// Shift every variable of `t` up by `by`.
pub open spec fn shift(t: TermV, by: nat) -> TermV
    decreases t,
{
    match t {
        TermV::Var(i) => TermV::Var(i + by),
        TermV::App(f, args) => TermV::App(f, shift_args(args, by)),
    }
}

pub open spec fn shift_args(args: Seq<TermV>, by: nat) -> Seq<TermV>
    decreases args,
{
    Seq::new(args.len(), |k: int| if 0 <= k < args.len() { shift(args[k], by) } else { TermV::Var(0) })
}

/// Replace variable `index` (at `depth`) by `term` in `t`.
pub open spec fn subst_term(t: TermV, index: nat, term: TermV, depth: nat) -> TermV
    decreases t,
{
    match t {
        TermV::Var(i) => if i == index + depth { shift(term, depth) } else { TermV::Var(i) },
        TermV::App(f, args) => TermV::App(f, subst_args(args, index, term, depth)),
    }
}

pub open spec fn subst_args(args: Seq<TermV>, index: nat, term: TermV, depth: nat) -> Seq<TermV>
    decreases args,
{
    Seq::new(
        args.len(),
        |k: int| if 0 <= k < args.len() { subst_term(args[k], index, term, depth) } else { TermV::Var(0) },
    )
}

/// Replace the free variable `index` (at `depth`) by `term` in `f`,
/// shifting `term` as binders are crossed.
pub open spec fn subst(f: FormulaV, index: nat, term: TermV, depth: nat) -> FormulaV
    decreases f,
{
    match f {
        FormulaV::Bot => FormulaV::Bot,
        FormulaV::Top => FormulaV::Top,
        FormulaV::Atom(r, args) => FormulaV::Atom(r, subst_args(args, index, term, depth)),
        FormulaV::NegAtom(r, args) => FormulaV::NegAtom(r, subst_args(args, index, term, depth)),
        FormulaV::Eq(a, b) => FormulaV::Eq(subst_term(a, index, term, depth), subst_term(b, index, term, depth)),
        FormulaV::Neq(a, b) => FormulaV::Neq(subst_term(a, index, term, depth), subst_term(b, index, term, depth)),
        FormulaV::And(l, r) => FormulaV::And(
            Box::new(subst(*l, index, term, depth)),
            Box::new(subst(*r, index, term, depth)),
        ),
        FormulaV::Or(l, r) => FormulaV::Or(
            Box::new(subst(*l, index, term, depth)),
            Box::new(subst(*r, index, term, depth)),
        ),
        FormulaV::Forall(s, b) => FormulaV::Forall(s, Box::new(subst(*b, index, term, depth + 1))),
        FormulaV::Exists(s, b) => FormulaV::Exists(s, Box::new(subst(*b, index, term, depth + 1))),
        FormulaV::Not(g) => FormulaV::Not(Box::new(subst(*g, index, term, depth))),
    }
}

/// Largest variable index in `t` (0 when there is none).
pub open spec fn max_var(t: TermV) -> nat
    decreases t,
{
    match t {
        TermV::Var(i) => i,
        TermV::App(_, args) => max_var_args(args),
    }
}

pub open spec fn max_var_args(args: Seq<TermV>) -> nat
    decreases args,
{
    if args.len() == 0 {
        0
    } else {
        let a = max_var(args[0]);
        let b = max_var_args(args.subrange(1, args.len() as int));
        if a >= b { a } else { b }
    }
}

/// Largest variable index in a formula (0 when there is none).
pub open spec fn max_var_formula(f: FormulaV) -> nat
    decreases f,
{
    match f {
        FormulaV::Atom(_, args) => max_var_args(args),
        FormulaV::NegAtom(_, args) => max_var_args(args),
        FormulaV::Eq(a, b) => if max_var(a) >= max_var(b) { max_var(a) } else { max_var(b) },
        FormulaV::Neq(a, b) => if max_var(a) >= max_var(b) { max_var(a) } else { max_var(b) },
        FormulaV::And(l, r) => if max_var_formula(*l) >= max_var_formula(*r) { max_var_formula(*l) } else { max_var_formula(*r) },
        FormulaV::Or(l, r) => if max_var_formula(*l) >= max_var_formula(*r) { max_var_formula(*l) } else { max_var_formula(*r) },
        FormulaV::Forall(_, b) => max_var_formula(*b),
        FormulaV::Exists(_, b) => max_var_formula(*b),
        FormulaV::Not(g) => max_var_formula(*g),
        _ => 0,
    }
}

/// The atomic subformulas (`Atom` and `NegAtom`), left to right.
pub open spec fn atoms_spec(f: FormulaV) -> Seq<FormulaV>
    decreases f,
{
    match f {
        FormulaV::Atom(_, _) => seq![f],
        FormulaV::NegAtom(_, _) => seq![f],
        FormulaV::And(l, r) => atoms_spec(*l) + atoms_spec(*r),
        FormulaV::Or(l, r) => atoms_spec(*l) + atoms_spec(*r),
        FormulaV::Forall(_, b) => atoms_spec(*b),
        FormulaV::Exists(_, b) => atoms_spec(*b),
        FormulaV::Not(g) => atoms_spec(*g),
        _ => Seq::empty(),
    }
}

/// Left-associated conjunction of `s`, ⊤ when empty.
pub open spec fn conj_spec(s: Seq<FormulaV>) -> FormulaV
    decreases s.len(),
{
    if s.len() == 0 {
        FormulaV::Top
    } else if s.len() == 1 {
        s[0]
    } else {
        FormulaV::And(Box::new(conj_spec(s.drop_last())), Box::new(s.last()))
    }
}

/// Left-associated disjunction of `s`, ⊥ when empty.
pub open spec fn disj_spec(s: Seq<FormulaV>) -> FormulaV
    decreases s.len(),
{
    if s.len() == 0 {
        FormulaV::Bot
    } else if s.len() == 1 {
        s[0]
    } else {
        FormulaV::Or(Box::new(disj_spec(s.drop_last())), Box::new(s.last()))
    }
}

// ---------------------------------------------------------------------------
// Canonical order (the derived order of the concrete types)
// ---------------------------------------------------------------------------

/// Lexicographic three-way comparison of sequences of names.
pub open spec fn names_order(a: Seq<Seq<char>>, b: Seq<Seq<char>>) -> int
    decreases a.len(),
{
    if a.len() == 0 {
        if b.len() == 0 { 0 } else { -1 }
    } else if b.len() == 0 {
        1
    } else if lex_order(a[0], b[0]) != 0 {
        lex_order(a[0], b[0])
    } else {
        names_order(a.drop_first(), b.drop_first())
    }
}

/// Order of function symbols: name, then domain, then codomain.
pub open spec fn fun_order(a: FunSym, b: FunSym) -> int {
    if lex_order(a.name, b.name) != 0 {
        lex_order(a.name, b.name)
    } else if names_order(a.domain, b.domain) != 0 {
        names_order(a.domain, b.domain)
    } else {
        lex_order(a.codomain, b.codomain)
    }
}

/// Order of relation symbols: name, then arity.
pub open spec fn rel_order(a: RelSym, b: RelSym) -> int {
    if lex_order(a.name, b.name) != 0 {
        lex_order(a.name, b.name)
    } else {
        names_order(a.arity, b.arity)
    }
}

/// Three-way order of terms: variables before applications; variables by
/// index; applications by symbol, then arguments.
pub open spec fn term_order(a: TermV, b: TermV) -> int
    decreases a,
{
    match (a, b) {
        (TermV::Var(i), TermV::Var(j)) => if i < j { -1 } else if i > j { 1 } else { 0 },
        (TermV::Var(_), TermV::App(_, _)) => -1,
        (TermV::App(_, _), TermV::Var(_)) => 1,
        (TermV::App(f, xs), TermV::App(g, ys)) => if fun_order(f, g) != 0 {
            fun_order(f, g)
        } else {
            args_order(xs, ys)
        },
    }
}

/// Lexicographic order of argument lists.
pub open spec fn args_order(a: Seq<TermV>, b: Seq<TermV>) -> int
    decreases a,
{
    if a.len() == 0 {
        if b.len() == 0 { 0 } else { -1 }
    } else if b.len() == 0 {
        1
    } else if term_order(a[0], b[0]) != 0 {
        term_order(a[0], b[0])
    } else {
        args_order(a.subrange(1, a.len() as int), b.subrange(1, b.len() as int))
    }
}

/// Position of a formula's variant in the canonical order.
pub open spec fn variant_index(f: FormulaV) -> int {
    match f {
        FormulaV::Bot => 0,
        FormulaV::Top => 1,
        FormulaV::Atom(_, _) => 2,
        FormulaV::NegAtom(_, _) => 3,
        FormulaV::Eq(_, _) => 4,
        FormulaV::Neq(_, _) => 5,
        FormulaV::And(_, _) => 6,
        FormulaV::Or(_, _) => 7,
        FormulaV::Forall(_, _) => 8,
        FormulaV::Exists(_, _) => 9,
        FormulaV::Not(_) => 10,
    }
}

/// Three-way canonical order of formulas: by variant, then field by field.
pub open spec fn formula_order(a: FormulaV, b: FormulaV) -> int
    decreases a,
{
    if variant_index(a) < variant_index(b) {
        -1
    } else if variant_index(a) > variant_index(b) {
        1
    } else {
        match (a, b) {
            (FormulaV::Atom(r, xs), FormulaV::Atom(s, ys)) => if rel_order(r, s) != 0 {
                rel_order(r, s)
            } else {
                args_order(xs, ys)
            },
            (FormulaV::NegAtom(r, xs), FormulaV::NegAtom(s, ys)) => if rel_order(r, s) != 0 {
                rel_order(r, s)
            } else {
                args_order(xs, ys)
            },
            (FormulaV::Eq(x1, x2), FormulaV::Eq(y1, y2)) => if term_order(x1, y1) != 0 {
                term_order(x1, y1)
            } else {
                term_order(x2, y2)
            },
            (FormulaV::Neq(x1, x2), FormulaV::Neq(y1, y2)) => if term_order(x1, y1) != 0 {
                term_order(x1, y1)
            } else {
                term_order(x2, y2)
            },
            (FormulaV::And(l1, r1), FormulaV::And(l2, r2)) => if formula_order(*l1, *l2) != 0 {
                formula_order(*l1, *l2)
            } else {
                formula_order(*r1, *r2)
            },
            (FormulaV::Or(l1, r1), FormulaV::Or(l2, r2)) => if formula_order(*l1, *l2) != 0 {
                formula_order(*l1, *l2)
            } else {
                formula_order(*r1, *r2)
            },
            (FormulaV::Forall(s1, b1), FormulaV::Forall(s2, b2)) => if lex_order(s1, s2) != 0 {
                lex_order(s1, s2)
            } else {
                formula_order(*b1, *b2)
            },
            (FormulaV::Exists(s1, b1), FormulaV::Exists(s2, b2)) => if lex_order(s1, s2) != 0 {
                lex_order(s1, s2)
            } else {
                formula_order(*b1, *b2)
            },
            (FormulaV::Not(g1), FormulaV::Not(g2)) => formula_order(*g1, *g2),
            _ => 0,
        }
    }
}

// ---------------------------------------------------------------------------
// Copies
// ---------------------------------------------------------------------------

/// A deep copy of a term.
pub fn copy_term(t: &Term) -> (r: Term)
    ensures
        r@ == t@,
    decreases t, 0nat,
{
    match t {
        Term::Var(i) => Term::Var(*i),
        Term::App { function, args } => Term::App { function: function.copy(), args: copy_terms(args) },
    }
}

/// A deep copy of a list of terms.
pub fn copy_terms(ts: &Vec<Term>) -> (r: Vec<Term>)
    ensures
        terms_view(r@) == terms_view(ts@),
        r@.len() == ts@.len(),
    decreases ts, 1nat,
{
    let mut out: Vec<Term> = Vec::new();
    let mut i: usize = 0;
    while i < ts.len()
        invariant
            i <= ts.len(),
            out@.len() == i,
            forall|k: int| 0 <= k < i ==> (#[trigger] out@[k])@ == ts@[k]@,
        decreases ts.len() - i,
    {
        proof {
            assert(decreases_to!(ts => ts[i as int]));
        }
        out.push(copy_term(&ts[i]));
        i = i + 1;
    }
    assert(terms_view(out@) =~= terms_view(ts@));
    out
}

/// A deep copy of a formula.
pub fn copy_formula(f: &Formula) -> (r: Formula)
    ensures
        r@ == f@,
    decreases f,
{
    match f {
        Formula::Bot => Formula::Bot,
        Formula::Top => Formula::Top,
        Formula::Atom { relation, args } => Formula::Atom { relation: relation.copy(), args: copy_terms(args) },
        Formula::NegAtom { relation, args } => Formula::NegAtom {
            relation: relation.copy(),
            args: copy_terms(args),
        },
        Formula::Eq(a, b) => Formula::Eq(copy_term(a), copy_term(b)),
        Formula::Neq(a, b) => Formula::Neq(copy_term(a), copy_term(b)),
        Formula::And(l, r) => Formula::And(Box::new(copy_formula(l)), Box::new(copy_formula(r))),
        Formula::Or(l, r) => Formula::Or(Box::new(copy_formula(l)), Box::new(copy_formula(r))),
        Formula::Forall { sort, body } => Formula::Forall { sort: sort.copy(), body: Box::new(copy_formula(body)) },
        Formula::Exists { sort, body } => Formula::Exists { sort: sort.copy(), body: Box::new(copy_formula(body)) },
        Formula::Not(g) => Formula::Not(Box::new(copy_formula(g))),
    }
}

/// A deep copy of a list of formulas.
pub fn copy_formulas(fs: &Vec<Formula>) -> (r: Vec<Formula>)
    ensures
        formulas_view(r@) == formulas_view(fs@),
        r@.len() == fs@.len(),
{
    let mut out: Vec<Formula> = Vec::new();
    let mut i: usize = 0;
    while i < fs.len()
        invariant
            i <= fs.len(),
            out@.len() == i,
            forall|k: int| 0 <= k < i ==> (#[trigger] out@[k])@ == fs@[k]@,
        decreases fs.len() - i,
    {
        out.push(copy_formula(&fs[i]));
        i = i + 1;
    }
    assert(formulas_view(out@) =~= formulas_view(fs@));
    out
}

impl Clone for Term {
    fn clone(&self) -> (r: Self)
        ensures
            r@ == self@,
    {
        copy_term(self)
    }
}

impl Clone for Formula {
    fn clone(&self) -> (r: Self)
        ensures
            r@ == self@,
    {
        copy_formula(self)
    }
}

// ---------------------------------------------------------------------------
// Normalization, rank, folds
// ---------------------------------------------------------------------------

/// `nnf_pol` on a concrete formula: the NNF of `f` when `positive`, the NNF
/// of its negation otherwise.
fn nnf_polarity(f: Formula, positive: bool) -> (r: Formula)
    ensures
        r@ == nnf_pol(f@, positive),
    decreases f,
{
    match f {
        Formula::Bot => if positive { Formula::Bot } else { Formula::Top },
        Formula::Top => if positive { Formula::Top } else { Formula::Bot },
        Formula::Atom { relation, args } => if positive {
            Formula::Atom { relation, args }
        } else {
            Formula::NegAtom { relation, args }
        },
        Formula::NegAtom { relation, args } => if positive {
            Formula::NegAtom { relation, args }
        } else {
            Formula::Atom { relation, args }
        },
        Formula::Eq(a, b) => if positive { Formula::Eq(a, b) } else { Formula::Neq(a, b) },
        Formula::Neq(a, b) => if positive { Formula::Neq(a, b) } else { Formula::Eq(a, b) },
        Formula::And(l, r) => {
            let l2 = nnf_polarity(*l, positive);
            let r2 = nnf_polarity(*r, positive);
            if positive {
                Formula::And(Box::new(l2), Box::new(r2))
            } else {
                Formula::Or(Box::new(l2), Box::new(r2))
            }
        },
        Formula::Or(l, r) => {
            let l2 = nnf_polarity(*l, positive);
            let r2 = nnf_polarity(*r, positive);
            if positive {
                Formula::Or(Box::new(l2), Box::new(r2))
            } else {
                Formula::And(Box::new(l2), Box::new(r2))
            }
        },
        Formula::Forall { sort, body } => {
            let b2 = nnf_polarity(*body, positive);
            if positive {
                Formula::Forall { sort, body: Box::new(b2) }
            } else {
                Formula::Exists { sort, body: Box::new(b2) }
            }
        },
        Formula::Exists { sort, body } => {
            let b2 = nnf_polarity(*body, positive);
            if positive {
                Formula::Exists { sort, body: Box::new(b2) }
            } else {
                Formula::Forall { sort, body: Box::new(b2) }
            }
        },
        Formula::Not(g) => nnf_polarity(*g, !positive),
    }
}

/// The NNF negation of a formula: ¬φ with negations pushed to the atoms.
pub fn negate(inner: Formula) -> (r: Formula)
    ensures
        r@ == nnf_pol(inner@, false),
        is_nnf(r@),
{
    proof {
        lemma_nnf_pol_is_nnf(inner@, false);
    }
    nnf_polarity(inner, false)
}

impl Formula {
    /// Convert an arbitrary formula to negation normal form by pushing
    /// negations inward (de Morgan) and eliminating double negation.
    /// The result contains no `Not` node.
    pub fn to_nnf(formula: Formula) -> (r: Formula)
        ensures
            r@ == nnf(formula@),
            is_nnf(r@),
    {
        proof {
            lemma_nnf_pol_is_nnf(formula@, true);
        }
        nnf_polarity(formula, true)
    }

    /// The quantifier rank: the maximum nesting depth of quantifiers.  A
    /// quantifier-free formula has rank 0.
    pub fn quantifier_rank(&self) -> (r: usize)
        requires
            rank(self@) <= usize::MAX,
        ensures
            r == rank(self@),
        decreases self,
    {
        match self {
            Formula::And(l, r) | Formula::Or(l, r) => {
                let a = l.quantifier_rank();
                let b = r.quantifier_rank();
                if a >= b { a } else { b }
            },
            Formula::Forall { body, .. } | Formula::Exists { body, .. } => 1 + body.quantifier_rank(),
            Formula::Not(inner) => inner.quantifier_rank(),
            _ => 0,
        }
    }

    /// Fold formulas into a left-associated conjunction, ⊤ when empty.
    pub fn conjunction(formulas: Vec<Formula>) -> (r: Formula)
        ensures
            r@ == conj_spec(formulas_view(formulas@)),
    {
        fold_formulas(&formulas, true)
    }

    /// Fold formulas into a left-associated disjunction, ⊥ when empty.
    pub fn disjunction(formulas: Vec<Formula>) -> (r: Formula)
        ensures
            r@ == disj_spec(formulas_view(formulas@)),
    {
        fold_formulas(&formulas, false)
    }
}

/// Left fold with `And` (when `conj`) or `Or`.
fn fold_formulas(formulas: &Vec<Formula>, conj: bool) -> (r: Formula)
    ensures
        conj ==> r@ == conj_spec(formulas_view(formulas@)),
        !conj ==> r@ == disj_spec(formulas_view(formulas@)),
{
    let ghost fv = formulas_view(formulas@);
    if formulas.len() == 0 {
        return if conj { Formula::Top } else { Formula::Bot };
    }
    let mut acc = copy_formula(&formulas[0]);
    assert(fv.take(1).drop_last() =~= Seq::<FormulaV>::empty());
    let mut i: usize = 1;
    while i < formulas.len()
        invariant
            1 <= i <= formulas.len(),
            fv == formulas_view(formulas@),
            conj ==> acc@ == conj_spec(fv.take(i as int)),
            !conj ==> acc@ == disj_spec(fv.take(i as int)),
        decreases formulas.len() - i,
    {
        let next = copy_formula(&formulas[i]);
        assert(fv.take(i + 1).drop_last() =~= fv.take(i as int));
        acc = if conj {
            Formula::And(Box::new(acc), Box::new(next))
        } else {
            Formula::Or(Box::new(acc), Box::new(next))
        };
        i = i + 1;
    }
    assert(fv.take(i as int) =~= fv);
    acc
}

// ---------------------------------------------------------------------------
// Free variables
// ---------------------------------------------------------------------------

/// Strictly increasing.
pub open spec fn strictly_sorted(s: Seq<usize>) -> bool {
    forall|i: int, j: int| 0 <= i < j < s.len() ==> #[trigger] s[i] < #[trigger] s[j]
}

/// Every variable that occurs free in the abstract value of a concrete term
/// fits in a `usize`.
pub proof fn lemma_term_free_bound(t: &Term, d: nat, x: nat)
    requires
        term_has_free(t@, d, x),
    ensures
        x <= usize::MAX,
    decreases t,
{
    match t {
        Term::Var(i) => {},
        Term::App { function, args } => {
            lemma_app_has_free(function@, terms_view(args@), d, x);
            let k = choose|k: int| 0 <= k < terms_view(args@).len() && term_has_free(#[trigger] terms_view(args@)[k], d, x);
            assert(decreases_to!(args => args[k]));
            lemma_term_free_bound(&args[k], d, x);
        },
    }
}

/// Every variable that occurs free in the abstract value of a concrete
/// formula fits in a `usize`.
pub proof fn lemma_free_bound(f: &Formula, d: nat, x: nat)
    requires
        has_free(f@, d, x),
    ensures
        x <= usize::MAX,
    decreases f,
{
    match f {
        Formula::Atom { args, .. } | Formula::NegAtom { args, .. } => {
            let k = choose|k: int| 0 <= k < terms_view(args@).len() && term_has_free(#[trigger] terms_view(args@)[k], d, x);
            lemma_term_free_bound(&args[k], d, x);
        },
        Formula::Eq(a, b) | Formula::Neq(a, b) => {
            if term_has_free(a@, d, x) {
                lemma_term_free_bound(a, d, x);
            } else {
                lemma_term_free_bound(b, d, x);
            }
        },
        Formula::And(l, r) | Formula::Or(l, r) => {
            if has_free(l@, d, x) {
                lemma_free_bound(l, d, x);
            } else {
                lemma_free_bound(r, d, x);
            }
        },
        Formula::Forall { body, .. } | Formula::Exists { body, .. } => lemma_free_bound(body, d + 1, x),
        Formula::Not(g) => lemma_free_bound(g, d, x),
        _ => {},
    }
}

/// The recursive and the existential forms of "free in an argument" agree.
pub proof fn lemma_args_free(args: Seq<TermV>, d: nat, x: nat)
    ensures
        args_free(args, d, x) <==> args_have_free(args, d, x),
    decreases args.len(),
{
    if args.len() > 0 {
        let rest = args.subrange(1, args.len() as int);
        lemma_args_free(rest, d, x);
        if args_have_free(args, d, x) {
            let k = choose|k: int| 0 <= k < args.len() && term_has_free(#[trigger] args[k], d, x);
            if k > 0 {
                assert(rest[k - 1] == args[k]);
            }
        }
        if args_have_free(rest, d, x) {
            let k = choose|k: int| 0 <= k < rest.len() && term_has_free(#[trigger] rest[k], d, x);
            assert(args[k + 1] == rest[k]);
        }
        if term_has_free(args[0], d, x) {
            assert(term_has_free(args[0], d, x));
        }
    }
}

/// A variable is free in an application exactly when it is free in one of
/// the arguments.
pub proof fn lemma_app_has_free(f: FunSym, args: Seq<TermV>, d: nat, x: nat)
    ensures
        term_has_free(TermV::App(f, args), d, x) <==> args_have_free(args, d, x),
{
    lemma_args_free(args, d, x);
}

/// Insert `x` into a strictly sorted vector unless it is already there.
fn insert_sorted(acc: &mut Vec<usize>, x: usize)
    requires
        strictly_sorted(old(acc)@),
    ensures
        strictly_sorted(final(acc)@),
        forall|y: usize| #[trigger] final(acc)@.contains(y) <==> (old(acc)@.contains(y) || y == x),
{
    let mut pos: usize = 0;
    while pos < acc.len() && acc[pos] < x
        invariant
            pos <= acc.len(),
            acc@ == old(acc)@,
            strictly_sorted(acc@),
            forall|j: int| 0 <= j < pos ==> #[trigger] acc@[j] < x,
        decreases acc.len() - pos,
    {
        pos = pos + 1;
    }
    if pos < acc.len() && acc[pos] == x {
        assert(acc@[pos as int] == x);
    } else {
        let ghost before = acc@;
        acc.insert(pos, x);
        assert(acc@ =~= before.subrange(0, pos as int).push(x) + before.subrange(pos as int, before.len() as int));
        assert forall|y: usize| #[trigger] acc@.contains(y) <==> (before.contains(y) || y == x) by {
            if acc@.contains(y) {
                let k = choose|k: int| 0 <= k < acc@.len() && acc@[k] == y;
                if k < pos {
                    assert(before[k] == y);
                } else if k > pos {
                    assert(before[k - 1] == y);
                }
            }
            if before.contains(y) {
                let k = choose|k: int| 0 <= k < before.len() && before[k] == y;
                if k < pos {
                    assert(acc@[k] == y);
                } else {
                    assert(acc@[k + 1] == y);
                }
            }
            if y == x {
                assert(acc@[pos as int] == y);
            }
        }
    }
}

fn collect_term_free_vars(t: &Term, depth: usize, acc: &mut Vec<usize>)
    requires
        strictly_sorted(old(acc)@),
    ensures
        strictly_sorted(final(acc)@),
        forall|x: usize|
            #[trigger] final(acc)@.contains(x) <==> (old(acc)@.contains(x) || term_has_free(t@, depth as nat, x as nat)),
    decreases t, 0nat,
{
    match t {
        Term::Var(i) => {
            assert(t@ == TermV::Var(*i as nat));
            if *i >= depth {
                let ghost before = acc@;
                insert_sorted(acc, *i - depth);
                assert forall|x: usize|
                    #[trigger] acc@.contains(x) <==> (before.contains(x) || term_has_free(t@, depth as nat, x as nat)) by {
                    assert(term_has_free(t@, depth as nat, x as nat) <==> x == *i - depth);
                }
            } else {
                assert forall|x: usize| !term_has_free(t@, depth as nat, x as nat) by {}
            }
        },
        Term::App { function, args } => {
            collect_args_free_vars(args, depth, acc);
            assert(t@ == TermV::App(function@, terms_view(args@)));
            assert forall|x: usize|
                term_has_free(t@, depth as nat, x as nat) <==> args_have_free(
                    terms_view(args@),
                    depth as nat,
                    x as nat,
                ) by {
                lemma_app_has_free(function@, terms_view(args@), depth as nat, x as nat);
            }
        },
    }
}

fn collect_args_free_vars(args: &Vec<Term>, depth: usize, acc: &mut Vec<usize>)
    requires
        strictly_sorted(old(acc)@),
    ensures
        strictly_sorted(final(acc)@),
        forall|x: usize|
            #[trigger] final(acc)@.contains(x) <==> (old(acc)@.contains(x) || args_have_free(
                terms_view(args@),
                depth as nat,
                x as nat,
            )),
    decreases args, 1nat,
{
    let ghost start = acc@;
    let ghost tv = terms_view(args@);
    let mut i: usize = 0;
    while i < args.len()
        invariant
            i <= args.len(),
            tv == terms_view(args@),
            strictly_sorted(acc@),
            forall|x: usize|
                #![trigger acc@.contains(x)]
                acc@.contains(x) <==> (start.contains(x) || exists|k: int|
                    0 <= k < i && term_has_free(#[trigger] tv[k], depth as nat, x as nat)),
        decreases args.len() - i,
    {
        proof {
            assert(decreases_to!(args => args[i as int]));
        }
        let ghost mid = acc@;
        collect_term_free_vars(&args[i], depth, acc);
        assert forall|x: usize|
            acc@.contains(x) <==> (start.contains(x) || exists|k: int|
                0 <= k < i + 1 && term_has_free(#[trigger] tv[k], depth as nat, x as nat)) by {
            assert(mid.contains(x) <==> (start.contains(x) || exists|k: int|
                0 <= k < i && term_has_free(#[trigger] tv[k], depth as nat, x as nat)));
            assert(tv[i as int] == args@[i as int]@);
            if term_has_free(tv[i as int], depth as nat, x as nat) {
                assert(0 <= i < i + 1);
            }
            if exists|k: int| 0 <= k < i + 1 && term_has_free(#[trigger] tv[k], depth as nat, x as nat) {
                let k = choose|k: int| 0 <= k < i + 1 && term_has_free(#[trigger] tv[k], depth as nat, x as nat);
                if k < i {
                    assert(mid.contains(x));
                }
            }
        }
        i = i + 1;
    }
}

fn collect_free_vars(f: &Formula, depth: usize, acc: &mut Vec<usize>)
    requires
        strictly_sorted(old(acc)@),
        depth + rank(f@) <= usize::MAX,
    ensures
        strictly_sorted(final(acc)@),
        forall|x: usize|
            #[trigger] final(acc)@.contains(x) <==> (old(acc)@.contains(x) || has_free(f@, depth as nat, x as nat)),
    decreases f,
{
    match f {
        Formula::Atom { args, .. } | Formula::NegAtom { args, .. } => {
            collect_args_free_vars(args, depth, acc);
        },
        Formula::Eq(a, b) | Formula::Neq(a, b) => {
            collect_term_free_vars(a, depth, acc);
            collect_term_free_vars(b, depth, acc);
        },
        Formula::And(l, r) | Formula::Or(l, r) => {
            collect_free_vars(l, depth, acc);
            collect_free_vars(r, depth, acc);
        },
        Formula::Forall { body, .. } | Formula::Exists { body, .. } => {
            collect_free_vars(body, depth + 1, acc);
        },
        Formula::Not(g) => collect_free_vars(g, depth, acc),
        _ => {},
    }
}

impl Formula {
    /// The free variables, as de Bruijn indices read at the formula's top
    /// level, in increasing order.
    pub fn free_vars(&self) -> (r: Vec<usize>)
        requires
            rank(self@) <= usize::MAX,
        ensures
            strictly_sorted(r@),
            forall|x: usize| r@.contains(x) <==> has_free(self@, 0, x as nat),
            forall|x: nat| has_free(self@, 0, x) ==> x <= usize::MAX,
    {
        let mut acc: Vec<usize> = Vec::new();
        collect_free_vars(self, 0, &mut acc);
        proof {
            assert forall|x: nat| has_free(self@, 0, x) implies x <= usize::MAX by {
                lemma_free_bound(self, 0, x);
            }
        }
        acc
    }

    /// True iff the formula is a sentence (has no free variable).
    pub fn is_sentence(&self) -> (r: bool)
        requires
            rank(self@) <= usize::MAX,
        ensures
            r == is_sentence_spec(self@),
    {
        let fv = self.free_vars();
        proof {
            if fv@.len() == 0 {
                assert forall|x: nat| !has_free(self@, 0, x) by {
                    if has_free(self@, 0, x) {
                        assert(!fv@.contains(x as usize));
                    }
                }
            } else {
                assert(fv@.contains(fv@[0]));
                assert(has_free(self@, 0, fv@[0] as nat));
            }
        }
        fv.len() == 0
    }
}

// ---------------------------------------------------------------------------
// Substitution
// ---------------------------------------------------------------------------

/// Each argument's largest variable is bounded by the list's.
pub proof fn lemma_max_var_args(args: Seq<TermV>, k: int)
    requires
        0 <= k < args.len(),
    ensures
        max_var(args[k]) <= max_var_args(args),
    decreases args.len(),
{
    if k > 0 {
        let rest = args.subrange(1, args.len() as int);
        lemma_max_var_args(rest, k - 1);
        assert(rest[k - 1] == args[k]);
    }
}

fn shift_term(t: &Term, by: usize) -> (r: Term)
    requires
        max_var(t@) + by <= usize::MAX,
    ensures
        r@ == shift(t@, by as nat),
    decreases t, 0nat,
{
    match t {
        Term::Var(i) => Term::Var(*i + by),
        Term::App { function, args } => {
            let a = shift_terms(args, by);
            let r = Term::App { function: function.copy(), args: a };
            proof {
                let tv = terms_view(args@);
                assert(terms_view(a@) =~= shift_args(tv, by as nat));
            }
            r
        },
    }
}

fn shift_terms(ts: &Vec<Term>, by: usize) -> (r: Vec<Term>)
    requires
        max_var_args(terms_view(ts@)) + by <= usize::MAX,
    ensures
        r@.len() == ts@.len(),
        forall|k: int| 0 <= k < ts@.len() ==> (#[trigger] r@[k])@ == shift(ts@[k]@, by as nat),
    decreases ts, 1nat,
{
    let mut out: Vec<Term> = Vec::new();
    let mut i: usize = 0;
    while i < ts.len()
        invariant
            i <= ts.len(),
            out@.len() == i,
            max_var_args(terms_view(ts@)) + by <= usize::MAX,
            forall|k: int| 0 <= k < i ==> (#[trigger] out@[k])@ == shift(ts@[k]@, by as nat),
        decreases ts.len() - i,
    {
        proof {
            assert(decreases_to!(ts => ts[i as int]));
            lemma_max_var_args(terms_view(ts@), i as int);
        }
        out.push(shift_term(&ts[i], by));
        i = i + 1;
    }
    out
}

fn substitute_term(t: &Term, index: usize, term: &Term, depth: usize) -> (r: Term)
    requires
        max_var(term@) + depth <= usize::MAX,
    ensures
        r@ == subst_term(t@, index as nat, term@, depth as nat),
    decreases t, 0nat,
{
    match t {
        Term::Var(i) => {
            if *i >= depth && *i - depth == index {
                shift_term(term, depth)
            } else {
                Term::Var(*i)
            }
        },
        Term::App { function, args } => {
            let a = substitute_terms(args, index, term, depth);
            Term::App { function: function.copy(), args: a }
        },
    }
}

fn substitute_terms(ts: &Vec<Term>, index: usize, term: &Term, depth: usize) -> (r: Vec<Term>)
    requires
        max_var(term@) + depth <= usize::MAX,
    ensures
        terms_view(r@) == subst_args(terms_view(ts@), index as nat, term@, depth as nat),
    decreases ts, 1nat,
{
    let mut out: Vec<Term> = Vec::new();
    let mut i: usize = 0;
    while i < ts.len()
        invariant
            i <= ts.len(),
            out@.len() == i,
            max_var(term@) + depth <= usize::MAX,
            forall|k: int|
                0 <= k < i ==> (#[trigger] out@[k])@ == subst_term(ts@[k]@, index as nat, term@, depth as nat),
        decreases ts.len() - i,
    {
        proof {
            assert(decreases_to!(ts => ts[i as int]));
        }
        out.push(substitute_term(&ts[i], index, term, depth));
        i = i + 1;
    }
    assert(terms_view(out@) =~= subst_args(terms_view(ts@), index as nat, term@, depth as nat));
    out
}

fn substitute_formula(f: &Formula, index: usize, term: &Term, depth: usize) -> (r: Formula)
    requires
        max_var(term@) + depth + rank(f@) <= usize::MAX,
    ensures
        r@ == subst(f@, index as nat, term@, depth as nat),
    decreases f,
{
    match f {
        Formula::Bot => Formula::Bot,
        Formula::Top => Formula::Top,
        Formula::Atom { relation, args } => Formula::Atom {
            relation: relation.copy(),
            args: substitute_terms(args, index, term, depth),
        },
        Formula::NegAtom { relation, args } => Formula::NegAtom {
            relation: relation.copy(),
            args: substitute_terms(args, index, term, depth),
        },
        Formula::Eq(a, b) => Formula::Eq(
            substitute_term(a, index, term, depth),
            substitute_term(b, index, term, depth),
        ),
        Formula::Neq(a, b) => Formula::Neq(
            substitute_term(a, index, term, depth),
            substitute_term(b, index, term, depth),
        ),
        Formula::And(l, r) => Formula::And(
            Box::new(substitute_formula(l, index, term, depth)),
            Box::new(substitute_formula(r, index, term, depth)),
        ),
        Formula::Or(l, r) => Formula::Or(
            Box::new(substitute_formula(l, index, term, depth)),
            Box::new(substitute_formula(r, index, term, depth)),
        ),
        Formula::Forall { sort, body } => Formula::Forall {
            sort: sort.copy(),
            body: Box::new(substitute_formula(body, index, term, depth + 1)),
        },
        Formula::Exists { sort, body } => Formula::Exists {
            sort: sort.copy(),
            body: Box::new(substitute_formula(body, index, term, depth + 1)),
        },
        Formula::Not(g) => Formula::Not(Box::new(substitute_formula(g, index, term, depth))),
    }
}

impl Formula {
    /// Substitute every free occurrence of `Var(index)` (read at the top
    /// level) by `term`, shifting the indices of `term` as binders are
    /// crossed so that its free variables keep referring to the same
    /// enclosing binders.
    pub fn substitute(&self, index: usize, term: &Term) -> (r: Formula)
        requires
            max_var(term@) + rank(self@) <= usize::MAX,
        ensures
            r@ == subst(self@, index as nat, term@, 0),
    {
        substitute_formula(self, index, term, 0)
    }
}

// ---------------------------------------------------------------------------
// Atoms
// ---------------------------------------------------------------------------

fn collect_atoms(f: &Formula, acc: &mut Vec<Formula>)
    ensures
        formulas_view(final(acc)@) == formulas_view(old(acc)@) + atoms_spec(f@),
    decreases f,
{
    let ghost before = formulas_view(acc@);
    match f {
        Formula::Atom { .. } | Formula::NegAtom { .. } => {
            let c = copy_formula(f);
            acc.push(c);
            assert(formulas_view(acc@) =~= before + seq![f@]);
        },
        Formula::And(l, r) | Formula::Or(l, r) => {
            collect_atoms(l, acc);
            collect_atoms(r, acc);
            assert(formulas_view(acc@) =~= before + (atoms_spec(l@) + atoms_spec(r@)));
        },
        Formula::Forall { body, .. } | Formula::Exists { body, .. } | Formula::Not(body) => {
            collect_atoms(body, acc);
        },
        _ => {
            assert(formulas_view(acc@) =~= before + atoms_spec(f@));
        },
    }
}

impl Formula {
    /// All atomic subformulas (`Atom` and `NegAtom`), left to right.
    /// Equalities are not atoms.
    pub fn atoms(&self) -> (r: Vec<Formula>)
        ensures
            formulas_view(r@) == atoms_spec(self@),
    {
        let mut acc: Vec<Formula> = Vec::new();
        assert(formulas_view(acc@) =~= Seq::<FormulaV>::empty());
        collect_atoms(self, &mut acc);
        assert(formulas_view(acc@) =~= atoms_spec(self@));
        acc
    }
}

// ---------------------------------------------------------------------------
// Canonical comparison and α-equivalence
// ---------------------------------------------------------------------------

pub proof fn lemma_names_order_zero(a: Seq<Seq<char>>, b: Seq<Seq<char>>)
    ensures
        names_order(a, b) == 0 <==> a == b,
    decreases a.len(),
{
    if a.len() > 0 && b.len() > 0 {
        lemma_lex_order_zero_eq(a[0], b[0]);
        lemma_names_order_zero(a.drop_first(), b.drop_first());
        if a[0] == b[0] && a.drop_first() == b.drop_first() {
            assert(a =~= seq![a[0]] + a.drop_first());
            assert(b =~= seq![b[0]] + b.drop_first());
        }
    } else if a.len() == 0 && b.len() == 0 {
        assert(a =~= b);
    }
}

pub proof fn lemma_term_order_zero(a: TermV, b: TermV)
    ensures
        term_order(a, b) == 0 <==> a == b,
    decreases a, 0nat,
{
    match (a, b) {
        (TermV::App(f, xs), TermV::App(g, ys)) => {
            lemma_lex_order_zero_eq(f.name, g.name);
            lemma_names_order_zero(f.domain, g.domain);
            lemma_lex_order_zero_eq(f.codomain, g.codomain);
            lemma_args_order_zero(xs, ys);
        },
        _ => {},
    }
}

pub proof fn lemma_args_order_zero(a: Seq<TermV>, b: Seq<TermV>)
    ensures
        args_order(a, b) == 0 <==> a == b,
    decreases a, 1nat,
{
    if a.len() > 0 && b.len() > 0 {
        let ra = a.subrange(1, a.len() as int);
        let rb = b.subrange(1, b.len() as int);
        lemma_term_order_zero(a[0], b[0]);
        lemma_args_order_zero(ra, rb);
        if a[0] == b[0] && ra == rb {
            assert(a =~= seq![a[0]] + ra);
            assert(b =~= seq![b[0]] + rb);
        }
        if a == b {
            assert(ra == rb);
        }
    } else if a.len() == 0 && b.len() == 0 {
        assert(a =~= b);
    }
}

pub proof fn lemma_formula_order_zero(a: FormulaV, b: FormulaV)
    ensures
        formula_order(a, b) == 0 <==> a == b,
    decreases a,
{
    match (a, b) {
        (FormulaV::Atom(r, xs), FormulaV::Atom(s, ys)) | (FormulaV::NegAtom(r, xs), FormulaV::NegAtom(s, ys)) => {
            lemma_lex_order_zero_eq(r.name, s.name);
            lemma_names_order_zero(r.arity, s.arity);
            lemma_args_order_zero(xs, ys);
        },
        (FormulaV::Eq(x1, x2), FormulaV::Eq(y1, y2)) | (FormulaV::Neq(x1, x2), FormulaV::Neq(y1, y2)) => {
            lemma_term_order_zero(x1, y1);
            lemma_term_order_zero(x2, y2);
        },
        (FormulaV::And(l1, r1), FormulaV::And(l2, r2)) | (FormulaV::Or(l1, r1), FormulaV::Or(l2, r2)) => {
            lemma_formula_order_zero(*l1, *l2);
            lemma_formula_order_zero(*r1, *r2);
        },
        (FormulaV::Forall(s1, b1), FormulaV::Forall(s2, b2)) | (FormulaV::Exists(s1, b1), FormulaV::Exists(s2, b2)) => {
            lemma_lex_order_zero_eq(s1, s2);
            lemma_formula_order_zero(*b1, *b2);
        },
        (FormulaV::Not(g1), FormulaV::Not(g2)) => {
            lemma_formula_order_zero(*g1, *g2);
        },
        _ => {},
    }
}

fn compare_sort_lists(a: &Vec<SortSymbol>, b: &Vec<SortSymbol>) -> (r: i8)
    ensures
        r as int == names_order(sort_names(a@), sort_names(b@)),
{
    let ghost sa = sort_names(a@);
    let ghost sb = sort_names(b@);
    let mut i: usize = 0;
    assert(sa.skip(0) =~= sa);
    assert(sb.skip(0) =~= sb);
    while i < a.len() && i < b.len()
        invariant
            i <= a.len(),
            i <= b.len(),
            sa == sort_names(a@),
            sb == sort_names(b@),
            names_order(sa, sb) == names_order(sa.skip(i as int), sb.skip(i as int)),
        decreases a.len() - i,
    {
        let c = compare_str(a[i].name.as_str(), b[i].name.as_str());
        if c != 0 {
            return c;
        }
        assert(sa.skip(i as int).drop_first() =~= sa.skip(i + 1));
        assert(sb.skip(i as int).drop_first() =~= sb.skip(i + 1));
        i = i + 1;
    }
    if i < b.len() {
        -1
    } else if i < a.len() {
        1
    } else {
        0
    }
}

fn compare_function_symbols(a: &FunctionSymbol, b: &FunctionSymbol) -> (r: i8)
    ensures
        r as int == fun_order(a@, b@),
{
    let c = compare_str(a.name.as_str(), b.name.as_str());
    if c != 0 {
        return c;
    }
    let d = compare_sort_lists(&a.domain, &b.domain);
    if d != 0 {
        return d;
    }
    compare_str(a.codomain.name.as_str(), b.codomain.name.as_str())
}

fn compare_relation_symbols(a: &RelationSymbol, b: &RelationSymbol) -> (r: i8)
    ensures
        r as int == rel_order(a@, b@),
{
    let c = compare_str(a.name.as_str(), b.name.as_str());
    if c != 0 {
        return c;
    }
    compare_sort_lists(&a.arity, &b.arity)
}

fn compare_terms(a: &Term, b: &Term) -> (r: i8)
    ensures
        r as int == term_order(a@, b@),
    decreases a, 0nat,
{
    match (a, b) {
        (Term::Var(i), Term::Var(j)) => if *i < *j {
            -1
        } else if *i > *j {
            1
        } else {
            0
        },
        (Term::Var(_), Term::App { .. }) => -1,
        (Term::App { .. }, Term::Var(_)) => 1,
        (Term::App { function: f, args: xs }, Term::App { function: g, args: ys }) => {
            let c = compare_function_symbols(f, g);
            if c != 0 {
                c
            } else {
                compare_term_lists(xs, ys)
            }
        },
    }
}

fn compare_term_lists(a: &Vec<Term>, b: &Vec<Term>) -> (r: i8)
    ensures
        r as int == args_order(terms_view(a@), terms_view(b@)),
    decreases a, 1nat,
{
    let ghost ta = terms_view(a@);
    let ghost tb = terms_view(b@);
    let mut i: usize = 0;
    assert(ta.skip(0) =~= ta);
    assert(tb.skip(0) =~= tb);
    while i < a.len() && i < b.len()
        invariant
            i <= a.len(),
            i <= b.len(),
            ta == terms_view(a@),
            tb == terms_view(b@),
            args_order(ta, tb) == args_order(ta.skip(i as int), tb.skip(i as int)),
        decreases a.len() - i,
    {
        proof {
            assert(decreases_to!(a => a[i as int]));
        }
        let c = compare_terms(&a[i], &b[i]);
        if c != 0 {
            return c;
        }
        assert(ta.skip(i as int).subrange(1, ta.skip(i as int).len() as int) =~= ta.skip(i + 1));
        assert(tb.skip(i as int).subrange(1, tb.skip(i as int).len() as int) =~= tb.skip(i + 1));
        i = i + 1;
    }
    if i < b.len() {
        -1
    } else if i < a.len() {
        1
    } else {
        0
    }
}

fn variant_position(f: &Formula) -> (r: u8)
    ensures
        r as int == variant_index(f@),
{
    match f {
        Formula::Bot => 0,
        Formula::Top => 1,
        Formula::Atom { .. } => 2,
        Formula::NegAtom { .. } => 3,
        Formula::Eq(_, _) => 4,
        Formula::Neq(_, _) => 5,
        Formula::And(_, _) => 6,
        Formula::Or(_, _) => 7,
        Formula::Forall { .. } => 8,
        Formula::Exists { .. } => 9,
        Formula::Not(_) => 10,
    }
}

/// Three-way canonical comparison: -1, 0 or 1.
pub fn compare_formulas(a: &Formula, b: &Formula) -> (r: i8)
    ensures
        r as int == formula_order(a@, b@),
    decreases a,
{
    let va = variant_position(a);
    let vb = variant_position(b);
    if va < vb {
        return -1;
    }
    if va > vb {
        return 1;
    }
    match (a, b) {
        (Formula::Atom { relation: r, args: xs }, Formula::Atom { relation: s, args: ys })
        | (Formula::NegAtom { relation: r, args: xs }, Formula::NegAtom { relation: s, args: ys }) => {
            let c = compare_relation_symbols(r, s);
            if c != 0 {
                c
            } else {
                compare_term_lists(xs, ys)
            }
        },
        (Formula::Eq(x1, x2), Formula::Eq(y1, y2)) | (Formula::Neq(x1, x2), Formula::Neq(y1, y2)) => {
            let c = compare_terms(x1, y1);
            if c != 0 {
                c
            } else {
                compare_terms(x2, y2)
            }
        },
        (Formula::And(l1, r1), Formula::And(l2, r2)) | (Formula::Or(l1, r1), Formula::Or(l2, r2)) => {
            let c = compare_formulas(l1, l2);
            if c != 0 {
                c
            } else {
                compare_formulas(r1, r2)
            }
        },
        (Formula::Forall { sort: s1, body: b1 }, Formula::Forall { sort: s2, body: b2 })
        | (Formula::Exists { sort: s1, body: b1 }, Formula::Exists { sort: s2, body: b2 }) => {
            let c = compare_str(s1.name.as_str(), s2.name.as_str());
            if c != 0 {
                c
            } else {
                compare_formulas(b1, b2)
            }
        },
        (Formula::Not(g1), Formula::Not(g2)) => compare_formulas(g1, g2),
        _ => 0,
    }
}

impl Formula {
    /// Syntactic equality of abstract values.  With de Bruijn indices this
    /// coincides with α-equivalence.
    pub fn alpha_eq(&self, other: &Formula) -> (r: bool)
        ensures
            r == (self@ == other@),
    {
        proof {
            lemma_formula_order_zero(self@, other@);
        }
        compare_formulas(self, other) == 0
    }

    /// The canonical order: by variant
    /// (`Bot < Top < Atom < NegAtom < Eq < Neq < And < Or < Forall < Exists`,
    /// `Not` last), then field by field.
    pub fn canonical_cmp(&self, other: &Formula) -> (r: Ordering)
        ensures
            (r == Ordering::Less) == (formula_order(self@, other@) < 0),
            (r == Ordering::Equal) == (formula_order(self@, other@) == 0),
            (r == Ordering::Greater) == (formula_order(self@, other@) > 0),
    {
        let c = compare_formulas(self, other);
        if c < 0 {
            Ordering::Less
        } else if c > 0 {
            Ordering::Greater
        } else {
            Ordering::Equal
        }
    }
}

// ---------------------------------------------------------------------------
// The canonical order is a strict total order
// ---------------------------------------------------------------------------

/// All facts about the order of two names.
proof fn lemma_lex_facts(a: Seq<char>, b: Seq<char>)
    ensures
        lex_order(a, b) == -lex_order(b, a),
        -1 <= lex_order(a, b) <= 1,
        lex_order(a, b) == 0 <==> a == b,
{
    lemma_lex_order_antisym(a, b);
    lemma_lex_order_zero_eq(a, b);
}

proof fn lemma_lex_trans(a: Seq<char>, b: Seq<char>, c: Seq<char>)
    requires
        lex_order(a, b) <= 0,
        lex_order(b, c) <= 0,
    ensures
        lex_order(a, c) <= 0,
        lex_order(a, b) < 0 || lex_order(b, c) < 0 ==> lex_order(a, c) < 0,
{
    lemma_lex_facts(a, b);
    lemma_lex_facts(b, c);
    lemma_lex_facts(a, c);
    if lex_order(a, b) < 0 && lex_order(b, c) < 0 {
        lemma_lex_lt_trans(a, b, c);
    }
}

pub proof fn lemma_names_order_antisym(a: Seq<Seq<char>>, b: Seq<Seq<char>>)
    ensures
        names_order(a, b) == -names_order(b, a),
        -1 <= names_order(a, b) <= 1,
    decreases a.len(),
{
    if a.len() > 0 && b.len() > 0 {
        lemma_lex_facts(a[0], b[0]);
        lemma_names_order_antisym(a.drop_first(), b.drop_first());
    }
}

pub proof fn lemma_names_order_trans(a: Seq<Seq<char>>, b: Seq<Seq<char>>, c: Seq<Seq<char>>)
    requires
        names_order(a, b) <= 0,
        names_order(b, c) <= 0,
    ensures
        names_order(a, c) <= 0,
        names_order(a, b) < 0 || names_order(b, c) < 0 ==> names_order(a, c) < 0,
    decreases a.len(),
{
    lemma_names_order_zero(a, b);
    lemma_names_order_zero(b, c);
    lemma_names_order_antisym(a, b);
    lemma_names_order_antisym(b, c);
    if a.len() > 0 && b.len() > 0 && c.len() > 0 {
        lemma_lex_facts(a[0], b[0]);
        lemma_lex_facts(b[0], c[0]);
        lemma_lex_facts(a[0], c[0]);
        if lex_order(a[0], b[0]) <= 0 && lex_order(b[0], c[0]) <= 0 {
            lemma_lex_trans(a[0], b[0], c[0]);
        }
        if a[0] == b[0] && b[0] == c[0] {
            lemma_names_order_trans(a.drop_first(), b.drop_first(), c.drop_first());
        }
    }
}

proof fn lemma_fun_order_facts(a: FunSym, b: FunSym)
    ensures
        fun_order(a, b) == -fun_order(b, a),
        -1 <= fun_order(a, b) <= 1,
        fun_order(a, b) == 0 <==> a == b,
{
    lemma_lex_facts(a.name, b.name);
    lemma_lex_facts(a.codomain, b.codomain);
    lemma_names_order_antisym(a.domain, b.domain);
    lemma_names_order_zero(a.domain, b.domain);
}

proof fn lemma_fun_order_trans(a: FunSym, b: FunSym, c: FunSym)
    requires
        fun_order(a, b) <= 0,
        fun_order(b, c) <= 0,
    ensures
        fun_order(a, c) <= 0,
        fun_order(a, b) < 0 || fun_order(b, c) < 0 ==> fun_order(a, c) < 0,
{
    lemma_fun_order_facts(a, b);
    lemma_fun_order_facts(b, c);
    lemma_fun_order_facts(a, c);
    lemma_lex_facts(a.name, c.name);
    lemma_names_order_antisym(a.domain, c.domain);
    lemma_names_order_zero(a.domain, c.domain);
    if lex_order(a.name, b.name) <= 0 && lex_order(b.name, c.name) <= 0 {
        lemma_lex_trans(a.name, b.name, c.name);
    }
    if names_order(a.domain, b.domain) <= 0 && names_order(b.domain, c.domain) <= 0 {
        lemma_names_order_trans(a.domain, b.domain, c.domain);
    }
    if lex_order(a.codomain, b.codomain) <= 0 && lex_order(b.codomain, c.codomain) <= 0 {
        lemma_lex_trans(a.codomain, b.codomain, c.codomain);
    }
}

proof fn lemma_rel_order_facts(a: RelSym, b: RelSym)
    ensures
        rel_order(a, b) == -rel_order(b, a),
        -1 <= rel_order(a, b) <= 1,
        rel_order(a, b) == 0 <==> a == b,
{
    lemma_lex_facts(a.name, b.name);
    lemma_names_order_antisym(a.arity, b.arity);
    lemma_names_order_zero(a.arity, b.arity);
}

proof fn lemma_rel_order_trans(a: RelSym, b: RelSym, c: RelSym)
    requires
        rel_order(a, b) <= 0,
        rel_order(b, c) <= 0,
    ensures
        rel_order(a, c) <= 0,
        rel_order(a, b) < 0 || rel_order(b, c) < 0 ==> rel_order(a, c) < 0,
{
    lemma_rel_order_facts(a, b);
    lemma_rel_order_facts(b, c);
    lemma_rel_order_facts(a, c);
    if lex_order(a.name, b.name) <= 0 && lex_order(b.name, c.name) <= 0 {
        lemma_lex_trans(a.name, b.name, c.name);
    }
    if names_order(a.arity, b.arity) <= 0 && names_order(b.arity, c.arity) <= 0 {
        lemma_names_order_trans(a.arity, b.arity, c.arity);
    }
}

pub proof fn lemma_term_order_antisym(a: TermV, b: TermV)
    ensures
        term_order(a, b) == -term_order(b, a),
        -1 <= term_order(a, b) <= 1,
    decreases a, 0nat,
{
    match (a, b) {
        (TermV::App(f, xs), TermV::App(g, ys)) => {
            lemma_fun_order_facts(f, g);
            lemma_args_order_antisym(xs, ys);
        },
        _ => {},
    }
}

pub proof fn lemma_args_order_antisym(a: Seq<TermV>, b: Seq<TermV>)
    ensures
        args_order(a, b) == -args_order(b, a),
        -1 <= args_order(a, b) <= 1,
    decreases a, 1nat,
{
    if a.len() > 0 && b.len() > 0 {
        lemma_term_order_antisym(a[0], b[0]);
        lemma_args_order_antisym(a.subrange(1, a.len() as int), b.subrange(1, b.len() as int));
    }
}

pub proof fn lemma_term_order_trans(a: TermV, b: TermV, c: TermV)
    requires
        term_order(a, b) <= 0,
        term_order(b, c) <= 0,
    ensures
        term_order(a, c) <= 0,
        term_order(a, b) < 0 || term_order(b, c) < 0 ==> term_order(a, c) < 0,
    decreases a, 0nat,
{
    lemma_term_order_zero(a, b);
    lemma_term_order_zero(b, c);
    lemma_term_order_antisym(a, c);
    match (a, b, c) {
        (TermV::App(f, xs), TermV::App(g, ys), TermV::App(h, zs)) => {
            lemma_fun_order_facts(f, g);
            lemma_fun_order_facts(g, h);
            lemma_fun_order_facts(f, h);
            if fun_order(f, g) <= 0 && fun_order(g, h) <= 0 {
                lemma_fun_order_trans(f, g, h);
            }
            if f == g && g == h {
                lemma_args_order_trans(xs, ys, zs);
            }
        },
        _ => {},
    }
}

pub proof fn lemma_args_order_trans(a: Seq<TermV>, b: Seq<TermV>, c: Seq<TermV>)
    requires
        args_order(a, b) <= 0,
        args_order(b, c) <= 0,
    ensures
        args_order(a, c) <= 0,
        args_order(a, b) < 0 || args_order(b, c) < 0 ==> args_order(a, c) < 0,
    decreases a, 1nat,
{
    lemma_args_order_zero(a, b);
    lemma_args_order_zero(b, c);
    lemma_args_order_antisym(a, b);
    lemma_args_order_antisym(b, c);
    if a.len() > 0 && b.len() > 0 && c.len() > 0 {
        lemma_term_order_zero(a[0], b[0]);
        lemma_term_order_zero(b[0], c[0]);
        lemma_term_order_zero(a[0], c[0]);
        lemma_term_order_antisym(a[0], b[0]);
        lemma_term_order_antisym(b[0], c[0]);
        lemma_term_order_antisym(a[0], c[0]);
        if term_order(a[0], b[0]) <= 0 && term_order(b[0], c[0]) <= 0 {
            lemma_term_order_trans(a[0], b[0], c[0]);
        }
        if a[0] == b[0] && b[0] == c[0] {
            lemma_args_order_trans(
                a.subrange(1, a.len() as int),
                b.subrange(1, b.len() as int),
                c.subrange(1, c.len() as int),
            );
        }
    }
}

pub proof fn lemma_formula_order_antisym(a: FormulaV, b: FormulaV)
    ensures
        formula_order(a, b) == -formula_order(b, a),
        -1 <= formula_order(a, b) <= 1,
    decreases a,
{
    match (a, b) {
        (FormulaV::Atom(r, xs), FormulaV::Atom(s, ys)) | (FormulaV::NegAtom(r, xs), FormulaV::NegAtom(s, ys)) => {
            lemma_rel_order_facts(r, s);
            lemma_args_order_antisym(xs, ys);
        },
        (FormulaV::Eq(x1, x2), FormulaV::Eq(y1, y2)) | (FormulaV::Neq(x1, x2), FormulaV::Neq(y1, y2)) => {
            lemma_term_order_antisym(x1, y1);
            lemma_term_order_antisym(x2, y2);
        },
        (FormulaV::And(l1, r1), FormulaV::And(l2, r2)) | (FormulaV::Or(l1, r1), FormulaV::Or(l2, r2)) => {
            lemma_formula_order_antisym(*l1, *l2);
            lemma_formula_order_antisym(*r1, *r2);
        },
        (FormulaV::Forall(s1, b1), FormulaV::Forall(s2, b2)) | (FormulaV::Exists(s1, b1), FormulaV::Exists(s2, b2)) => {
            lemma_lex_facts(s1, s2);
            lemma_formula_order_antisym(*b1, *b2);
        },
        (FormulaV::Not(g1), FormulaV::Not(g2)) => {
            lemma_formula_order_antisym(*g1, *g2);
        },
        _ => {},
    }
}

pub proof fn lemma_formula_order_trans(a: FormulaV, b: FormulaV, c: FormulaV)
    requires
        formula_order(a, b) <= 0,
        formula_order(b, c) <= 0,
    ensures
        formula_order(a, c) <= 0,
        formula_order(a, b) < 0 || formula_order(b, c) < 0 ==> formula_order(a, c) < 0,
    decreases a,
{
    lemma_formula_order_zero(a, b);
    lemma_formula_order_zero(b, c);
    lemma_formula_order_antisym(a, c);
    lemma_formula_order_antisym(a, b);
    lemma_formula_order_antisym(b, c);
    if variant_index(a) == variant_index(b) && variant_index(b) == variant_index(c) {
        match (a, b, c) {
            (FormulaV::Atom(r, xs), FormulaV::Atom(s, ys), FormulaV::Atom(t, zs))
            | (FormulaV::NegAtom(r, xs), FormulaV::NegAtom(s, ys), FormulaV::NegAtom(t, zs)) => {
                lemma_rel_order_facts(r, s);
                lemma_rel_order_facts(s, t);
                lemma_rel_order_facts(r, t);
                if rel_order(r, s) <= 0 && rel_order(s, t) <= 0 {
                    lemma_rel_order_trans(r, s, t);
                }
                if r == s && s == t {
                    lemma_args_order_trans(xs, ys, zs);
                }
            },
            (FormulaV::Eq(x1, x2), FormulaV::Eq(y1, y2), FormulaV::Eq(z1, z2))
            | (FormulaV::Neq(x1, x2), FormulaV::Neq(y1, y2), FormulaV::Neq(z1, z2)) => {
                lemma_term_order_zero(x1, y1);
                lemma_term_order_zero(y1, z1);
                lemma_term_order_zero(x1, z1);
                lemma_term_order_antisym(x1, y1);
                lemma_term_order_antisym(y1, z1);
                lemma_term_order_antisym(x1, z1);
                if term_order(x1, y1) <= 0 && term_order(y1, z1) <= 0 {
                    lemma_term_order_trans(x1, y1, z1);
                }
                if x1 == y1 && y1 == z1 {
                    lemma_term_order_trans(x2, y2, z2);
                }
            },
            (FormulaV::And(l1, r1), FormulaV::And(l2, r2), FormulaV::And(l3, r3))
            | (FormulaV::Or(l1, r1), FormulaV::Or(l2, r2), FormulaV::Or(l3, r3)) => {
                lemma_formula_order_zero(*l1, *l2);
                lemma_formula_order_zero(*l2, *l3);
                lemma_formula_order_zero(*l1, *l3);
                lemma_formula_order_antisym(*l1, *l2);
                lemma_formula_order_antisym(*l2, *l3);
                lemma_formula_order_antisym(*l1, *l3);
                if formula_order(*l1, *l2) <= 0 && formula_order(*l2, *l3) <= 0 {
                    lemma_formula_order_trans(*l1, *l2, *l3);
                }
                if *l1 == *l2 && *l2 == *l3 {
                    lemma_formula_order_trans(*r1, *r2, *r3);
                }
            },
            (FormulaV::Forall(s1, b1), FormulaV::Forall(s2, b2), FormulaV::Forall(s3, b3))
            | (FormulaV::Exists(s1, b1), FormulaV::Exists(s2, b2), FormulaV::Exists(s3, b3)) => {
                lemma_lex_facts(s1, s2);
                lemma_lex_facts(s2, s3);
                lemma_lex_facts(s1, s3);
                if lex_order(s1, s2) <= 0 && lex_order(s2, s3) <= 0 {
                    lemma_lex_trans(s1, s2, s3);
                }
                if s1 == s2 && s2 == s3 {
                    lemma_formula_order_trans(*b1, *b2, *b3);
                }
            },
            (FormulaV::Not(g1), FormulaV::Not(g2), FormulaV::Not(g3)) => {
                lemma_formula_order_trans(*g1, *g2, *g3);
            },
            _ => {},
        }
    }
}

} // verus!
