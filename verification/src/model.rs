//! Finite Σ-structures and their exhaustive enumeration.
//!
//! A [`FiniteModel`] interprets each sort as the carrier `{0, …, n − 1}`,
//! each function symbol as a lookup table on tuples of carrier elements and
//! each relation symbol as a list of the tuples on which it holds.
//!
//! The meaning of a formula in a model is the spec function
//! [`FiniteModel::sat`]; evaluation is proved to compute it.
use vstd::prelude::*;
use crate::formula::{
    args_free, formulas_view, has_free, is_sentence_spec, lemma_args_free, term_has_free, terms_view,
    Formula, FormulaV, Term, TermV,
};
use crate::names::str_eq;
use crate::signature::{cap_u32, capped_u32, fun_views, rel_views, relation_space, sort_names, FunctionSymbol, RelationSymbol, SortSymbol, Signature};
use num_bigint::BigUint;
use crate::bignum::{big_from_usize, big_mul, big_pow, biguint_value};
use crate::mutation::saturating_pow;

verus! {

broadcast use vstd::std_specs::vec::group_vec_axioms;

/// The interpretation of one relation: the tuples on which it holds.
#[derive(Debug, Clone, PartialEq, Eq, Hash)]
pub struct RelationInterp {
    /// Name of the relation.
    pub name: String,
    /// The tuples (of carrier elements) on which the relation holds.
    pub tuples: Vec<Vec<usize>>,
}

/// The interpretation of one function: a lookup table from argument tuples
/// to results.
#[derive(Debug, Clone, PartialEq, Eq, Hash)]
pub struct FunctionInterp {
    /// Name of the function.
    pub name: String,
    /// Argument tuple → result, searched front to back.
    pub table: Vec<(Vec<usize>, usize)>,
}

/// A finite Σ-structure.
///
/// Every sort of the signature should have a positive carrier size; a
/// function application whose symbol or argument tuple is missing from the
/// tables evaluates to element 0.
#[derive(Debug, Clone, PartialEq, Eq, Hash)]
pub struct FiniteModel {
    /// The signature this model interprets.
    pub signature: Signature,
    /// Carrier size of each sort (elements are `0..n`).
    pub carriers: Vec<(SortSymbol, usize)>,
    /// Function interpretations.
    pub function_interps: Vec<FunctionInterp>,
    /// Relation interpretations.
    pub relation_interps: Vec<RelationInterp>,
}

// ---------------------------------------------------------------------------
// Lookups
// ---------------------------------------------------------------------------

/// Carrier size of the first entry for sort `name`.
pub open spec fn carrier_lookup(cs: Seq<(SortSymbol, usize)>, name: Seq<char>) -> Option<usize>
    decreases cs.len(),
{
    if cs.len() == 0 {
        None
    } else if cs[0].0.name@ == name {
        Some(cs[0].1)
    } else {
        carrier_lookup(cs.drop_first(), name)
    }
}

/// Abstract values of a list of tuples.
pub open spec fn tuples_view(ts: Seq<Vec<usize>>) -> Seq<Seq<usize>> {
    ts.map_values(|t: Vec<usize>| t@)
}

/// Tuples of the first interpretation of relation `name`.
pub open spec fn relation_lookup(rs: Seq<RelationInterp>, name: Seq<char>) -> Option<Seq<Seq<usize>>>
    decreases rs.len(),
{
    if rs.len() == 0 {
        None
    } else if rs[0].name@ == name {
        Some(tuples_view(rs[0].tuples@))
    } else {
        relation_lookup(rs.drop_first(), name)
    }
}

/// Table of the first interpretation of function `name`.
pub open spec fn function_lookup(fs: Seq<FunctionInterp>, name: Seq<char>) -> Option<Seq<(Vec<usize>, usize)>>
    decreases fs.len(),
{
    if fs.len() == 0 {
        None
    } else if fs[0].name@ == name {
        Some(fs[0].table@)
    } else {
        function_lookup(fs.drop_first(), name)
    }
}

/// Result of the first table entry for `key`.
pub open spec fn table_lookup(entries: Seq<(Vec<usize>, usize)>, key: Seq<usize>) -> Option<usize>
    decreases entries.len(),
{
    if entries.len() == 0 {
        None
    } else if entries[0].0@ == key {
        Some(entries[0].1)
    } else {
        table_lookup(entries.drop_first(), key)
    }
}

// ---------------------------------------------------------------------------
// Scoping
// ---------------------------------------------------------------------------

/// Every variable of `t` is below `n`.
pub open spec fn term_scoped(t: TermV, n: nat) -> bool
    decreases t,
{
    match t {
        TermV::Var(i) => i < n,
        TermV::App(_, args) => args_scoped(args, n),
    }
}

/// Every variable of every argument is below `n`.
pub open spec fn args_scoped(args: Seq<TermV>, n: nat) -> bool
    decreases args,
{
    args.len() == 0 || (term_scoped(args[0], n) && args_scoped(args.subrange(1, args.len() as int), n))
}

/// Every variable of `f` is bound by a quantifier of `f` or below `n`.
pub open spec fn scoped(f: FormulaV, n: nat) -> bool
    decreases f,
{
    match f {
        FormulaV::Atom(_, args) => args_scoped(args, n),
        FormulaV::NegAtom(_, args) => args_scoped(args, n),
        FormulaV::Eq(a, b) => term_scoped(a, n) && term_scoped(b, n),
        FormulaV::Neq(a, b) => term_scoped(a, n) && term_scoped(b, n),
        FormulaV::And(l, r) => scoped(*l, n) && scoped(*r, n),
        FormulaV::Or(l, r) => scoped(*l, n) && scoped(*r, n),
        FormulaV::Forall(_, b) => scoped(*b, n + 1),
        FormulaV::Exists(_, b) => scoped(*b, n + 1),
        FormulaV::Not(g) => scoped(*g, n),
        _ => true,
    }
}

pub proof fn lemma_args_scoped(args: Seq<TermV>, n: nat, k: int)
    requires
        args_scoped(args, n),
        0 <= k < args.len(),
    ensures
        term_scoped(args[k], n),
    decreases args.len(),
{
    if k > 0 {
        let rest = args.subrange(1, args.len() as int);
        lemma_args_scoped(rest, n, k - 1);
        assert(rest[k - 1] == args[k]);
    }
}

proof fn lemma_term_scoped_of_free(t: TermV, d: nat, n: nat)
    requires
        d <= n,
        forall|x: nat| term_has_free(t, d, x) ==> x + d < n,
    ensures
        term_scoped(t, n),
    decreases t, 0nat,
{
    match t {
        TermV::Var(i) => {
            if i >= d {
                assert(term_has_free(t, d, (i - d) as nat));
            }
        },
        TermV::App(_, args) => {
            assert forall|x: nat| args_free(args, d, x) implies x + d < n by {
                assert(term_has_free(t, d, x));
            }
            lemma_args_scoped_of_free(args, d, n);
        },
    }
}

proof fn lemma_args_scoped_of_free(args: Seq<TermV>, d: nat, n: nat)
    requires
        d <= n,
        forall|x: nat| args_free(args, d, x) ==> x + d < n,
    ensures
        args_scoped(args, n),
    decreases args, 1nat,
{
    if args.len() > 0 {
        let rest = args.subrange(1, args.len() as int);
        assert forall|x: nat| term_has_free(args[0], d, x) implies x + d < n by {
            assert(args_free(args, d, x));
        }
        assert forall|x: nat| args_free(rest, d, x) implies x + d < n by {
            assert(args_free(args, d, x));
        }
        lemma_term_scoped_of_free(args[0], d, n);
        lemma_args_scoped_of_free(rest, d, n);
    }
}

proof fn lemma_scoped_of_free(f: FormulaV, d: nat, n: nat)
    requires
        d <= n,
        forall|x: nat| has_free(f, d, x) ==> x + d < n,
    ensures
        scoped(f, n),
    decreases f,
{
    match f {
        FormulaV::Atom(_, args) | FormulaV::NegAtom(_, args) => {
            assert forall|x: nat| args_free(args, d, x) implies x + d < n by {
                lemma_args_free(args, d, x);
                assert(has_free(f, d, x));
            }
            lemma_args_scoped_of_free(args, d, n);
        },
        FormulaV::Eq(a, b) | FormulaV::Neq(a, b) => {
            assert forall|x: nat| term_has_free(a, d, x) implies x + d < n by {
                assert(has_free(f, d, x));
            }
            assert forall|x: nat| term_has_free(b, d, x) implies x + d < n by {
                assert(has_free(f, d, x));
            }
            lemma_term_scoped_of_free(a, d, n);
            lemma_term_scoped_of_free(b, d, n);
        },
        FormulaV::And(l, r) | FormulaV::Or(l, r) => {
            assert forall|x: nat| has_free(*l, d, x) implies x + d < n by {
                assert(has_free(f, d, x));
            }
            assert forall|x: nat| has_free(*r, d, x) implies x + d < n by {
                assert(has_free(f, d, x));
            }
            lemma_scoped_of_free(*l, d, n);
            lemma_scoped_of_free(*r, d, n);
        },
        FormulaV::Forall(_, b) | FormulaV::Exists(_, b) => {
            let d1 = d + 1;
            assert forall|x: nat| has_free(*b, d1, x) implies x + d1 < n + 1 by {
                assert(has_free(f, d, x));
            }
            lemma_scoped_of_free(*b, d1, n + 1);
        },
        FormulaV::Not(g) => {
            assert forall|x: nat| has_free(*g, d, x) implies x + d < n by {
                assert(has_free(f, d, x));
            }
            lemma_scoped_of_free(*g, d, n);
        },
        _ => {},
    }
}

/// A sentence has every variable bound.
pub proof fn lemma_sentence_scoped(f: FormulaV)
    requires
        is_sentence_spec(f),
    ensures
        scoped(f, 0),
{
    assert forall|x: nat| has_free(f, 0, x) implies x + 0 < 0 by {}
    lemma_scoped_of_free(f, 0, 0);
}

// ---------------------------------------------------------------------------
// Semantics
// ---------------------------------------------------------------------------

impl FiniteModel {
    /// Carrier size of sort `name`, if interpreted.
    pub open spec fn carrier_of(&self, name: Seq<char>) -> Option<usize> {
        carrier_lookup(self.carriers@, name)
    }

    /// Relation `name` holds on `t`.  An uninterpreted relation holds
    /// nowhere.
    pub open spec fn holds(&self, name: Seq<char>, t: Seq<usize>) -> bool {
        match relation_lookup(self.relation_interps@, name) {
            Some(ts) => ts.contains(t),
            None => false,
        }
    }

    /// Value of function `name` on `args`; 0 when the symbol or the tuple
    /// is missing from the tables.
    pub open spec fn apply(&self, name: Seq<char>, args: Seq<usize>) -> usize {
        match function_lookup(self.function_interps@, name) {
            Some(tab) => match table_lookup(tab, args) {
                Some(v) => v,
                None => 0,
            },
            None => 0,
        }
    }

    /// Value of a term under assignment `a` (`a[i]` binds `Var(i)`).
    pub open spec fn term_value(&self, t: TermV, a: Seq<usize>) -> usize
        decreases t,
    {
        match t {
            TermV::Var(i) => a[i as int],
            TermV::App(f, args) => self.apply(f.name, self.args_values(args, a)),
        }
    }

    /// Values of a list of terms.
    pub open spec fn args_values(&self, args: Seq<TermV>, a: Seq<usize>) -> Seq<usize>
        decreases args,
    {
        Seq::new(args.len(), |k: int| if 0 <= k < args.len() { self.term_value(args[k], a) } else { 0 })
    }

    /// Carrier size of a sort, 0 when uninterpreted.
    pub open spec fn size_of(&self, s: Seq<char>) -> nat {
        match self.carrier_of(s) {
            Some(n) => n as nat,
            None => 0,
        }
    }

    /// Truth of `f` under assignment `a`.
    pub open spec fn sat(&self, f: FormulaV, a: Seq<usize>) -> bool
        decreases f, 0nat,
    {
        match f {
            FormulaV::Bot => false,
            FormulaV::Top => true,
            FormulaV::Atom(r, args) => self.holds(r.name, self.args_values(args, a)),
            FormulaV::NegAtom(r, args) => !self.holds(r.name, self.args_values(args, a)),
            FormulaV::Eq(x, y) => self.term_value(x, a) == self.term_value(y, a),
            FormulaV::Neq(x, y) => self.term_value(x, a) != self.term_value(y, a),
            FormulaV::And(l, r) => self.sat(*l, a) && self.sat(*r, a),
            FormulaV::Or(l, r) => self.sat(*l, a) || self.sat(*r, a),
            FormulaV::Forall(s, b) => self.all_below(*b, a, self.size_of(s)),
            FormulaV::Exists(s, b) => self.some_below(*b, a, self.size_of(s)),
            FormulaV::Not(g) => !self.sat(*g, a),
        }
    }

    /// `body` holds when its bound variable is each of `0..k`.
    pub open spec fn all_below(&self, body: FormulaV, a: Seq<usize>, k: nat) -> bool
        decreases body, k + 1,
    {
        if k == 0 {
            true
        } else {
            self.all_below(body, a, (k - 1) as nat) && self.sat(body, seq![(k - 1) as usize] + a)
        }
    }

    /// `body` holds when its bound variable is one of `0..k`.
    pub open spec fn some_below(&self, body: FormulaV, a: Seq<usize>, k: nat) -> bool
        decreases body, k + 1,
    {
        if k == 0 {
            false
        } else {
            self.some_below(body, a, (k - 1) as nat) || self.sat(body, seq![(k - 1) as usize] + a)
        }
    }

    /// Every quantified sort of `f` has a carrier.
    pub open spec fn sorts_interpreted(&self, f: FormulaV) -> bool
        decreases f,
    {
        match f {
            FormulaV::And(l, r) => self.sorts_interpreted(*l) && self.sorts_interpreted(*r),
            FormulaV::Or(l, r) => self.sorts_interpreted(*l) && self.sorts_interpreted(*r),
            FormulaV::Forall(s, b) => self.carrier_of(s) is Some && self.sorts_interpreted(*b),
            FormulaV::Exists(s, b) => self.carrier_of(s) is Some && self.sorts_interpreted(*b),
            FormulaV::Not(g) => self.sorts_interpreted(*g),
            _ => true,
        }
    }

    /// Every sentence of `fs` can be evaluated: it is closed and its sorts
    /// are interpreted.
    pub open spec fn evaluable(&self, fs: Seq<FormulaV>) -> bool {
        forall|i: int| 0 <= i < fs.len() ==> is_sentence_spec(#[trigger] fs[i]) && self.sorts_interpreted(fs[i])
    }

    /// Every sentence of `fs` is true.
    pub open spec fn models(&self, fs: Seq<FormulaV>) -> bool {
        forall|i: int| 0 <= i < fs.len() ==> self.sat(#[trigger] fs[i], seq![])
    }
}

/// Largest carrier size, 0 when there is none.
pub open spec fn max_carrier(cs: Seq<(SortSymbol, usize)>) -> usize
    decreases cs.len(),
{
    if cs.len() == 0 {
        0
    } else {
        let rest = max_carrier(cs.drop_first());
        if cs[0].1 >= rest { cs[0].1 } else { rest }
    }
}

// ---------------------------------------------------------------------------
// Evaluation
// ---------------------------------------------------------------------------

/// Element-wise equality of two tuples.
pub fn tuple_eq(a: &[usize], b: &[usize]) -> (r: bool)
    ensures
        r == (a@ == b@),
{
    if a.len() != b.len() {
        return false;
    }
    let mut i: usize = 0;
    while i < a.len()
        invariant
            a@.len() == b@.len(),
            i <= a@.len(),
            forall|k: int| 0 <= k < i ==> a@[k] == b@[k],
        decreases a.len() - i,
    {
        if a[i] != b[i] {
            return false;
        }
        i = i + 1;
    }
    assert(a@ =~= b@);
    true
}

/// `new_innermost` followed by `assignment`: the assignment under one more
/// binder.
fn push_assignment(assignment: &[usize], new_innermost: usize) -> (r: Vec<usize>)
    ensures
        r@ == seq![new_innermost] + assignment@,
{
    let mut extended: Vec<usize> = Vec::new();
    extended.push(new_innermost);
    let mut i: usize = 0;
    while i < assignment.len()
        invariant
            i <= assignment@.len(),
            extended@ == seq![new_innermost] + assignment@.subrange(0, i as int),
        decreases assignment.len() - i,
    {
        extended.push(assignment[i]);
        assert(assignment@.subrange(0, i + 1) =~= assignment@.subrange(0, i as int).push(assignment@[i as int]));
        i = i + 1;
    }
    assert(assignment@.subrange(0, i as int) =~= assignment@);
    extended
}

proof fn lemma_all_below_mono(m: &FiniteModel, body: FormulaV, a: Seq<usize>, j: nat, k: nat)
    requires
        j <= k,
        !m.all_below(body, a, j),
    ensures
        !m.all_below(body, a, k),
    decreases k,
{
    if j < k {
        lemma_all_below_mono(m, body, a, j, (k - 1) as nat);
    }
}

proof fn lemma_some_below_mono(m: &FiniteModel, body: FormulaV, a: Seq<usize>, j: nat, k: nat)
    requires
        j <= k,
        m.some_below(body, a, j),
    ensures
        m.some_below(body, a, k),
    decreases k,
{
    if j < k {
        lemma_some_below_mono(m, body, a, j, (k - 1) as nat);
    }
}

impl FiniteModel {
    /// Carrier size of sort `name`, if interpreted.
    pub fn carrier(&self, name: &str) -> (r: Option<usize>)
        ensures
            r == self.carrier_of(name@),
    {
        let ghost cs = self.carriers@;
        let mut i: usize = 0;
        assert(cs.skip(0) =~= cs);
        while i < self.carriers.len()
            invariant
                cs == self.carriers@,
                i <= cs.len(),
                carrier_lookup(cs, name@) == carrier_lookup(cs.skip(i as int), name@),
            decreases cs.len() - i,
        {
            if str_eq(self.carriers[i].0.name.as_str(), name) {
                return Some(self.carriers[i].1);
            }
            assert(cs.skip(i as int).drop_first() =~= cs.skip(i + 1));
            i = i + 1;
        }
        None
    }

    fn carrier_size(&self, sort: &SortSymbol) -> (r: usize)
        requires
            self.carrier_of(sort@) is Some,
        ensures
            self.carrier_of(sort@) == Some(r),
    {
        let ghost cs = self.carriers@;
        let mut i: usize = 0;
        assert(cs.skip(0) =~= cs);
        while i < self.carriers.len()
            invariant
                cs == self.carriers@,
                i <= cs.len(),
                carrier_lookup(cs, sort@) == carrier_lookup(cs.skip(i as int), sort@),
            decreases cs.len() - i,
        {
            if str_eq(self.carriers[i].0.name.as_str(), sort.name.as_str()) {
                return self.carriers[i].1;
            }
            assert(cs.skip(i as int).drop_first() =~= cs.skip(i + 1));
            i = i + 1;
        }
        0
    }

    /// Whether relation `name` holds on `tuple`.
    pub fn relation_holds(&self, name: &str, tuple: &[usize]) -> (r: bool)
        ensures
            r == self.holds(name@, tuple@),
    {
        let ghost rs = self.relation_interps@;
        let mut i: usize = 0;
        assert(rs.skip(0) =~= rs);
        while i < self.relation_interps.len()
            invariant
                rs == self.relation_interps@,
                i <= rs.len(),
                relation_lookup(rs, name@) == relation_lookup(rs.skip(i as int), name@),
            decreases rs.len() - i,
        {
            let interp = &self.relation_interps[i];
            if str_eq(interp.name.as_str(), name) {
                let ghost ts = tuples_view(interp.tuples@);
                assert(rs.skip(i as int)[0] == rs[i as int]);
                assert(relation_lookup(rs, name@) == Some(ts));
                let mut j: usize = 0;
                while j < interp.tuples.len()
                    invariant
                        j <= interp.tuples@.len(),
                        ts == tuples_view(interp.tuples@),
                        relation_lookup(self.relation_interps@, name@) == Some(ts),
                        forall|k: int| 0 <= k < j ==> ts[k] != tuple@,
                    decreases interp.tuples.len() - j,
                {
                    if tuple_eq(interp.tuples[j].as_slice(), tuple) {
                        assert(ts[j as int] == tuple@);
                        return true;
                    }
                    j = j + 1;
                }
                return false;
            }
            assert(rs.skip(i as int).drop_first() =~= rs.skip(i + 1));
            i = i + 1;
        }
        false
    }

    /// Value of function `name` on `args` (0 when no entry gives one).
    pub fn apply_function(&self, name: &str, args: &[usize]) -> (r: usize)
        ensures
            r == self.apply(name@, args@),
    {
        let ghost fs = self.function_interps@;
        let mut i: usize = 0;
        assert(fs.skip(0) =~= fs);
        while i < self.function_interps.len()
            invariant
                fs == self.function_interps@,
                i <= fs.len(),
                function_lookup(fs, name@) == function_lookup(fs.skip(i as int), name@),
            decreases fs.len() - i,
        {
            let interp = &self.function_interps[i];
            if str_eq(interp.name.as_str(), name) {
                let ghost tab = interp.table@;
                assert(fs.skip(i as int)[0] == fs[i as int]);
                assert(function_lookup(fs, name@) == Some(tab));
                let mut j: usize = 0;
                assert(tab.skip(0) =~= tab);
                while j < interp.table.len()
                    invariant
                        function_lookup(self.function_interps@, name@) == Some(tab),
                        tab == interp.table@,
                        j <= tab.len(),
                        table_lookup(tab, args@) == table_lookup(tab.skip(j as int), args@),
                    decreases tab.len() - j,
                {
                    if tuple_eq(interp.table[j].0.as_slice(), args) {
                        assert(tab.skip(j as int)[0] == tab[j as int]);
                        return interp.table[j].1;
                    }
                    assert(tab.skip(j as int).drop_first() =~= tab.skip(j + 1));
                    j = j + 1;
                }
                return 0;
            }
            assert(fs.skip(i as int).drop_first() =~= fs.skip(i + 1));
            i = i + 1;
        }
        0
    }

    fn eval_term(&self, t: &Term, assignment: &[usize]) -> (r: usize)
        requires
            term_scoped(t@, assignment@.len()),
        ensures
            r == self.term_value(t@, assignment@),
        decreases t, 0nat,
    {
        match t {
            Term::Var(i) => assignment[*i],
            Term::App { function, args } => {
                let vals = self.eval_args(args, assignment);
                self.apply_function(function.name.as_str(), vals.as_slice())
            },
        }
    }

    fn eval_args(&self, args: &Vec<Term>, assignment: &[usize]) -> (r: Vec<usize>)
        requires
            args_scoped(terms_view(args@), assignment@.len()),
        ensures
            r@ == self.args_values(terms_view(args@), assignment@),
        decreases args, 1nat,
    {
        let mut out: Vec<usize> = Vec::new();
        let mut i: usize = 0;
        while i < args.len()
            invariant
                i <= args@.len(),
                out@.len() == i,
                args_scoped(terms_view(args@), assignment@.len()),
                forall|k: int| 0 <= k < i ==> out@[k] == self.term_value(#[trigger] terms_view(args@)[k], assignment@),
            decreases args.len() - i,
        {
            proof {
                assert(decreases_to!(args => args[i as int]));
                lemma_args_scoped(terms_view(args@), assignment@.len(), i as int);
            }
            let v = self.eval_term(&args[i], assignment);
            out.push(v);
            i = i + 1;
        }
        assert(out@ =~= self.args_values(terms_view(args@), assignment@));
        out
    }

    /// Evaluate a formula under an explicit assignment of de Bruijn indices
    /// to carrier elements: `assignment[i]` binds `Var(i)`.
    pub fn evaluate_with_assignment(&self, formula: &Formula, assignment: &[usize]) -> (r: bool)
        requires
            scoped(formula@, assignment@.len()),
            self.sorts_interpreted(formula@),
        ensures
            r == self.sat(formula@, assignment@),
        decreases formula, 0nat,
    {
        match formula {
            Formula::Top => true,
            Formula::Bot => false,
            Formula::Atom { relation, args } => {
                let tuple = self.eval_args(args, assignment);
                self.relation_holds(relation.name.as_str(), tuple.as_slice())
            },
            Formula::NegAtom { relation, args } => {
                let tuple = self.eval_args(args, assignment);
                !self.relation_holds(relation.name.as_str(), tuple.as_slice())
            },
            Formula::Eq(a, b) => self.eval_term(a, assignment) == self.eval_term(b, assignment),
            Formula::Neq(a, b) => self.eval_term(a, assignment) != self.eval_term(b, assignment),
            Formula::And(l, r) => self.evaluate_with_assignment(l, assignment)
                && self.evaluate_with_assignment(r, assignment),
            Formula::Or(l, r) => self.evaluate_with_assignment(l, assignment)
                || self.evaluate_with_assignment(r, assignment),
            Formula::Not(inner) => !self.evaluate_with_assignment(inner, assignment),
            Formula::Forall { sort, body } => {
                let n = self.carrier_size(sort);
                self.eval_forall(body, assignment, n)
            },
            Formula::Exists { sort, body } => {
                let n = self.carrier_size(sort);
                self.eval_exists(body, assignment, n)
            },
        }
    }

    fn eval_forall(&self, body: &Formula, assignment: &[usize], n: usize) -> (r: bool)
        requires
            scoped(body@, assignment@.len() + 1),
            self.sorts_interpreted(body@),
        ensures
            r == self.all_below(body@, assignment@, n as nat),
        decreases body, 1nat,
    {
        let mut i: usize = 0;
        while i < n
            invariant
                i <= n,
                scoped(body@, assignment@.len() + 1),
                self.sorts_interpreted(body@),
                self.all_below(body@, assignment@, i as nat),
            decreases n - i,
        {
            let extended = push_assignment(assignment, i);
            let v = self.evaluate_with_assignment(body, extended.as_slice());
            assert(self.all_below(body@, assignment@, (i + 1) as nat) == (self.all_below(
                body@,
                assignment@,
                i as nat,
            ) && self.sat(body@, seq![i] + assignment@)));
            if !v {
                proof {
                    lemma_all_below_mono(self, body@, assignment@, (i + 1) as nat, n as nat);
                }
                return false;
            }
            i = i + 1;
        }
        true
    }

    fn eval_exists(&self, body: &Formula, assignment: &[usize], n: usize) -> (r: bool)
        requires
            scoped(body@, assignment@.len() + 1),
            self.sorts_interpreted(body@),
        ensures
            r == self.some_below(body@, assignment@, n as nat),
        decreases body, 1nat,
    {
        let mut i: usize = 0;
        while i < n
            invariant
                i <= n,
                scoped(body@, assignment@.len() + 1),
                self.sorts_interpreted(body@),
                !self.some_below(body@, assignment@, i as nat),
            decreases n - i,
        {
            let extended = push_assignment(assignment, i);
            let v = self.evaluate_with_assignment(body, extended.as_slice());
            assert(self.some_below(body@, assignment@, (i + 1) as nat) == (self.some_below(
                body@,
                assignment@,
                i as nat,
            ) || self.sat(body@, seq![i] + assignment@)));
            if v {
                proof {
                    lemma_some_below_mono(self, body@, assignment@, (i + 1) as nat, n as nat);
                }
                return true;
            }
            i = i + 1;
        }
        false
    }

    /// Evaluate a sentence in this model.
    pub fn evaluate(&self, formula: &Formula) -> (r: bool)
        requires
            is_sentence_spec(formula@),
            self.sorts_interpreted(formula@),
        ensures
            r == self.sat(formula@, seq![]),
    {
        proof {
            lemma_sentence_scoped(formula@);
        }
        let empty: Vec<usize> = Vec::new();
        assert(empty@ =~= Seq::<usize>::empty());
        self.evaluate_with_assignment(formula, empty.as_slice())
    }

    fn sorts_ok(&self, f: &Formula) -> (r: bool)
        ensures
            r == self.sorts_interpreted(f@),
        decreases f,
    {
        match f {
            Formula::And(l, r) => self.sorts_ok(l) && self.sorts_ok(r),
            Formula::Or(l, r) => self.sorts_ok(l) && self.sorts_ok(r),
            Formula::Forall { sort, body } => self.carrier(sort.name.as_str()).is_some() && self.sorts_ok(body),
            Formula::Exists { sort, body } => self.carrier(sort.name.as_str()).is_some() && self.sorts_ok(body),
            Formula::Not(g) => self.sorts_ok(g),
            _ => true,
        }
    }

    /// True iff every axiom of `spec` is a sentence whose quantified sorts
    /// all have a carrier, so that it can be evaluated here.
    pub fn can_evaluate(&self, spec: &[Formula]) -> (r: bool)
        requires
            forall|i: int| 0 <= i < spec@.len() ==> crate::formula::rank((#[trigger] spec@[i])@) <= usize::MAX,
        ensures
            r == self.evaluable(formulas_view(spec@)),
    {
        let ghost fs = formulas_view(spec@);
        let mut i: usize = 0;
        while i < spec.len()
            invariant
                i <= spec@.len(),
                fs == formulas_view(spec@),
                forall|k: int| 0 <= k < spec@.len() ==> crate::formula::rank((#[trigger] spec@[k])@) <= usize::MAX,
                forall|k: int| 0 <= k < i ==> is_sentence_spec(#[trigger] fs[k]) && self.sorts_interpreted(fs[k]),
            decreases spec.len() - i,
        {
            if !spec[i].is_sentence() || !self.sorts_ok(&spec[i]) {
                proof {
                    assert(fs[i as int] == spec@[i as int]@);
                }
                return false;
            }
            i = i + 1;
        }
        true
    }

    /// True iff every axiom of `spec` is true in this model.
    pub fn satisfies_spec(&self, spec: &[Formula]) -> (r: bool)
        requires
            self.evaluable(formulas_view(spec@)),
        ensures
            r == self.models(formulas_view(spec@)),
    {
        let ghost fs = formulas_view(spec@);
        let mut i: usize = 0;
        while i < spec.len()
            invariant
                i <= spec@.len(),
                fs == formulas_view(spec@),
                self.evaluable(fs),
                forall|k: int| 0 <= k < i ==> self.sat(#[trigger] fs[k], seq![]),
            decreases spec.len() - i,
        {
            assert(fs[i as int] == spec@[i as int]@);
            if !self.evaluate(&spec[i]) {
                return false;
            }
            i = i + 1;
        }
        true
    }

    /// The largest carrier size; 0 when there is no sort.
    pub fn domain_size(&self) -> (r: usize)
        ensures
            r == max_carrier(self.carriers@),
    {
        let ghost cs = self.carriers@;
        let mut best: usize = 0;
        let mut i: usize = self.carriers.len();
        assert(cs.skip(cs.len() as int) =~= Seq::<(SortSymbol, usize)>::empty());
        while i > 0
            invariant
                cs == self.carriers@,
                i <= cs.len(),
                best == max_carrier(cs.skip(i as int)),
            decreases i,
        {
            i = i - 1;
            assert(cs.skip(i as int).drop_first() =~= cs.skip(i + 1));
            let v = self.carriers[i].1;
            if v >= best {
                best = v;
            }
        }
        assert(cs.skip(0) =~= cs);
        best
    }
}

// ---------------------------------------------------------------------------
// Enumeration
// ---------------------------------------------------------------------------

/// `b` to the power `e`.
pub open spec fn pow_nat(b: nat, e: nat) -> nat
    decreases e,
{
    if e == 0 {
        1
    } else {
        b * pow_nat(b, (e - 1) as nat)
    }
}

/// The `arity` base-`base` digits of `idx`, most significant first (only
/// the low `arity` digits are kept).
pub open spec fn tuple_of(idx: nat, arity: nat, base: nat) -> Seq<usize>
    decreases arity,
{
    if arity == 0 {
        seq![]
    } else {
        tuple_of(idx / base, (arity - 1) as nat, base).push((idx % base) as usize)
    }
}

/// Bit `k` of `bits`.
pub open spec fn bit_set(bits: u64, k: u64) -> bool {
    (bits >> k) & 1 == 1
}

/// Number of tuples of a relation of the given arity over `n` elements.
pub open spec fn tuple_count(r: RelationSymbol, n: nat) -> nat {
    pow_nat(n, r.arity@.len())
}

/// First bit of relation `i` in the relation bitvector: the tuple counts of
/// the relations before it, summed.
pub open spec fn bit_offset(rels: Seq<RelationSymbol>, i: nat, n: nat) -> nat
    decreases i,
{
    if i == 0 {
        0
    } else {
        bit_offset(rels, (i - 1) as nat, n) + tuple_count(rels[i - 1], n)
    }
}

/// The tuples `tuple_of(t)` for `t < count` whose bit `offset + t` is set,
/// in increasing `t`.
pub open spec fn selected_tuples(bits: u64, offset: nat, arity: nat, n: nat, count: nat) -> Seq<Seq<usize>>
    decreases count,
{
    if count == 0 {
        seq![]
    } else {
        let prev = selected_tuples(bits, offset, arity, n, (count - 1) as nat);
        if bit_set(bits, (offset + count - 1) as u64) {
            prev.push(tuple_of((count - 1) as nat, arity, n))
        } else {
            prev
        }
    }
}

/// Abstract value of a relation interpretation.
pub open spec fn rel_interp_view(r: RelationInterp) -> (Seq<char>, Seq<Seq<usize>>) {
    (r.name@, tuples_view(r.tuples@))
}

/// The relation interpretations that bitvector `bits` encodes: relation `i`
/// holds on tuple number `t` iff bit `bit_offset(i) + t` is set.
pub open spec fn relation_option(rels: Seq<RelationSymbol>, n: nat, bits: u64) -> Seq<(Seq<char>, Seq<Seq<usize>>)> {
    Seq::new(
        rels.len(),
        |i: int|
            (
                rels[i].name@,
                selected_tuples(bits, bit_offset(rels, i as nat, n), rels[i].arity@.len(), n, tuple_count(rels[i], n)),
            ),
    )
}

/// Abstract value of a function table.
pub open spec fn table_view(t: Seq<(Vec<usize>, usize)>) -> Seq<(Seq<usize>, usize)> {
    t.map_values(|e: (Vec<usize>, usize)| (e.0@, e.1))
}

/// Table number `idx` of a function of the given arity: input tuple
/// number `i` maps to base-`n` digit `i` of `idx` (least significant
/// first).
pub open spec fn table_of(arity: nat, n: nat, idx: nat) -> Seq<(Seq<usize>, usize)> {
    Seq::new(
        pow_nat(n, arity),
        |i: int| (tuple_of(i as nat, arity, n), ((idx / pow_nat(n, i as nat)) % n) as usize),
    )
}

/// Abstract value of a function interpretation.
pub open spec fn fun_interp_view(f: FunctionInterp) -> (Seq<char>, Seq<(Seq<usize>, usize)>) {
    (f.name@, table_view(f.table@))
}

/// Number of tables of a function symbol over `n` elements.
pub open spec fn table_count(f: FunctionSymbol, n: nat) -> nat {
    pow_nat(n, pow_nat(n, f.domain@.len()))
}

/// Every combination of tables for `fs`, the last function varying
/// fastest.
pub open spec fn function_options(fs: Seq<FunctionSymbol>, n: nat) -> Seq<Seq<(Seq<char>, Seq<(Seq<usize>, usize)>)>>
    decreases fs.len(),
{
    if fs.len() == 0 {
        seq![seq![]]
    } else {
        let prev = function_options(fs.drop_last(), n);
        let f = fs.last();
        let t = table_count(f, n);
        Seq::new(
            prev.len() * t,
            |k: int| prev[k / (t as int)].push((f.name@, table_of(f.domain@.len(), n, (k % (t as int)) as nat))),
        )
    }
}

/// Number of function-table combinations.
pub open spec fn function_option_count(fs: Seq<FunctionSymbol>, n: nat) -> nat
    decreases fs.len(),
{
    if fs.len() == 0 {
        1
    } else {
        function_option_count(fs.drop_last(), n) * table_count(fs.last(), n)
    }
}

proof fn lemma_pow_positive(b: nat, e: nat)
    requires
        b > 0,
    ensures
        pow_nat(b, e) > 0,
    decreases e,
{
    if e > 0 {
        lemma_pow_positive(b, (e - 1) as nat);
        assert(b * pow_nat(b, (e - 1) as nat) > 0) by (nonlinear_arith)
            requires
                b > 0,
                pow_nat(b, (e - 1) as nat) > 0,
        ;
    }
}

proof fn lemma_pow_mono(b: nat, i: nat, e: nat)
    requires
        b > 0,
        i <= e,
    ensures
        pow_nat(b, i) <= pow_nat(b, e),
    decreases e,
{
    if i < e {
        lemma_pow_mono(b, i, (e - 1) as nat);
        lemma_pow_positive(b, (e - 1) as nat);
        assert(pow_nat(b, (e - 1) as nat) <= b * pow_nat(b, (e - 1) as nat)) by (nonlinear_arith)
            requires
                b > 0,
        ;
    }
}

proof fn lemma_function_options_len(fs: Seq<FunctionSymbol>, n: nat)
    ensures
        function_options(fs, n).len() == function_option_count(fs, n),
    decreases fs.len(),
{
    if fs.len() > 0 {
        lemma_function_options_len(fs.drop_last(), n);
    }
}

/// `base` to the power `exp`.
fn pow_usize(base: usize, exp: usize) -> (r: usize)
    requires
        pow_nat(base as nat, exp as nat) <= usize::MAX,
    ensures
        r == pow_nat(base as nat, exp as nat),
{
    let mut r: usize = 1;
    let mut i: usize = 0;
    while i < exp
        invariant
            i <= exp,
            r == pow_nat(base as nat, i as nat),
            pow_nat(base as nat, exp as nat) <= usize::MAX,
        decreases exp - i,
    {
        proof {
            if base > 0 {
                lemma_pow_mono(base as nat, (i + 1) as nat, exp as nat);
            } else {
                assert(pow_nat(base as nat, (i + 1) as nat) == 0);
            }
            assert(pow_nat(base as nat, (i + 1) as nat) == base * pow_nat(base as nat, i as nat));
            assert(r * base == base * r) by (nonlinear_arith);
        }
        r = r * base;
        i = i + 1;
    }
    r
}

/// Decode tuple number `idx` into an `arity`-tuple in base `base`,
/// most significant digit first, so that counting up walks the tuples in
/// lexicographic order.
fn int_to_tuple(idx: usize, arity: usize, base: usize) -> (r: Vec<usize>)
    requires
        base > 0,
    ensures
        r@ == tuple_of(idx as nat, arity as nat, base as nat),
    decreases arity,
{
    if arity == 0 {
        Vec::new()
    } else {
        let mut v = int_to_tuple(idx / base, arity - 1, base);
        v.push(idx % base);
        v
    }
}

/// The tuples of one relation selected by `bits`.
fn select_tuples(bits: u64, offset: usize, arity: usize, n: usize, count: usize) -> (r: Vec<Vec<usize>>)
    requires
        n > 0,
        offset + count <= 64,
    ensures
        tuples_view(r@) == selected_tuples(bits, offset as nat, arity as nat, n as nat, count as nat),
{
    let mut tuples: Vec<Vec<usize>> = Vec::new();
    let mut t: usize = 0;
    while t < count
        invariant
            t <= count,
            n > 0,
            offset + count <= 64,
            tuples_view(tuples@) == selected_tuples(bits, offset as nat, arity as nat, n as nat, t as nat),
        decreases count - t,
    {
        let bit_idx: u64 = (offset + t) as u64;
        let ghost before = tuples@;
        if (bits >> bit_idx) & 1 == 1 {
            tuples.push(int_to_tuple(t, arity, n));
            assert(tuples_view(tuples@) =~= tuples_view(before).push(tuple_of(t as nat, arity as nat, n as nat)));
        }
        t = t + 1;
    }
    tuples
}

/// Views of a list of relation interpretations.
pub open spec fn rel_interps_view(rs: Seq<RelationInterp>) -> Seq<(Seq<char>, Seq<Seq<usize>>)> {
    rs.map_values(|r: RelationInterp| rel_interp_view(r))
}

/// Views of a list of function interpretations.
pub open spec fn fun_interps_view(fs: Seq<FunctionInterp>) -> Seq<(Seq<char>, Seq<(Seq<usize>, usize)>)> {
    fs.map_values(|f: FunctionInterp| fun_interp_view(f))
}

/// The relation bitvector fits: its width is below 64.
pub open spec fn relation_bits_fit(rels: Seq<RelationSymbol>, n: nat) -> bool {
    bit_offset(rels, rels.len(), n) < 64
}

proof fn lemma_bit_offset_mono(rels: Seq<RelationSymbol>, i: nat, j: nat, n: nat)
    requires
        i <= j <= rels.len(),
    ensures
        bit_offset(rels, i, n) + (if i < j { tuple_count(rels[i as int], n) } else { 0 }) <= bit_offset(rels, j, n),
    decreases j,
{
    if i < j {
        lemma_bit_offset_mono(rels, i, (j - 1) as nat, n);
    }
}

/// The relation interpretations encoded by one bitvector.
fn relation_option_at(rels: &Vec<RelationSymbol>, offsets: &Vec<usize>, n: usize, bits: u64) -> (r: Vec<RelationInterp>)
    requires
        n > 0,
        relation_bits_fit(rels@, n as nat),
        offsets@.len() == rels@.len() + 1,
        forall|i: int| 0 <= i <= rels@.len() ==> #[trigger] offsets@[i] == bit_offset(rels@, i as nat, n as nat),
    ensures
        rel_interps_view(r@) == relation_option(rels@, n as nat, bits),
{
    let mut out: Vec<RelationInterp> = Vec::new();
    let mut i: usize = 0;
    while i < rels.len()
        invariant
            i <= rels@.len(),
            n > 0,
            relation_bits_fit(rels@, n as nat),
            offsets@.len() == rels@.len() + 1,
            forall|k: int| 0 <= k <= rels@.len() ==> #[trigger] offsets@[k] == bit_offset(rels@, k as nat, n as nat),
            out@.len() == i,
            forall|k: int| 0 <= k < i ==> rel_interp_view(#[trigger] out@[k]) == relation_option(rels@, n as nat, bits)[k],
        decreases rels.len() - i,
    {
        let r = &rels[i];
        proof {
            lemma_bit_offset_mono(rels@, i as nat, (i + 1) as nat, n as nat);
            lemma_bit_offset_mono(rels@, (i + 1) as nat, rels@.len(), n as nat);
        }
        let arity = r.arity.len();
        let count = offsets[i + 1] - offsets[i];
        let tuples = select_tuples(bits, offsets[i], arity, n, count);
        out.push(RelationInterp { name: r.name.clone(), tuples });
        i = i + 1;
    }
    assert(rel_interps_view(out@) =~= relation_option(rels@, n as nat, bits));
    out
}

/// A copy of a tuple.
pub fn copy_tuple(a: &[usize]) -> (r: Vec<usize>)
    ensures
        r@ == a@,
{
    let mut out: Vec<usize> = Vec::new();
    let mut i: usize = 0;
    while i < a.len()
        invariant
            i <= a@.len(),
            out@ == a@.subrange(0, i as int),
        decreases a.len() - i,
    {
        out.push(a[i]);
        assert(a@.subrange(0, i + 1) =~= a@.subrange(0, i as int).push(a@[i as int]));
        i = i + 1;
    }
    assert(a@.subrange(0, i as int) =~= a@);
    out
}

fn copy_function_interp(f: &FunctionInterp) -> (r: FunctionInterp)
    ensures
        fun_interp_view(r) == fun_interp_view(*f),
{
    let mut table: Vec<(Vec<usize>, usize)> = Vec::new();
    let mut i: usize = 0;
    while i < f.table.len()
        invariant
            i <= f.table@.len(),
            table@.len() == i,
            forall|k: int| 0 <= k < i ==> (#[trigger] table@[k]).0@ == f.table@[k].0@ && table@[k].1 == f.table@[k].1,
        decreases f.table.len() - i,
    {
        table.push((copy_tuple(f.table[i].0.as_slice()), f.table[i].1));
        i = i + 1;
    }
    assert(table_view(table@) =~= table_view(f.table@));
    FunctionInterp { name: f.name.clone(), table }
}

fn copy_function_interps(v: &Vec<FunctionInterp>) -> (r: Vec<FunctionInterp>)
    ensures
        fun_interps_view(r@) == fun_interps_view(v@),
{
    let mut out: Vec<FunctionInterp> = Vec::new();
    let mut i: usize = 0;
    while i < v.len()
        invariant
            i <= v@.len(),
            out@.len() == i,
            forall|k: int| 0 <= k < i ==> fun_interp_view(#[trigger] out@[k]) == fun_interp_view(v@[k]),
        decreases v.len() - i,
    {
        out.push(copy_function_interp(&v[i]));
        i = i + 1;
    }
    assert(fun_interps_view(out@) =~= fun_interps_view(v@));
    out
}

fn copy_relation_interps(v: &Vec<RelationInterp>) -> (r: Vec<RelationInterp>)
    ensures
        rel_interps_view(r@) == rel_interps_view(v@),
{
    let mut out: Vec<RelationInterp> = Vec::new();
    let mut i: usize = 0;
    while i < v.len()
        invariant
            i <= v@.len(),
            out@.len() == i,
            forall|k: int| 0 <= k < i ==> rel_interp_view(#[trigger] out@[k]) == rel_interp_view(v@[k]),
        decreases v.len() - i,
    {
        let src = &v[i];
        let mut tuples: Vec<Vec<usize>> = Vec::new();
        let mut j: usize = 0;
        while j < src.tuples.len()
            invariant
                j <= src.tuples@.len(),
                tuples@.len() == j,
                forall|k: int| 0 <= k < j ==> (#[trigger] tuples@[k])@ == src.tuples@[k]@,
            decreases src.tuples.len() - j,
        {
            tuples.push(copy_tuple(src.tuples[j].as_slice()));
            j = j + 1;
        }
        assert(tuples_view(tuples@) =~= tuples_view(src.tuples@));
        out.push(RelationInterp { name: src.name.clone(), tuples });
        i = i + 1;
    }
    assert(rel_interps_view(out@) =~= rel_interps_view(v@));
    out
}

fn copy_carriers(v: &Vec<(SortSymbol, usize)>) -> (r: Vec<(SortSymbol, usize)>)
    ensures
        carriers_view(r@) == carriers_view(v@),
{
    let mut out: Vec<(SortSymbol, usize)> = Vec::new();
    let mut i: usize = 0;
    while i < v.len()
        invariant
            i <= v@.len(),
            out@.len() == i,
            forall|k: int| 0 <= k < i ==> (#[trigger] out@[k]).0@ == v@[k].0@ && out@[k].1 == v@[k].1,
        decreases v.len() - i,
    {
        out.push((v[i].0.copy(), v[i].1));
        i = i + 1;
    }
    assert(carriers_view(out@) =~= carriers_view(v@));
    out
}

/// `a` and `b` interpret the same signature by the same carriers and
/// tables.
pub open spec fn same_structure(a: FiniteModel, b: FiniteModel) -> bool {
    &&& a.signature.same_as(&b.signature)
    &&& carriers_view(a.carriers@) == carriers_view(b.carriers@)
    &&& fun_interps_view(a.function_interps@) == fun_interps_view(b.function_interps@)
    &&& rel_interps_view(a.relation_interps@) == rel_interps_view(b.relation_interps@)
}

impl FiniteModel {
    /// A deep copy.
    pub fn copy(&self) -> (r: FiniteModel)
        ensures
            same_structure(r, *self),
    {
        FiniteModel {
            signature: self.signature.copy(),
            carriers: copy_carriers(&self.carriers),
            function_interps: copy_function_interps(&self.function_interps),
            relation_interps: copy_relation_interps(&self.relation_interps),
        }
    }
}

/// Table number `table_idx` of a function of the given arity.
fn table_at(arity: usize, n: usize, input_count: usize, table_idx: usize) -> (r: Vec<(Vec<usize>, usize)>)
    requires
        n > 0,
        input_count == pow_nat(n as nat, arity as nat),
    ensures
        table_view(r@) == table_of(arity as nat, n as nat, table_idx as nat),
{
    let mut table: Vec<(Vec<usize>, usize)> = Vec::new();
    let mut remaining: usize = table_idx;
    let mut input: usize = 0;
    assert(pow_nat(n as nat, 0) == 1);
    assert(table_idx as nat / 1 == table_idx as nat);
    while input < input_count
        invariant
            n > 0,
            input <= input_count,
            input_count == pow_nat(n as nat, arity as nat),
            remaining == table_idx as nat / pow_nat(n as nat, input as nat),
            table@.len() == input,
            forall|k: int| 0 <= k < input ==> table_view(table@)[k] == table_of(arity as nat, n as nat, table_idx as nat)[k],
        decreases input_count - input,
    {
        let output = remaining % n;
        proof {
            lemma_pow_positive(n as nat, input as nat);
            vstd::arithmetic::div_mod::lemma_div_denominator(
                table_idx as int,
                pow_nat(n as nat, input as nat) as int,
                n as int,
            );
            assert(pow_nat(n as nat, (input + 1) as nat) == n * pow_nat(n as nat, input as nat));
            assert(pow_nat(n as nat, input as nat) * n == n * pow_nat(n as nat, input as nat)) by (nonlinear_arith);
        }
        remaining = remaining / n;
        let key = int_to_tuple(input, arity, n);
        let ghost before = table@;
        table.push((key, output));
        assert(table_view(table@) =~= table_view(before).push((key@, output)));
        input = input + 1;
    }
    assert(table_view(table@) =~= table_of(arity as nat, n as nat, table_idx as nat));
    table
}

/// Views of a list of function-interpretation combinations.
pub open spec fn options_view(cs: Seq<Vec<FunctionInterp>>) -> Seq<Seq<(Seq<char>, Seq<(Seq<usize>, usize)>)>> {
    cs.map_values(|c: Vec<FunctionInterp>| fun_interps_view(c@))
}

/// Every intermediate size of the function enumeration fits in a `usize`.
pub open spec fn function_tables_fit(fs: Seq<FunctionSymbol>, n: nat) -> bool {
    &&& forall|i: int| 0 <= i < fs.len() ==> pow_nat(n, (#[trigger] fs[i]).domain@.len()) <= usize::MAX
    &&& forall|i: int| 0 <= i < fs.len() ==> table_count(#[trigger] fs[i], n) <= usize::MAX
    &&& function_option_count(fs, n) <= usize::MAX
}

proof fn lemma_option_count_prefix(fs: Seq<FunctionSymbol>, n: nat, i: nat)
    requires
        n > 0,
        i <= fs.len(),
    ensures
        function_option_count(fs.take(i as int), n) <= function_option_count(fs, n),
        function_option_count(fs.take(i as int), n) >= 1,
    decreases fs.len(),
{
    if fs.len() > 0 {
        let p = fs.drop_last();
        if i == fs.len() {
            assert(fs.take(i as int) =~= fs);
            lemma_option_count_prefix(p, n, (i - 1) as nat);
            assert(p.take((i - 1) as int) =~= fs.take((i - 1) as int));
        } else {
            lemma_option_count_prefix(p, n, i);
            assert(p.take(i as int) =~= fs.take(i as int));
        }
        lemma_option_count_prefix(p, n, p.len());
        assert(p.take(p.len() as int) =~= p);
        lemma_pow_positive(n, pow_nat(n, fs.last().domain@.len()));
        let a = function_option_count(p, n);
        let t = table_count(fs.last(), n);
        assert(a <= a * t) by (nonlinear_arith)
            requires
                t >= 1,
        ;
        assert(a * t >= 1) by (nonlinear_arith)
            requires
                t >= 1,
                a >= 1,
        ;
    } else {
        assert(fs.take(i as int) =~= fs);
    }
}

/// Every combination of function tables, the last function varying
/// fastest.
fn enumerate_function_interps(fs: &Vec<FunctionSymbol>, n: usize) -> (r: Vec<Vec<FunctionInterp>>)
    requires
        n > 0,
        function_tables_fit(fs@, n as nat),
    ensures
        options_view(r@) == function_options(fs@, n as nat),
{
    let mut combinations: Vec<Vec<FunctionInterp>> = Vec::new();
    combinations.push(Vec::new());
    assert(fs@.take(0) =~= Seq::<FunctionSymbol>::empty());
    assert(options_view(combinations@) =~= function_options(fs@.take(0), n as nat)) by {
        assert(fun_interps_view(combinations@[0]@) =~= Seq::<(Seq<char>, Seq<(Seq<usize>, usize)>)>::empty());
    }
    let mut i: usize = 0;
    while i < fs.len()
        invariant
            n > 0,
            i <= fs@.len(),
            function_tables_fit(fs@, n as nat),
            options_view(combinations@) == function_options(fs@.take(i as int), n as nat),
        decreases fs.len() - i,
    {
        let f = &fs[i];
        let arity = f.domain.len();
        let input_count = pow_usize(n, arity);
        let tc = pow_usize(n, input_count);
        let ghost prefix = fs@.take(i as int);
        let ghost prev = function_options(prefix, n as nat);
        proof {
            assert(fs@.take(i + 1).drop_last() =~= prefix);
            assert(fs@.take(i + 1).last() == fs@[i as int]);
            lemma_function_options_len(prefix, n as nat);
            lemma_option_count_prefix(fs@, n as nat, (i + 1) as nat);
            lemma_pow_positive(n as nat, input_count as nat);
        }
        let mut next: Vec<Vec<FunctionInterp>> = Vec::new();
        let mut c: usize = 0;
        while c < combinations.len()
            invariant
                n > 0,
                tc >= 1,
                i < fs@.len(),
                tc == table_count(fs@[i as int], n as nat),
                input_count == pow_nat(n as nat, arity as nat),
                arity == fs@[i as int].domain@.len(),
                f == &fs@[i as int],
                c <= combinations@.len(),
                prev.len() == combinations@.len(),
                prev.len() * tc <= usize::MAX,
                options_view(combinations@) == prev,
                next@.len() == c * tc,
                forall|k: int|
                    0 <= k < next@.len() ==> fun_interps_view((#[trigger] next@[k])@) == prev[k / (tc as int)].push(
                        (f.name@, table_of(arity as nat, n as nat, (k % (tc as int)) as nat)),
                    ),
            decreases combinations.len() - c,
        {
            let mut t: usize = 0;
            while t < tc
                invariant
                    n > 0,
                    tc >= 1,
                    input_count == pow_nat(n as nat, arity as nat),
                    c < combinations@.len(),
                    prev.len() == combinations@.len(),
                    prev.len() * tc <= usize::MAX,
                    options_view(combinations@) == prev,
                    t <= tc,
                    next@.len() == c * tc + t,
                    forall|k: int|
                        0 <= k < next@.len() ==> fun_interps_view((#[trigger] next@[k])@) == prev[k / (tc as int)].push(
                            (f.name@, table_of(arity as nat, n as nat, (k % (tc as int)) as nat)),
                        ),
                decreases tc - t,
            {
                proof {
                    assert((c + 1) * tc <= prev.len() * tc) by (nonlinear_arith)
                        requires
                            c + 1 <= prev.len(),
                    ;
                    assert((c + 1) * tc == c * tc + tc) by (nonlinear_arith);
                }
                let table = table_at(arity, n, input_count, t);
                let mut extended = copy_function_interps(&combinations[c]);
                let ghost old_ext = extended@;
                extended.push(FunctionInterp { name: f.name.clone(), table });
                proof {
                    let k = (c * tc + t) as int;
                    vstd::arithmetic::div_mod::lemma_fundamental_div_mod_converse(k, tc as int, c as int, t as int);
                    assert(fun_interps_view(extended@) =~= fun_interps_view(old_ext).push(
                        (f.name@, table_of(arity as nat, n as nat, t as nat)),
                    ));
                    assert(prev[c as int] == fun_interps_view(combinations@[c as int]@));
                }
                next.push(extended);
                t = t + 1;
            }
            assert((c + 1) * tc == c * tc + tc) by (nonlinear_arith);
            c = c + 1;
        }
        proof {
            assert(fs@.take(i + 1).drop_last() =~= prefix);
            assert(options_view(next@) =~= function_options(fs@.take(i + 1), n as nat));
        }
        combinations = next;
        i = i + 1;
    }
    assert(fs@.take(fs@.len() as int) =~= fs@);
    combinations
}

proof fn lemma_shl_pow(k: u64)
    requires
        k < 64,
    ensures
        (1u64 << k) as nat == pow_nat(2, k as nat),
    decreases k,
{
    if k > 0 {
        lemma_shl_pow((k - 1) as u64);
        let j: u64 = (k - 1) as u64;
        assert((1u64 << k) == 2 * (1u64 << j)) by (bit_vector)
            requires
                j < 63,
                k == j + 1,
        ;
    } else {
        assert((1u64 << 0u64) == 1) by (bit_vector);
    }
}

/// Every relation interpretation over `n` elements, one per value of the
/// relation bitvector, in increasing order of that value.
fn enumerate_relation_interps(rels: &Vec<RelationSymbol>, n: usize) -> (r: Vec<Vec<RelationInterp>>)
    requires
        n > 0,
        relation_bits_fit(rels@, n as nat),
    ensures
        r@.len() == pow_nat(2, bit_offset(rels@, rels@.len(), n as nat)),
        forall|b: int| 0 <= b < r@.len() ==> rel_interps_view((#[trigger] r@[b])@) == relation_option(rels@, n as nat, b as u64),
{
    let mut offsets: Vec<usize> = Vec::new();
    offsets.push(0);
    let mut i: usize = 0;
    while i < rels.len()
        invariant
            i <= rels@.len(),
            relation_bits_fit(rels@, n as nat),
            offsets@.len() == i + 1,
            forall|k: int| 0 <= k <= i ==> #[trigger] offsets@[k] == bit_offset(rels@, k as nat, n as nat),
        decreases rels.len() - i,
    {
        proof {
            lemma_bit_offset_mono(rels@, i as nat, (i + 1) as nat, n as nat);
            lemma_bit_offset_mono(rels@, (i + 1) as nat, rels@.len(), n as nat);
        }
        let tc = pow_usize(n, rels[i].arity.len());
        let last = offsets[i];
        offsets.push(last + tc);
        i = i + 1;
    }
    let total_bits: u64 = offsets[rels.len()] as u64;
    proof {
        lemma_shl_pow(total_bits);
    }
    let total: u64 = 1u64 << total_bits;
    let mut out: Vec<Vec<RelationInterp>> = Vec::new();
    let mut bits: u64 = 0;
    while bits < total
        invariant
            n > 0,
            bits <= total,
            relation_bits_fit(rels@, n as nat),
            offsets@.len() == rels@.len() + 1,
            forall|k: int| 0 <= k <= rels@.len() ==> #[trigger] offsets@[k] == bit_offset(rels@, k as nat, n as nat),
            out@.len() == bits,
            forall|b: int| 0 <= b < out@.len() ==> rel_interps_view((#[trigger] out@[b])@) == relation_option(rels@, n as nat, b as u64),
        decreases total - bits,
    {
        out.push(relation_option_at(rels, &offsets, n, bits));
        bits = bits + 1;
    }
    out
}

/// Abstract value of a carrier list.
pub open spec fn carriers_view(cs: Seq<(SortSymbol, usize)>) -> Seq<(Seq<char>, usize)> {
    cs.map_values(|e: (SortSymbol, usize)| (e.0.name@, e.1))
}

/// Every sort of `sorts` with carrier size `n`.
pub open spec fn uniform_carriers(sorts: Seq<SortSymbol>, n: usize) -> Seq<(Seq<char>, usize)> {
    sorts.map_values(|s: SortSymbol| (s.name@, n))
}

fn carriers_for(sorts: &Vec<SortSymbol>, n: usize) -> (r: Vec<(SortSymbol, usize)>)
    ensures
        carriers_view(r@) == uniform_carriers(sorts@, n),
{
    let mut out: Vec<(SortSymbol, usize)> = Vec::new();
    let mut i: usize = 0;
    while i < sorts.len()
        invariant
            i <= sorts@.len(),
            out@.len() == i,
            forall|k: int| 0 <= k < i ==> (#[trigger] out@[k]).0.name@ == sorts@[k].name@ && out@[k].1 == n,
        decreases sorts.len() - i,
    {
        out.push((sorts[i].copy(), n));
        i = i + 1;
    }
    assert(carriers_view(out@) =~= uniform_carriers(sorts@, n));
    out
}

/// The enumeration of Σ-structures with carrier size `n` fits in machine
/// integers: the relation bitvector is narrower than 64 bits and every
/// count of function tables fits in a `usize`.
pub open spec fn enumerable_for(sig: Signature, n: usize) -> bool {
    n > 0 ==> {
        &&& relation_bits_fit(sig.relations@, n as nat)
        &&& function_tables_fit(sig.functions@, n as nat)
    }
}

/// `models` is the enumeration of Σ-structures over `sig` with carrier size
/// `n`: relation interpretation number `k / F` crossed with function
/// combination number `k % F` at position `k`, where `F` is the number of
/// function combinations; empty when `n` is 0.
pub open spec fn is_enumeration(models: Seq<FiniteModel>, sig: Signature, n: usize) -> bool {
    let f = function_option_count(sig.functions@, n as nat);
    let rels = pow_nat(2, bit_offset(sig.relations@, sig.relations@.len(), n as nat));
    &&& n == 0 ==> models.len() == 0
    &&& n > 0 ==> models.len() == rels * f
    &&& forall|k: int|
        0 <= k < models.len() ==> {
            let m = #[trigger] models[k];
            &&& m.signature.same_as(&sig)
            &&& carriers_view(m.carriers@) == uniform_carriers(sig.sorts@, n)
            &&& rel_interps_view(m.relation_interps@) == relation_option(sig.relations@, n as nat, (k / (f as int)) as u64)
            &&& fun_interps_view(m.function_interps@) == function_options(sig.functions@, n as nat)[k % (f as int)]
        }
}

proof fn lemma_bit_offset_same(a: Seq<RelationSymbol>, b: Seq<RelationSymbol>, i: nat, n: nat)
    requires
        a.len() == b.len(),
        i <= a.len(),
        forall|j: int| 0 <= j < a.len() ==> (#[trigger] a[j]).arity@.len() == b[j].arity@.len(),
    ensures
        bit_offset(a, i, n) == bit_offset(b, i, n),
    decreases i,
{
    if i > 0 {
        lemma_bit_offset_same(a, b, (i - 1) as nat, n);
    }
}

proof fn lemma_option_count_same(a: Seq<FunctionSymbol>, b: Seq<FunctionSymbol>, n: nat)
    requires
        a.len() == b.len(),
        forall|j: int| 0 <= j < a.len() ==> (#[trigger] a[j]).domain@.len() == b[j].domain@.len(),
    ensures
        function_option_count(a, n) == function_option_count(b, n),
    decreases a.len(),
{
    if a.len() > 0 {
        lemma_option_count_same(a.drop_last(), b.drop_last(), n);
        assert(a.last().domain@.len() == b.last().domain@.len());
    }
}

/// Enumerability depends only on the abstract values of the symbols.
pub proof fn lemma_enumerable_same(a: Signature, b: Signature, n: usize)
    requires
        a.same_as(&b),
    ensures
        enumerable_for(a, n) == enumerable_for(b, n),
{
    assert(a.relations@.len() == rel_views(a.relations@).len());
    assert(b.relations@.len() == rel_views(b.relations@).len());
    assert forall|j: int| 0 <= j < a.relations@.len() implies (#[trigger] a.relations@[j]).arity@.len()
        == b.relations@[j].arity@.len() by {
        assert(rel_views(a.relations@)[j] == rel_views(b.relations@)[j]);
        assert(sort_names(a.relations@[j].arity@).len() == a.relations@[j].arity@.len());
        assert(sort_names(b.relations@[j].arity@).len() == b.relations@[j].arity@.len());
    }
    lemma_bit_offset_same(a.relations@, b.relations@, a.relations@.len(), n as nat);
    assert(a.functions@.len() == fun_views(a.functions@).len());
    assert(b.functions@.len() == fun_views(b.functions@).len());
    assert forall|j: int| 0 <= j < a.functions@.len() implies (#[trigger] a.functions@[j]).domain@.len()
        == b.functions@[j].domain@.len() by {
        assert(fun_views(a.functions@)[j] == fun_views(b.functions@)[j]);
        assert(sort_names(a.functions@[j].domain@).len() == a.functions@[j].domain@.len());
        assert(sort_names(b.functions@[j].domain@).len() == b.functions@[j].domain@.len());
    }
    lemma_option_count_same(a.functions@, b.functions@, n as nat);
    if function_tables_fit(a.functions@, n as nat) {
        assert forall|i: int| 0 <= i < b.functions@.len() implies pow_nat(n as nat, (#[trigger] b.functions@[i]).domain@.len()) <= usize::MAX by {
            assert(pow_nat(n as nat, a.functions@[i].domain@.len()) <= usize::MAX);
        }
        assert forall|i: int| 0 <= i < b.functions@.len() implies table_count(#[trigger] b.functions@[i], n as nat) <= usize::MAX by {
            assert(table_count(a.functions@[i], n as nat) <= usize::MAX);
        }
    }
    if function_tables_fit(b.functions@, n as nat) {
        assert forall|i: int| 0 <= i < a.functions@.len() implies pow_nat(n as nat, (#[trigger] a.functions@[i]).domain@.len()) <= usize::MAX by {
            assert(pow_nat(n as nat, b.functions@[i].domain@.len()) <= usize::MAX);
        }
        assert forall|i: int| 0 <= i < a.functions@.len() implies table_count(#[trigger] a.functions@[i], n as nat) <= usize::MAX by {
            assert(table_count(b.functions@[i], n as nat) <= usize::MAX);
        }
    }
}

/// Exhaustive enumeration of Σ-structures of one carrier size.
///
/// Every relation interpretation (all relations laid out as one bitvector)
/// is crossed with every combination of function tables; relations are the
/// outer dimension.  No isomorphism elimination is performed.
pub struct ModelEnumerator {
    signature: Signature,
    domain_size: usize,
}

impl ModelEnumerator {
    /// The signature models are enumerated for.
    pub closed spec fn signature_spec(&self) -> Signature {
        self.signature
    }

    /// The carrier size of every sort.
    pub closed spec fn size_spec(&self) -> usize {
        self.domain_size
    }

    /// The enumeration's sizes fit in machine integers.
    pub open spec fn enumerable(&self) -> bool {
        enumerable_for(self.signature_spec(), self.size_spec())
    }

    /// An enumerator over `signature` with carrier size `domain_size` for
    /// every sort.
    pub fn new(signature: Signature, domain_size: usize) -> (r: Self)
        ensures
            r.signature_spec() == signature,
            r.size_spec() == domain_size,
    {
        ModelEnumerator { signature, domain_size }
    }

    /// Every Σ-structure with the configured carrier size.  Model
    /// `k` carries relation interpretation number `k / F` and function
    /// combination number `k % F`, where `F` is the number of function
    /// combinations.
    pub fn enumerate(&self) -> (r: Vec<FiniteModel>)
        requires
            self.enumerable(),
        ensures
            is_enumeration(r@, self.signature_spec(), self.size_spec()),
    {
        let n = self.domain_size;
        if n == 0 {
            return Vec::new();
        }
        let sig = &self.signature;
        let carriers = carriers_for(&sig.sorts, n);
        let rel_opts = enumerate_relation_interps(&sig.relations, n);
        let fun_opts = enumerate_function_interps(&sig.functions, n);
        let ghost fo = function_options(sig.functions@, n as nat);
        let ghost fc = function_option_count(sig.functions@, n as nat);
        proof {
            lemma_function_options_len(sig.functions@, n as nat);
            lemma_option_count_prefix(sig.functions@, n as nat, sig.functions@.len());
            assert(sig.functions@.take(sig.functions@.len() as int) =~= sig.functions@);
        }
        let mut models: Vec<FiniteModel> = Vec::new();
        let mut i: usize = 0;
        while i < rel_opts.len()
            invariant
                fc >= 1,
                fo.len() == fc,
                options_view(fun_opts@) == fo,
                i <= rel_opts@.len(),
                sig == &self.signature,
                carriers_view(carriers@) == uniform_carriers(sig.sorts@, n),
                forall|b: int|
                    0 <= b < rel_opts@.len() ==> rel_interps_view((#[trigger] rel_opts@[b])@)
                        == relation_option(sig.relations@, n as nat, b as u64),
                models@.len() == i * fc,
                forall|k: int|
                    0 <= k < models@.len() ==> {
                        let m = #[trigger] models@[k];
                        &&& m.signature.same_as(sig)
                        &&& carriers_view(m.carriers@) == uniform_carriers(sig.sorts@, n)
                        &&& rel_interps_view(m.relation_interps@) == relation_option(
                            sig.relations@,
                            n as nat,
                            (k / (fc as int)) as u64,
                        )
                        &&& fun_interps_view(m.function_interps@) == fo[k % (fc as int)]
                    },
            decreases rel_opts.len() - i,
        {
            let mut j: usize = 0;
            while j < fun_opts.len()
                invariant
                    fc >= 1,
                    fo.len() == fc,
                    options_view(fun_opts@) == fo,
                    i < rel_opts@.len(),
                    sig == &self.signature,
                    carriers_view(carriers@) == uniform_carriers(sig.sorts@, n),
                    rel_interps_view(rel_opts@[i as int]@) == relation_option(sig.relations@, n as nat, i as u64),
                    j <= fun_opts@.len(),
                    models@.len() == i * fc + j,
                    forall|k: int|
                        0 <= k < models@.len() ==> {
                            let m = #[trigger] models@[k];
                            &&& m.signature.same_as(sig)
                            &&& carriers_view(m.carriers@) == uniform_carriers(sig.sorts@, n)
                            &&& rel_interps_view(m.relation_interps@) == relation_option(
                                sig.relations@,
                                n as nat,
                                (k / (fc as int)) as u64,
                            )
                            &&& fun_interps_view(m.function_interps@) == fo[k % (fc as int)]
                        },
                decreases fun_opts.len() - j,
            {
                let mut cs: Vec<(SortSymbol, usize)> = Vec::new();
                let mut c: usize = 0;
                while c < carriers.len()
                    invariant
                        c <= carriers@.len(),
                        cs@.len() == c,
                        forall|q: int| 0 <= q < c ==> (#[trigger] cs@[q]).0.name@ == carriers@[q].0.name@ && cs@[q].1 == carriers@[q].1,
                    decreases carriers.len() - c,
                {
                    cs.push((carriers[c].0.copy(), carriers[c].1));
                    c = c + 1;
                }
                assert(carriers_view(cs@) =~= carriers_view(carriers@));
                let m = FiniteModel {
                    signature: sig.copy(),
                    carriers: cs,
                    function_interps: copy_function_interps(&fun_opts[j]),
                    relation_interps: copy_relation_interps(&rel_opts[i]),
                };
                proof {
                    let k = (i * fc + j) as int;
                    vstd::arithmetic::div_mod::lemma_fundamental_div_mod_converse(k, fc as int, i as int, j as int);
                    assert(fo[j as int] == fun_interps_view(fun_opts@[j as int]@));
                }
                models.push(m);
                j = j + 1;
            }
            assert((i + 1) * fc == i * fc + fc) by (nonlinear_arith);
            i = i + 1;
        }
        models
    }
}

/// The number of function interpretations over carriers of size `n`:
/// `∏ n^(n^d)` over the domain lengths `d` of `funs`, where `d` is capped
/// at `u32::MAX`, `n^d` saturates at `usize::MAX` and is then capped at
/// `u32::MAX`.
pub open spec fn function_space(n: nat, funs: Seq<FunctionSymbol>) -> nat
    decreases funs.len(),
{
    if funs.len() == 0 {
        1
    } else {
        function_space(n, funs.drop_last()) * pow_nat(n, cap_u32(saturating_pow(n, cap_u32(funs.last().domain@.len()))))
    }
}

impl ModelEnumerator {
    /// The number of Σ-structures the enumeration ranges over: the
    /// relation interpretations times the function tables.
    pub fn count(&self) -> (r: BigUint)
        ensures
            biguint_value(r) == relation_space(self.size_spec() as nat, self.signature_spec().relations@) * function_space(
                self.size_spec() as nat,
                self.signature_spec().functions@,
            ),
    {
        let mut total = self.signature.model_space_size(self.domain_size);
        let ghost rel = biguint_value(total);
        let n = big_from_usize(self.domain_size);
        let funs = &self.signature.functions;
        proof {
            assert(funs@.take(0) =~= Seq::<FunctionSymbol>::empty());
            assert(function_space(self.domain_size as nat, funs@.take(0)) == 1);
        }
        let mut i: usize = 0;
        while i < funs.len()
            invariant
                i <= funs@.len(),
                funs == &self.signature.functions,
                biguint_value(n) == self.domain_size,
                rel == relation_space(self.domain_size as nat, self.signature.relations@),
                biguint_value(total) == rel * function_space(self.domain_size as nat, funs@.take(i as int)),
            decreases funs.len() - i,
        {
            let d = capped_u32(funs[i].domain.len());
            let inputs = crate::mutation::pow_usize(self.domain_size, d as usize);
            let e = capped_u32(inputs);
            let factor = big_pow(&n, e);
            let ghost before = biguint_value(total);
            total = big_mul(&total, &factor);
            proof {
                assert(funs@.take(i + 1).drop_last() =~= funs@.take(i as int));
                assert(funs@.take(i + 1).last() == funs@[i as int]);
                let fs = function_space(self.domain_size as nat, funs@.take(i as int));
                let fx = biguint_value(factor);
                assert(rel * fs * fx == rel * (fs * fx)) by (nonlinear_arith);
            }
            i = i + 1;
        }
        proof {
            assert(funs@.take(i as int) =~= funs@);
        }
        total
    }
}

} // verus!
