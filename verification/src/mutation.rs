//! Mutation generation: atomic formulas over a signature, universal
//! closure, the join-irreducible decomposition of a specification and the
//! candidate mutants built from it.
use vstd::prelude::*;
use crate::formula::{copy_formula, copy_formulas, formulas_view, terms_view, Formula, FormulaV, Term, TermV};
use crate::lattice::{normalize_all, EntailmentChecker, SpecElement};
use crate::model::{pow_nat, tuple_of};
use crate::signature::{rel_views, RelSym, RelationSymbol, Signature, SortSymbol};

verus! {

broadcast use vstd::std_specs::vec::group_vec_axioms;

/// Number of distinct variable indices used for atomic formulas.
pub const MAX_VARS: usize = 3;

/// Classification of a mutant's relationship to the original spec.
#[derive(Debug, Clone, Copy, PartialEq, Eq, Hash, PartialOrd, Ord)]
pub enum MutantClass {
    /// Mutant = spec ∧ {new closed atom}: strictly more restrictive.
    Strengthening,
    /// Mutant = spec ∖ {axiom}: strictly less restrictive.
    Weakening,
    /// Mutant = (spec ∖ {axiom}) ∪ {new closed atom}.
    Replacement,
}

/// `b` to the power `e`, saturating at `usize::MAX`.
pub open spec fn saturating_pow(b: nat, e: nat) -> nat {
    if pow_nat(b, e) > usize::MAX { usize::MAX as nat } else { pow_nat(b, e) }
}

proof fn lemma_pow_monotone_base(b: nat, e: nat)
    requires
        b >= 1,
    ensures
        pow_nat(b, e) >= 1,
        pow_nat(b, e + 1) >= pow_nat(b, e),
    decreases e,
{
    if e > 0 {
        lemma_pow_monotone_base(b, (e - 1) as nat);
    }
    assert(pow_nat(b, e + 1) == b * pow_nat(b, e));
    assert(b * pow_nat(b, e) >= pow_nat(b, e)) by (nonlinear_arith)
        requires
            b >= 1,
    ;
}

/// `base` to the power `exp`, saturating at `usize::MAX`.
pub fn pow_usize(base: usize, exp: usize) -> (r: usize)
    ensures
        r == saturating_pow(base as nat, exp as nat),
{
    if base == 0 {
        proof {
            if exp > 0 {
                assert(pow_nat(0, exp as nat) == 0 * pow_nat(0, (exp - 1) as nat));
            }
        }
        return if exp == 0 {
            1
        } else {
            0
        };
    }
    let mut acc: usize = 1;
    let mut i: usize = 0;
    while i < exp
        invariant
            base >= 1,
            i <= exp,
            acc == saturating_pow(base as nat, i as nat),
        decreases exp - i,
    {
        proof {
            lemma_pow_monotone_base(base as nat, i as nat);
            assert(pow_nat(base as nat, (i + 1) as nat) == base * pow_nat(base as nat, i as nat));
            assert(pow_nat(base as nat, i as nat) * base == base * pow_nat(base as nat, i as nat)) by (nonlinear_arith);
            if pow_nat(base as nat, i as nat) > usize::MAX {
                assert(base * pow_nat(base as nat, i as nat) >= pow_nat(base as nat, i as nat)) by (nonlinear_arith)
                    requires
                        base >= 1,
                ;
            }
        }
        let next = acc.checked_mul(base);
        proof {
            let p = pow_nat(base as nat, i as nat);
            if p <= usize::MAX {
                assert(acc == p);
            } else {
                assert(acc == usize::MAX);
                assert(base * p >= p) by (nonlinear_arith)
                    requires
                        base >= 1,
                ;
                if base > 1 {
                    assert(acc * base > usize::MAX) by (nonlinear_arith)
                        requires
                            acc == usize::MAX,
                            base > 1,
                    ;
                } else {
                    assert(acc * base == acc) by (nonlinear_arith)
                        requires
                            base == 1,
                    ;
                }
            }
        }
        acc = match next {
            Some(v) => v,
            None => usize::MAX,
        };
        i = i + 1;
    }
    acc
}

proof fn lemma_tuple_len(idx: nat, arity: nat, base: nat)
    requires
        base > 0,
    ensures
        tuple_of(idx, arity, base).len() == arity,
    decreases arity,
{
    if arity > 0 {
        lemma_tuple_len(idx / base, (arity - 1) as nat, base);
    }
}

/// Variables with the given indices.
pub open spec fn vars_of(idx: Seq<usize>) -> Seq<TermV> {
    idx.map_values(|i: usize| TermV::Var(i as nat))
}

/// The argument tuple number `idx`: `arity` variables whose indices are
/// the base-`MAX_VARS` digits of `idx`, most significant first.
pub fn decode_arg_tuple(idx: usize, arity: usize) -> (r: Vec<Term>)
    ensures
        terms_view(r@) == vars_of(tuple_of(idx as nat, arity as nat, MAX_VARS as nat)),
    decreases arity,
{
    if arity == 0 {
        let v: Vec<Term> = Vec::new();
        assert(terms_view(v@) =~= vars_of(tuple_of(idx as nat, 0, MAX_VARS as nat)));
        v
    } else {
        let mut v = decode_arg_tuple(idx / MAX_VARS, arity - 1);
        let ghost before = v@;
        v.push(Term::Var(idx % MAX_VARS));
        proof {
            let t = tuple_of(idx as nat, arity as nat, MAX_VARS as nat);
            let p = tuple_of((idx / MAX_VARS) as nat, (arity - 1) as nat, MAX_VARS as nat);
            assert(t == p.push((idx % MAX_VARS) as usize));
            lemma_tuple_len((idx / MAX_VARS) as nat, (arity - 1) as nat, MAX_VARS as nat);
            lemma_tuple_len(idx as nat, arity as nat, MAX_VARS as nat);
            assert(terms_view(before) == vars_of(p));
            assert(terms_view(before).len() == before.len());
            assert(vars_of(p).len() == p.len());
            assert(before.len() == p.len());
            assert(v@.len() == t.len());
            assert forall|k: int| 0 <= k < v@.len() implies #[trigger] terms_view(v@)[k] == vars_of(t)[k] by {
                if k < before.len() {
                    assert(v@[k] == before[k]);
                    assert(terms_view(before)[k] == vars_of(p)[k]);
                    assert(t[k] == p[k]);
                } else {
                    assert(v@[k] == Term::Var(idx % MAX_VARS));
                    assert(t[k] == (idx % MAX_VARS) as usize);
                }
            }
            assert(terms_view(v@) =~= vars_of(t));
        }
        v
    }
}

/// The atomic formulas of one relation: for every argument tuple number
/// `k`, the atom and then its negation.
pub open spec fn relation_atoms(r: RelationSymbol) -> Seq<FormulaV> {
    Seq::new(
        2 * saturating_pow(MAX_VARS as nat, r.arity@.len()),
        |k: int| {
            let args = vars_of(tuple_of((k / 2) as nat, r.arity@.len(), MAX_VARS as nat));
            if k % 2 == 0 {
                FormulaV::Atom(r@, args)
            } else {
                FormulaV::NegAtom(r@, args)
            }
        },
    )
}

/// The atomic formulas of every relation, relation by relation.
pub open spec fn all_relation_atoms(rels: Seq<RelationSymbol>) -> Seq<FormulaV>
    decreases rels.len(),
{
    if rels.len() == 0 {
        seq![]
    } else {
        all_relation_atoms(rels.drop_last()) + relation_atoms(rels.last())
    }
}

/// Every atomic and negated atomic formula over the relations of
/// `sig`, with variable indices in `0..MAX_VARS`.  The formulas are open.
pub fn enumerate_atomic_formulas(sig: &Signature) -> (r: Vec<Formula>)
    requires
        all_relation_atoms(sig.relations@).len() <= usize::MAX,
    ensures
        formulas_view(r@) == all_relation_atoms(sig.relations@),
{
    let mut atoms: Vec<Formula> = Vec::new();
    let mut i: usize = 0;
    assert(sig.relations@.take(0) =~= Seq::<RelationSymbol>::empty());
    while i < sig.relations.len()
        invariant
            i <= sig.relations@.len(),
            all_relation_atoms(sig.relations@).len() <= usize::MAX,
            formulas_view(atoms@) == all_relation_atoms(sig.relations@.take(i as int)),
        decreases sig.relations.len() - i,
    {
        let r = &sig.relations[i];
        let arity = r.arity.len();
        let tuple_count = pow_usize(MAX_VARS, arity);
        let ghost before = formulas_view(atoms@);
        proof {
            assert(sig.relations@.take(i + 1).drop_last() =~= sig.relations@.take(i as int));
            assert(sig.relations@.take(i + 1).last() == *r);
            lemma_atoms_prefix_len(sig.relations@, (i + 1) as nat);
        }
        let mut t: usize = 0;
        while t < tuple_count
            invariant
                t <= tuple_count,
                tuple_count == saturating_pow(MAX_VARS as nat, arity as nat),
                arity == r.arity@.len(),
                before.len() + 2 * tuple_count <= usize::MAX,
                formulas_view(atoms@) == before + relation_atoms(*r).take(2 * t),
            decreases tuple_count - t,
        {
            let args = decode_arg_tuple(t, arity);
            let args2 = crate::formula::copy_terms(&args);
            let ghost mid = formulas_view(atoms@);
            atoms.push(Formula::Atom { relation: r.copy(), args });
            atoms.push(Formula::NegAtom { relation: r.copy(), args: args2 });
            proof {
                let ra = relation_atoms(*r);
                assert(ra[2 * t] == FormulaV::Atom(r@, vars_of(tuple_of(t as nat, arity as nat, MAX_VARS as nat))));
                assert(ra[2 * t + 1] == FormulaV::NegAtom(r@, vars_of(tuple_of(t as nat, arity as nat, MAX_VARS as nat))));
                assert(ra.take(2 * t + 2) =~= ra.take(2 * t).push(ra[2 * t]).push(ra[2 * t + 1]));
                assert(formulas_view(atoms@) =~= mid.push(ra[2 * t]).push(ra[2 * t + 1]));
            }
            t = t + 1;
        }
        assert(relation_atoms(*r).take(2 * tuple_count) =~= relation_atoms(*r));
        i = i + 1;
    }
    assert(sig.relations@.take(i as int) =~= sig.relations@);
    atoms
}

proof fn lemma_atoms_prefix_len(rels: Seq<RelationSymbol>, i: nat)
    requires
        i <= rels.len(),
    ensures
        all_relation_atoms(rels.take(i as int)).len() <= all_relation_atoms(rels).len(),
        i > 0 ==> all_relation_atoms(rels.take(i as int)).len() == all_relation_atoms(rels.take(i - 1)).len()
            + relation_atoms(rels[i - 1]).len(),
    decreases rels.len(),
{
    if i > 0 {
        assert(rels.take(i as int).drop_last() =~= rels.take(i - 1));
        assert(rels.take(i as int).last() == rels[i - 1]);
    }
    if rels.len() > 0 {
        if i == rels.len() {
            assert(rels.take(i as int) =~= rels);
        } else {
            lemma_atoms_prefix_len(rels.drop_last(), i);
            assert(rels.drop_last().take(i as int) =~= rels.take(i as int));
        }
    } else {
        assert(rels.take(i as int) =~= rels);
    }
}

// ---------------------------------------------------------------------------
// Universal closure
// ---------------------------------------------------------------------------

/// The sort argument position `pos` of `r` requires, if `pos` is in range.
pub open spec fn slot_sort(r: RelSym, pos: int) -> Option<Seq<char>> {
    if 0 <= pos < r.arity.len() {
        Some(r.arity[pos])
    } else {
        None
    }
}

/// The free-variable arguments of an atom, in order: (free index, sort its
/// position requires).
pub open spec fn arg_occurrences(r: RelSym, args: Seq<TermV>, depth: nat) -> Seq<(nat, Option<Seq<char>>)>
    decreases args.len(),
{
    if args.len() == 0 {
        seq![]
    } else {
        let rest = arg_occurrences(r, args.drop_last(), depth);
        match args.last() {
            TermV::Var(i) => if i >= depth {
                rest.push(((i - depth) as nat, slot_sort(r, args.len() - 1)))
            } else {
                rest
            },
            _ => rest,
        }
    }
}

/// Every free-variable argument of an atom of `f`, in traversal order.
pub open spec fn occurrences(f: FormulaV, depth: nat) -> Seq<(nat, Option<Seq<char>>)>
    decreases f,
{
    match f {
        FormulaV::Atom(r, args) => arg_occurrences(r, args, depth),
        FormulaV::NegAtom(r, args) => arg_occurrences(r, args, depth),
        FormulaV::And(l, r) => occurrences(*l, depth) + occurrences(*r, depth),
        FormulaV::Or(l, r) => occurrences(*l, depth) + occurrences(*r, depth),
        FormulaV::Forall(_, b) => occurrences(*b, depth + 1),
        FormulaV::Exists(_, b) => occurrences(*b, depth + 1),
        FormulaV::Not(g) => occurrences(*g, depth),
        _ => seq![],
    }
}

/// Every occurrence has a sort, and occurrences of one variable agree.
pub open spec fn sorts_consistent(occ: Seq<(nat, Option<Seq<char>>)>) -> bool {
    &&& forall|k: int| 0 <= k < occ.len() ==> (#[trigger] occ[k]).1 is Some
    &&& forall|k1: int, k2: int|
        0 <= k1 < occ.len() && 0 <= k2 < occ.len() && (#[trigger] occ[k1]).0 == (#[trigger] occ[k2]).0 ==> occ[k1].1
            == occ[k2].1
}

/// The sort the occurrences give variable `x`, if it occurs.
pub open spec fn inferred_sort(occ: Seq<(nat, Option<Seq<char>>)>, x: nat) -> Option<Seq<char>> {
    if exists|k: int| 0 <= k < occ.len() && (#[trigger] occ[k]).0 == x {
        occ[choose|k: int| 0 <= k < occ.len() && (#[trigger] occ[k]).0 == x].1
    } else {
        None
    }
}

/// Sort of `x` in an association list of (variable, sort).
pub open spec fn map_lookup(m: Seq<(usize, SortSymbol)>, x: nat) -> Option<Seq<char>> {
    if exists|k: int| 0 <= k < m.len() && (#[trigger] m[k]).0 == x {
        Some(m[choose|k: int| 0 <= k < m.len() && (#[trigger] m[k]).0 == x].1.name@)
    } else {
        None
    }
}

/// The association list `m` records the sorts of consistent occurrences
/// `occ`, once per variable.
pub open spec fn records(m: Seq<(usize, SortSymbol)>, occ: Seq<(nat, Option<Seq<char>>)>) -> bool {
    &&& sorts_consistent(occ)
    &&& forall|i: int, j: int| 0 <= i < j < m.len() ==> (#[trigger] m[i]).0 != (#[trigger] m[j]).0
    &&& forall|x: nat| #[trigger] map_lookup(m, x) == inferred_sort(occ, x)
}

/// The occurrence a term contributes at argument position `pos`.
pub open spec fn term_occurrence(t: TermV, r: RelSym, pos: int, depth: nat) -> Seq<(nat, Option<Seq<char>>)> {
    match t {
        TermV::Var(i) => if i >= depth {
            seq![((i - depth) as nat, slot_sort(r, pos))]
        } else {
            seq![]
        },
        _ => seq![],
    }
}

proof fn lemma_inconsistent_extend(a: Seq<(nat, Option<Seq<char>>)>, b: Seq<(nat, Option<Seq<char>>)>)
    requires
        !sorts_consistent(a),
    ensures
        !sorts_consistent(a + b),
{
    let c = a + b;
    if exists|k: int| 0 <= k < a.len() && !((#[trigger] a[k]).1 is Some) {
        let k = choose|k: int| 0 <= k < a.len() && !((#[trigger] a[k]).1 is Some);
        assert(c[k] == a[k]);
    } else {
        let (k1, k2) = choose|k1: int, k2: int|
            0 <= k1 < a.len() && 0 <= k2 < a.len() && (#[trigger] a[k1]).0 == (#[trigger] a[k2]).0 && a[k1].1 != a[k2].1;
        assert(c[k1] == a[k1] && c[k2] == a[k2]);
    }
}

/// Record the occurrence `(x, s)`: false on a missing sort or on a sort
/// other than the one recorded for `x`.
fn record_occurrence(
    sorts: &mut Vec<(usize, SortSymbol)>,
    x: usize,
    s: Option<&SortSymbol>,
    Ghost(occ): Ghost<Seq<(nat, Option<Seq<char>>)>>,
) -> (r: bool)
    requires
        records(old(sorts)@, occ),
    ensures
        r == sorts_consistent(occ.push((x as nat, match s { Some(v) => Some(v@), None => None }))),
        r ==> records(final(sorts)@, occ.push((x as nat, match s { Some(v) => Some(v@), None => None }))),
{
    let ghost sv: Option<Seq<char>> = match s { Some(v) => Some(v@), None => None };
    let ghost occ2 = occ.push((x as nat, sv));
    let ghost m = sorts@;
    let arity_sort = match s {
        Some(v) => v,
        None => {
            proof {
                assert(!(occ2[occ.len() as int].1 is Some));
            }
            return false;
        },
    };
    let mut k: usize = 0;
    while k < sorts.len()
        invariant
            k <= sorts@.len(),
            sorts@ == m,
            forall|q: int| 0 <= q < k ==> (#[trigger] m[q]).0 != x,
        ensures
            k <= sorts@.len(),
            sorts@ == m,
            forall|q: int| 0 <= q < k ==> (#[trigger] m[q]).0 != x,
            k < sorts@.len() ==> m[k as int].0 == x,
        decreases sorts.len() - k,
    {
        if sorts[k].0 == x {
            break;
        }
        k = k + 1;
    }
    if k < sorts.len() {
        let same = crate::names::str_eq(sorts[k].1.name.as_str(), arity_sort.name.as_str());
        proof {
            assert(m[k as int].0 == x);
            assert forall|q: int| 0 <= q < m.len() && (#[trigger] m[q]).0 == x implies q == k by {
                if q != k {
                    if q < k {
                    } else {
                        assert(m[k as int].0 != m[q].0);
                    }
                }
            }
            assert(map_lookup(m, x as nat) == Some(m[k as int].1.name@));
            assert(inferred_sort(occ, x as nat) == Some(m[k as int].1.name@));
            let w = choose|w: int| 0 <= w < occ.len() && (#[trigger] occ[w]).0 == x as nat;
            assert(occ[w].1 == Some(m[k as int].1.name@));
            assert(occ2[w] == occ[w]);
            if !same {
                assert(occ2[occ.len() as int].0 == occ2[w].0);
                assert(occ2[occ.len() as int].1 != occ2[w].1);
            } else {
                assert forall|k1: int, k2: int|
                    0 <= k1 < occ2.len() && 0 <= k2 < occ2.len() && (#[trigger] occ2[k1]).0 == (#[trigger] occ2[k2]).0
                        implies occ2[k1].1 == occ2[k2].1 by {
                    if k1 < occ.len() && k2 < occ.len() {
                        assert(occ2[k1] == occ[k1] && occ2[k2] == occ[k2]);
                    } else if k1 < occ.len() {
                        assert(occ2[k1] == occ[k1]);
                        assert(occ[k1].1 == occ[w].1);
                    } else if k2 < occ.len() {
                        assert(occ2[k2] == occ[k2]);
                        assert(occ[k2].1 == occ[w].1);
                    }
                }
                assert forall|y: nat| #[trigger] map_lookup(m, y) == inferred_sort(occ2, y) by {
                    assert(map_lookup(m, y) == inferred_sort(occ, y));
                    if exists|q: int| 0 <= q < occ.len() && (#[trigger] occ[q]).0 == y {
                        let q = choose|q: int| 0 <= q < occ.len() && (#[trigger] occ[q]).0 == y;
                        assert(occ2[q] == occ[q]);
                        let q2 = choose|q2: int| 0 <= q2 < occ2.len() && (#[trigger] occ2[q2]).0 == y;
                        let q1 = choose|q1: int| 0 <= q1 < occ.len() && (#[trigger] occ[q1]).0 == y;
                        assert(occ2[q1] == occ[q1]);
                    } else if y == x as nat {
                        assert(occ2[w].0 == y);
                    } else {
                        assert forall|q: int| 0 <= q < occ2.len() implies (#[trigger] occ2[q]).0 != y by {
                            if q < occ.len() {
                                assert(occ2[q] == occ[q]);
                            }
                        }
                    }
                }
            }
        }
        same
    } else {
        let ghost before = sorts@;
        sorts.push((x, arity_sort.copy()));
        proof {
            assert(map_lookup(before, x as nat) == None::<Seq<char>>);
            assert(inferred_sort(occ, x as nat) == None::<Seq<char>>);
            assert forall|q: int| 0 <= q < occ.len() implies (#[trigger] occ[q]).0 != x as nat by {
                if occ[q].0 == x as nat {
                    assert(exists|q: int| 0 <= q < occ.len() && (#[trigger] occ[q]).0 == x as nat);
                }
            }
            assert forall|k1: int, k2: int|
                0 <= k1 < occ2.len() && 0 <= k2 < occ2.len() && (#[trigger] occ2[k1]).0 == (#[trigger] occ2[k2]).0
                    implies occ2[k1].1 == occ2[k2].1 by {
                if k1 < occ.len() && k2 < occ.len() {
                    assert(occ2[k1] == occ[k1] && occ2[k2] == occ[k2]);
                } else if k1 < occ.len() {
                    assert(occ2[k1] == occ[k1]);
                } else if k2 < occ.len() {
                    assert(occ2[k2] == occ[k2]);
                }
            }
            assert forall|i: int, j: int| 0 <= i < j < sorts@.len() implies (#[trigger] sorts@[i]).0 != (#[trigger] sorts@[j]).0 by {
                if j == before.len() {
                    assert(sorts@[i] == before[i]);
                } else {
                    assert(sorts@[i] == before[i] && sorts@[j] == before[j]);
                }
            }
            assert forall|y: nat| #[trigger] map_lookup(sorts@, y) == inferred_sort(occ2, y) by {
                assert(map_lookup(before, y) == inferred_sort(occ, y));
                if y == x as nat {
                    let last = before.len() as int;
                    assert(sorts@[last].0 == x);
                    assert forall|q: int| 0 <= q < sorts@.len() && (#[trigger] sorts@[q]).0 == x implies q == last by {
                        if q < last {
                            assert(sorts@[q] == before[q]);
                        }
                    }
                    assert(occ2[occ.len() as int].0 == y);
                    assert forall|q: int| 0 <= q < occ2.len() && (#[trigger] occ2[q]).0 == y implies q == occ.len() by {
                        if q < occ.len() {
                            assert(occ2[q] == occ[q]);
                        }
                    }
                } else {
                    if exists|q: int| 0 <= q < before.len() && (#[trigger] before[q]).0 == y {
                        let q = choose|q: int| 0 <= q < before.len() && (#[trigger] before[q]).0 == y;
                        assert(sorts@[q] == before[q]);
                        let q2 = choose|q2: int| 0 <= q2 < sorts@.len() && (#[trigger] sorts@[q2]).0 == y;
                        assert(q2 < before.len());
                        assert(sorts@[q2] == before[q2]);
                    } else {
                        assert forall|q: int| 0 <= q < sorts@.len() implies (#[trigger] sorts@[q]).0 != y by {
                            if q < before.len() {
                                assert(sorts@[q] == before[q]);
                            }
                        }
                    }
                    if exists|q: int| 0 <= q < occ.len() && (#[trigger] occ[q]).0 == y {
                        let q = choose|q: int| 0 <= q < occ.len() && (#[trigger] occ[q]).0 == y;
                        assert(occ2[q] == occ[q]);
                        let q2 = choose|q2: int| 0 <= q2 < occ2.len() && (#[trigger] occ2[q2]).0 == y;
                        assert(q2 < occ.len());
                        assert(occ2[q2] == occ[q2]);
                    } else {
                        assert forall|q: int| 0 <= q < occ2.len() implies (#[trigger] occ2[q]).0 != y by {
                            if q < occ.len() {
                                assert(occ2[q] == occ[q]);
                            }
                        }
                    }
                }
            }
        }
        true
    }
}

fn infer_atom_sorts(
    relation: &RelationSymbol,
    args: &Vec<Term>,
    depth: usize,
    sorts: &mut Vec<(usize, SortSymbol)>,
    Ghost(occ): Ghost<Seq<(nat, Option<Seq<char>>)>>,
) -> (r: bool)
    requires
        records(old(sorts)@, occ),
    ensures
        r == sorts_consistent(occ + arg_occurrences(relation@, terms_view(args@), depth as nat)),
        r ==> records(final(sorts)@, occ + arg_occurrences(relation@, terms_view(args@), depth as nat)),
{
    let ghost tv = terms_view(args@);
    let ghost r_sym = relation@;
    let mut pos: usize = 0;
    assert(tv.take(0) =~= Seq::<TermV>::empty());
    assert(occ + arg_occurrences(r_sym, tv.take(0), depth as nat) =~= occ);
    while pos < args.len()
        invariant
            pos <= args@.len(),
            tv == terms_view(args@),
            r_sym == relation@,
            records(sorts@, occ + arg_occurrences(r_sym, tv.take(pos as int), depth as nat)),
        decreases args.len() - pos,
    {
        let ghost cur = occ + arg_occurrences(r_sym, tv.take(pos as int), depth as nat);
        proof {
            assert(tv.take(pos + 1).drop_last() =~= tv.take(pos as int));
            assert(tv.take(pos + 1).last() == tv[pos as int]);
            assert(tv[pos as int] == args@[pos as int]@);
        }
        match &args[pos] {
            Term::Var(i) => {
                if *i >= depth {
                    let s: Option<&SortSymbol> = if pos < relation.arity.len() {
                        Some(&relation.arity[pos])
                    } else {
                        None
                    };
                    proof {
                        assert(r_sym.arity == crate::signature::sort_names(relation.arity@));
                        if pos < relation.arity@.len() {
                            assert(r_sym.arity[pos as int] == relation.arity@[pos as int].name@);
                        }
                    }
                    let ok = record_occurrence(sorts, *i - depth, s, Ghost(cur));
                    proof {
                        assert(cur.push(((*i - depth) as nat, slot_sort(r_sym, pos as int))) =~= occ + arg_occurrences(
                            r_sym,
                            tv.take(pos + 1),
                            depth as nat,
                        ));
                    }
                    if !ok {
                        proof {
                            let full = arg_occurrences(r_sym, tv, depth as nat);
                            lemma_arg_occurrences_prefix(r_sym, tv, depth as nat, (pos + 1) as nat);
                            let rest = full.skip(arg_occurrences(r_sym, tv.take(pos + 1), depth as nat).len() as int);
                            lemma_inconsistent_extend(occ + arg_occurrences(r_sym, tv.take(pos + 1), depth as nat), rest);
                            assert(occ + arg_occurrences(r_sym, tv.take(pos + 1), depth as nat) + rest =~= occ + full);
                        }
                        return false;
                    }
                } else {
                    proof {
                        assert(arg_occurrences(r_sym, tv.take(pos + 1), depth as nat) =~= arg_occurrences(
                            r_sym,
                            tv.take(pos as int),
                            depth as nat,
                        ));
                    }
                }
            },
            Term::App { .. } => {
                proof {
                    assert(arg_occurrences(r_sym, tv.take(pos + 1), depth as nat) =~= arg_occurrences(
                        r_sym,
                        tv.take(pos as int),
                        depth as nat,
                    ));
                }
            },
        }
        pos = pos + 1;
    }
    assert(tv.take(pos as int) =~= tv);
    true
}

proof fn lemma_arg_occurrences_prefix(r: RelSym, args: Seq<TermV>, depth: nat, k: nat)
    requires
        k <= args.len(),
    ensures
        arg_occurrences(r, args, depth).len() >= arg_occurrences(r, args.take(k as int), depth).len(),
        arg_occurrences(r, args, depth) == arg_occurrences(r, args.take(k as int), depth) + arg_occurrences(
            r,
            args,
            depth,
        ).skip(arg_occurrences(r, args.take(k as int), depth).len() as int),
    decreases args.len(),
{
    if k == args.len() {
        assert(args.take(k as int) =~= args);
        assert(arg_occurrences(r, args, depth).skip(arg_occurrences(r, args, depth).len() as int) =~= Seq::<
            (nat, Option<Seq<char>>),
        >::empty());
        assert(arg_occurrences(r, args, depth) + Seq::<(nat, Option<Seq<char>>)>::empty() =~= arg_occurrences(
            r,
            args,
            depth,
        ));
    } else {
        lemma_arg_occurrences_prefix(r, args.drop_last(), depth, k);
        assert(args.drop_last().take(k as int) =~= args.take(k as int));
        let a = arg_occurrences(r, args.take(k as int), depth);
        let whole = arg_occurrences(r, args, depth);
        let prev = arg_occurrences(r, args.drop_last(), depth);
        assert(whole.len() >= prev.len());
        assert(whole.subrange(0, prev.len() as int) =~= prev);
        assert(whole =~= a + whole.skip(a.len() as int));
    }
}

/// Infer the sorts of the free variables of `f` (read `depth` binders
/// deep) from the argument positions they occupy; false on a position
/// beyond a relation's arity or on conflicting sorts.
fn infer_var_sorts(
    f: &Formula,
    depth: usize,
    sorts: &mut Vec<(usize, SortSymbol)>,
    Ghost(occ): Ghost<Seq<(nat, Option<Seq<char>>)>>,
) -> (r: bool)
    requires
        records(old(sorts)@, occ),
        depth + crate::formula::rank(f@) <= usize::MAX,
    ensures
        r == sorts_consistent(occ + occurrences(f@, depth as nat)),
        r ==> records(final(sorts)@, occ + occurrences(f@, depth as nat)),
    decreases f,
{
    match f {
        Formula::Atom { relation, args } | Formula::NegAtom { relation, args } => {
            infer_atom_sorts(relation, args, depth, sorts, Ghost(occ))
        },
        Formula::And(l, r) | Formula::Or(l, r) => {
            let ghost ol = occurrences(l@, depth as nat);
            let ghost or = occurrences(r@, depth as nat);
            assert(occ + (ol + or) =~= (occ + ol) + or);
            if !infer_var_sorts(l, depth, sorts, Ghost(occ)) {
                proof {
                    lemma_inconsistent_extend(occ + ol, or);
                }
                return false;
            }
            infer_var_sorts(r, depth, sorts, Ghost(occ + ol))
        },
        Formula::Forall { body, .. } | Formula::Exists { body, .. } => {
            infer_var_sorts(body, depth + 1, sorts, Ghost(occ))
        },
        Formula::Not(inner) => infer_var_sorts(inner, depth, sorts, Ghost(occ)),
        _ => {
            assert(occ + occurrences(f@, depth as nat) =~= occ);
            true
        },
    }
}

/// The sort given to binder `i` when closing: the inferred sort of free
/// variable `i`, or `default`.
pub open spec fn sort_or(occ: Seq<(nat, Option<Seq<char>>)>, i: nat, default: Seq<char>) -> Seq<char> {
    match inferred_sort(occ, i) {
        Some(s) => s,
        None => default,
    }
}

/// `f` under `count` universal binders, binder `i` (counting from the
/// innermost) with sort `sort_or(occ, i, default)`.
pub open spec fn close_with(f: FormulaV, occ: Seq<(nat, Option<Seq<char>>)>, default: Seq<char>, count: nat) -> FormulaV
    decreases count,
{
    if count == 0 {
        f
    } else {
        FormulaV::Forall(
            sort_or(occ, (count - 1) as nat, default),
            Box::new(close_with(f, occ, default, (count - 1) as nat)),
        )
    }
}

/// Abstract value of an optional formula.
pub open spec fn option_view(o: Option<Formula>) -> Option<FormulaV> {
    match o {
        Some(f) => Some(f@),
        None => None,
    }
}

/// The universal closure of `f` (see [`close_universal`]).
pub open spec fn closure_spec(f: FormulaV, sorts: Seq<SortSymbol>) -> Option<FormulaV> {
    let occ = occurrences(f, 0);
    if !sorts_consistent(occ) {
        None
    } else if crate::formula::is_sentence_spec(f) {
        Some(f)
    } else if sorts.len() == 0 {
        None
    } else {
        Some(close_with(f, occ, sorts[0].name@, (choose|m: nat| is_max_free(f, m)) + 1))
    }
}

/// `m` is the largest free variable of `f`.
pub open spec fn is_max_free(f: FormulaV, m: nat) -> bool {
    crate::formula::has_free(f, 0, m) && forall|y: nat| crate::formula::has_free(f, 0, y) ==> y <= m
}

fn sort_lookup(sorts: &Vec<(usize, SortSymbol)>, x: usize) -> (r: Option<SortSymbol>)
    requires
        forall|i: int, j: int| 0 <= i < j < sorts@.len() ==> (#[trigger] sorts@[i]).0 != (#[trigger] sorts@[j]).0,
    ensures
        match r {
            Some(s) => map_lookup(sorts@, x as nat) == Some(s@),
            None => map_lookup(sorts@, x as nat) is None,
        },
{
    let mut k: usize = 0;
    while k < sorts.len()
        invariant
            k <= sorts@.len(),
            forall|q: int| 0 <= q < k ==> (#[trigger] sorts@[q]).0 != x,
            forall|i: int, j: int| 0 <= i < j < sorts@.len() ==> (#[trigger] sorts@[i]).0 != (#[trigger] sorts@[j]).0,
        decreases sorts.len() - k,
    {
        if sorts[k].0 == x {
            proof {
                assert forall|q: int| 0 <= q < sorts@.len() && (#[trigger] sorts@[q]).0 == x implies q == k by {
                    if q > k {
                        assert(sorts@[k as int].0 != sorts@[q].0);
                    }
                }
            }
            return Some(sorts[k].1.copy());
        }
        k = k + 1;
    }
    None
}

/// Universally close the free variables of `f`.  Binder sorts come from
/// the argument positions the variables occupy; an unused index below the
/// largest free variable gets the signature's first sort.  `None` when the
/// positions disagree or lie beyond an arity, or when a binder is needed
/// and the signature has no sort.
pub fn close_universal(f: Formula, sig: &Signature) -> (r: Option<Formula>)
    requires
        crate::formula::rank(f@) <= usize::MAX,
    ensures
        option_view(r) == closure_spec(f@, sig.sorts@),
{
    let ghost fv = f@;
    let ghost occ = occurrences(fv, 0);
    let mut sorts: Vec<(usize, SortSymbol)> = Vec::new();
    proof {
        let e = Seq::<(nat, Option<Seq<char>>)>::empty();
        assert forall|x: nat| #[trigger] map_lookup(sorts@, x) == inferred_sort(e, x) by {}
        assert(e + occ =~= occ);
    }
    if !infer_var_sorts(&f, 0, &mut sorts, Ghost(Seq::empty())) {
        return None;
    }
    let free = f.free_vars();
    if free.len() == 0 {
        proof {
            assert forall|x: nat| !crate::formula::has_free(fv, 0, x) by {
                if crate::formula::has_free(fv, 0, x) {
                    assert(free@.contains(x as usize));
                }
            }
        }
        return Some(f);
    }
    let max_idx = free[free.len() - 1];
    proof {
        assert(free@.contains(free@[free@.len() - 1]));
        assert forall|y: nat| crate::formula::has_free(fv, 0, y) implies y <= max_idx by {
            assert(y <= usize::MAX);
            assert(free@.contains(y as usize));
            let q = choose|q: int| 0 <= q < free@.len() && free@[q] == y as usize;
            if q < free@.len() - 1 {
                assert(free@[q] < free@[free@.len() - 1]);
            }
        }
        assert(is_max_free(fv, max_idx as nat));
        assert(!crate::formula::is_sentence_spec(fv));
    }
    if sig.sorts.len() == 0 {
        return None;
    }
    let default_sort = sig.sorts[0].copy();
    let mut result = f;
    let mut i: usize = 0;
    loop
        invariant_except_break
            result@ == close_with(fv, occ, default_sort@, i as nat),
        invariant
            i <= max_idx,
            sig.sorts@.len() > 0,
            records(sorts@, Seq::<(nat, Option<Seq<char>>)>::empty() + occ),
            default_sort@ == sig.sorts@[0].name@,
        ensures
            result@ == close_with(fv, occ, default_sort@, max_idx as nat + 1),
        decreases max_idx - i,
    {
        let sort = match sort_lookup(&sorts, i) {
            Some(s) => s,
            None => default_sort.copy(),
        };
        proof {
            assert(Seq::<(nat, Option<Seq<char>>)>::empty() + occ =~= occ);
            assert(map_lookup(sorts@, i as nat) == inferred_sort(occ, i as nat));
            assert(sort@ == sort_or(occ, i as nat, default_sort@));
        }
        result = Formula::Forall { sort, body: Box::new(result) };
        if i == max_idx {
            break;
        }
        i = i + 1;
    }
    proof {
        assert(is_max_free(fv, max_idx as nat));
        let m = choose|m: nat| is_max_free(fv, m);
        assert(m <= max_idx && max_idx <= m);
    }
    Some(result)
}

// ---------------------------------------------------------------------------
// Decomposition and candidate mutants
// ---------------------------------------------------------------------------

/// The closures of `atoms` that exist, in order.
pub open spec fn closed_list(atoms: Seq<FormulaV>, sorts: Seq<SortSymbol>) -> Seq<FormulaV>
    decreases atoms.len(),
{
    if atoms.len() == 0 {
        seq![]
    } else {
        let prev = closed_list(atoms.drop_last(), sorts);
        match closure_spec(atoms.last(), sorts) {
            Some(g) => prev.push(g),
            None => prev,
        }
    }
}

/// The universal closures of the atomic formulas of `sig` (those that
/// exist), in order.
pub fn closed_atoms(sig: &Signature) -> (r: Vec<Formula>)
    requires
        all_relation_atoms(sig.relations@).len() <= usize::MAX,
    ensures
        formulas_view(r@) == closed_list(all_relation_atoms(sig.relations@), sig.sorts@),
{
    let atoms = enumerate_atomic_formulas(sig);
    let ghost av = formulas_view(atoms@);
    let mut out: Vec<Formula> = Vec::new();
    let mut i: usize = 0;
    assert(av.take(0) =~= Seq::<FormulaV>::empty());
    while i < atoms.len()
        invariant
            i <= atoms@.len(),
            av == formulas_view(atoms@),
            av == all_relation_atoms(sig.relations@),
            formulas_view(out@) == closed_list(av.take(i as int), sig.sorts@),
        decreases atoms.len() - i,
    {
        proof {
            assert(av.take(i + 1).drop_last() =~= av.take(i as int));
            assert(av.take(i + 1).last() == atoms@[i as int]@);
            lemma_atoms_rank(sig.relations@, i as int);
        }
        let c = close_universal(copy_formula(&atoms[i]), sig);
        match c {
            Some(g) => {
                let ghost before = formulas_view(out@);
                let ghost gv = g@;
                out.push(g);
                assert(formulas_view(out@) =~= before.push(gv));
            },
            None => {},
        }
        i = i + 1;
    }
    assert(av.take(i as int) =~= av);
    out
}

proof fn lemma_atoms_rank(rels: Seq<RelationSymbol>, k: int)
    requires
        0 <= k < all_relation_atoms(rels).len(),
    ensures
        crate::formula::rank(all_relation_atoms(rels)[k]) == 0,
    decreases rels.len(),
{
    if rels.len() > 0 {
        let prev = all_relation_atoms(rels.drop_last());
        if k < prev.len() {
            lemma_atoms_rank(rels.drop_last(), k);
        } else {
            let ra = relation_atoms(rels.last());
            assert(all_relation_atoms(rels)[k] == ra[k - prev.len()]);
        }
    }
}

/// `s` without entry `i`.
pub open spec fn without(s: Seq<FormulaV>, i: int) -> Seq<FormulaV> {
    s.remove(i)
}

/// The axioms among the first `k` of `axs` not entailed by the other
/// axioms, in order.
pub open spec fn irreducible<C: EntailmentChecker>(checker: &C, axs: Seq<FormulaV>, k: nat) -> Seq<FormulaV>
    decreases k,
{
    if k == 0 {
        seq![]
    } else {
        let prev = irreducible(checker, axs, (k - 1) as nat);
        if !checker.entails_spec(without(axs, k - 1), seq![axs[k - 1]]) {
            prev.push(axs[k - 1])
        } else {
            prev
        }
    }
}

/// Every entry and the others can be given to the checker.
pub open spec fn checkable_pieces<C: EntailmentChecker>(checker: &C, axs: Seq<FormulaV>) -> bool {
    forall|i: int|
        0 <= i < axs.len() ==> checker.accepts(without(axs, i)) && checker.accepts(seq![#[trigger] axs[i]])
}

/// The first `j` entries of `s`, without entry `i`.
pub open spec fn prefix_without(s: Seq<FormulaV>, i: int, j: int) -> Seq<FormulaV> {
    if j <= i {
        s.subrange(0, j)
    } else {
        s.subrange(0, j).remove(i)
    }
}

fn others(axioms: &Vec<Formula>, i: usize) -> (r: Vec<Formula>)
    requires
        i < axioms@.len(),
    ensures
        formulas_view(r@) == without(formulas_view(axioms@), i as int),
{
    let ghost fv = formulas_view(axioms@);
    let mut out: Vec<Formula> = Vec::new();
    let mut j: usize = 0;
    assert(fv.subrange(0, 0) =~= Seq::<FormulaV>::empty());
    while j < axioms.len()
        invariant
            fv == formulas_view(axioms@),
            i < axioms@.len(),
            j <= axioms@.len(),
            formulas_view(out@) == prefix_without(fv, i as int, j as int),
        decreases axioms.len() - j,
    {
        let ghost before = formulas_view(out@);
        if j != i {
            out.push(copy_formula(&axioms[j]));
            assert(formulas_view(out@) =~= before.push(fv[j as int]));
        }
        proof {
            if j < i {
                assert(fv.subrange(0, j + 1) =~= fv.subrange(0, j as int).push(fv[j as int]));
            } else if j == i {
                assert(fv.subrange(0, j + 1).remove(i as int) =~= fv.subrange(0, j as int));
            } else {
                assert(fv.subrange(0, j + 1).remove(i as int) =~= fv.subrange(0, j as int).remove(i as int).push(
                    fv[j as int],
                ));
            }
        }
        j = j + 1;
    }
    assert(fv.subrange(0, j as int) =~= fv);
    out
}

/// The join-irreducible decomposition: the axioms of `spec` not entailed
/// by the other axioms, in order.
pub fn decompose<C: EntailmentChecker>(spec: &SpecElement, checker: &C) -> (r: Vec<Formula>)
    requires
        checkable_pieces(checker, spec.axiom_views()),
    ensures
        formulas_view(r@) == irreducible(checker, spec.axiom_views(), spec.axiom_views().len()),
        spec.wf() ==> forall|i: int|
            0 <= i < spec.axiom_views().len() ==> (formulas_view(r@).contains(#[trigger] spec.axiom_views()[i])
                <==> !checker.entails_spec(without(spec.axiom_views(), i), seq![spec.axiom_views()[i]])),
{
    let axioms = &spec.axioms;
    let ghost av = formulas_view(axioms@);
    let mut components: Vec<Formula> = Vec::new();
    let mut i: usize = 0;
    while i < axioms.len()
        invariant
            i <= axioms@.len(),
            av == formulas_view(axioms@),
            av == spec.axiom_views(),
            checkable_pieces(checker, av),
            formulas_view(components@) == irreducible(checker, av, i as nat),
        decreases axioms.len() - i,
    {
        let rest = others(axioms, i);
        let mut single: Vec<Formula> = Vec::new();
        single.push(copy_formula(&axioms[i]));
        assert(formulas_view(single@) =~= seq![av[i as int]]);
        assert(checker.accepts(without(av, i as int)) && checker.accepts(seq![av[i as int]]));
        if !checker.entails(rest.as_slice(), single.as_slice()) {
            let ghost before = formulas_view(components@);
            components.push(copy_formula(&axioms[i]));
            assert(formulas_view(components@) =~= before.push(av[i as int]));
        }
        i = i + 1;
    }
    proof {
        if spec.wf() {
            crate::laws::lemma_spec_decomposition(checker, *spec);
        }
    }
    components
}

/// No component is entailed by the others.
pub fn decomposition_is_minimal<C: EntailmentChecker>(components: &Vec<Formula>, checker: &C) -> (r: bool)
    requires
        checkable_pieces(checker, formulas_view(components@)),
    ensures
        r == forall|i: int|
            0 <= i < components@.len() ==> !checker.entails_spec(
                without(formulas_view(components@), i),
                seq![#[trigger] formulas_view(components@)[i]],
            ),
{
    let ghost cv = formulas_view(components@);
    let mut i: usize = 0;
    while i < components.len()
        invariant
            i <= components@.len(),
            cv == formulas_view(components@),
            checkable_pieces(checker, cv),
            forall|k: int| 0 <= k < i ==> !checker.entails_spec(without(cv, k), seq![#[trigger] cv[k]]),
        decreases components.len() - i,
    {
        let rest = others(components, i);
        let mut single: Vec<Formula> = Vec::new();
        single.push(copy_formula(&components[i]));
        assert(formulas_view(single@) =~= seq![cv[i as int]]);
        assert(checker.accepts(without(cv, i as int)) && checker.accepts(seq![cv[i as int]]));
        if checker.entails(rest.as_slice(), single.as_slice()) {
            return false;
        }
        i = i + 1;
    }
    true
}

/// A candidate mutant with its provenance.
#[derive(Debug, Clone)]
pub struct MutantCandidate {
    /// The mutated specification.
    pub spec: SpecElement,
    /// Classification of the mutation.
    pub class: MutantClass,
    /// Index of the decomposition component that was perturbed.
    pub perturbed_component: usize,
    /// The predicate removed (weakenings and replacements).
    pub original_predicate: Option<Formula>,
    /// The closed predicate added (strengthenings and replacements).
    pub replacement_predicate: Option<Formula>,
}

/// Abstract value of a candidate: class, component, axioms, removed
/// predicate, added predicate.
pub type CandidateV = (MutantClass, nat, Seq<FormulaV>, Option<FormulaV>, Option<FormulaV>);

/// Abstract value of a candidate.
pub open spec fn candidate_view(c: MutantCandidate) -> CandidateV {
    (
        c.class,
        c.perturbed_component as nat,
        c.spec.axiom_views(),
        option_view(c.original_predicate),
        option_view(c.replacement_predicate),
    )
}

/// `s` without the entries equal to `g`.
pub open spec fn remove_axiom(s: Seq<FormulaV>, g: FormulaV) -> Seq<FormulaV> {
    s.filter(|h: FormulaV| h != g)
}

/// Strengthenings of `s` by the atoms among `atoms` that are not axioms of
/// `s` and not entailed by it, for component `i`.
pub open spec fn strengthenings<C: EntailmentChecker>(
    checker: &C,
    s: Seq<FormulaV>,
    i: nat,
    atoms: Seq<FormulaV>,
) -> Seq<CandidateV>
    decreases atoms.len(),
{
    if atoms.len() == 0 {
        seq![]
    } else {
        let prev = strengthenings(checker, s, i, atoms.drop_last());
        let p = atoms.last();
        if !s.contains(p) && !checker.entails_spec(s, seq![p]) {
            prev.push((MutantClass::Strengthening, i, normalize_all(s.push(p)), None, Some(p)))
        } else {
            prev
        }
    }
}

/// Replacements of component `ji` (number `i`) of `s` by each atom other
/// than `ji`.
pub open spec fn replacements(s: Seq<FormulaV>, i: nat, ji: FormulaV, atoms: Seq<FormulaV>) -> Seq<CandidateV>
    decreases atoms.len(),
{
    if atoms.len() == 0 {
        seq![]
    } else {
        let prev = replacements(s, i, ji, atoms.drop_last());
        let q = atoms.last();
        if q != ji {
            prev.push((MutantClass::Replacement, i, normalize_all(remove_axiom(s, ji).push(q)), Some(ji), Some(q)))
        } else {
            prev
        }
    }
}

/// The candidates for component `ji` (number `i`): its weakening, then
/// the strengthenings, then the replacements.
pub open spec fn component_candidates<C: EntailmentChecker>(
    checker: &C,
    s: Seq<FormulaV>,
    i: nat,
    ji: FormulaV,
    atoms: Seq<FormulaV>,
) -> Seq<CandidateV> {
    seq![(MutantClass::Weakening, i, normalize_all(remove_axiom(s, ji)), Some(ji), None)] + strengthenings(
        checker,
        s,
        i,
        atoms,
    ) + replacements(s, i, ji, atoms)
}

/// The candidates of the first `k` components, component by component.
pub open spec fn all_candidates<C: EntailmentChecker>(
    checker: &C,
    s: Seq<FormulaV>,
    comps: Seq<FormulaV>,
    atoms: Seq<FormulaV>,
    k: nat,
) -> Seq<CandidateV>
    decreases k,
{
    if k == 0 {
        seq![]
    } else {
        all_candidates(checker, s, comps, atoms, (k - 1) as nat) + component_candidates(
            checker,
            s,
            (k - 1) as nat,
            comps[k - 1],
            atoms,
        )
    }
}

/// The strengthening candidate that adds atom `p` to `s`, for component `i`.
pub open spec fn strengthening_view(s: Seq<FormulaV>, i: nat, p: FormulaV) -> CandidateV {
    (MutantClass::Strengthening, i, normalize_all(s.push(p)), None, Some(p))
}

/// The candidates whose key was not seen before, in order; `seen` holds
/// the keys of the spec and of the earlier candidates.
pub open spec fn first_by_key(cands: Seq<CandidateV>, seen: Set<Seq<u8>>) -> Seq<CandidateV>
    decreases cands.len(),
{
    if cands.len() == 0 {
        seq![]
    } else {
        let k = crate::lattice::key_of(cands[0].2);
        if seen.contains(k) {
            first_by_key(cands.drop_first(), seen)
        } else {
            seq![cands[0]] + first_by_key(cands.drop_first(), seen.insert(k))
        }
    }
}

fn remove_formula(axioms: &Vec<Formula>, g: &Formula) -> (r: Vec<Formula>)
    ensures
        formulas_view(r@) == remove_axiom(formulas_view(axioms@), g@),
{
    let ghost av = formulas_view(axioms@);
    let mut out: Vec<Formula> = Vec::new();
    let mut j: usize = 0;
    assert(av.take(0) =~= Seq::<FormulaV>::empty());
    proof {
        reveal(Seq::filter);
    }
    while j < axioms.len()
        invariant
            j <= axioms@.len(),
            av == formulas_view(axioms@),
            formulas_view(out@) == remove_axiom(av.take(j as int), g@),
        decreases axioms.len() - j,
    {
        proof {
            reveal(Seq::filter);
            assert(av.take(j + 1).drop_last() =~= av.take(j as int));
            assert(av.take(j + 1).last() == av[j as int]);
        }
        if !axioms[j].alpha_eq(g) {
            let ghost before = formulas_view(out@);
            out.push(copy_formula(&axioms[j]));
            assert(formulas_view(out@) =~= before.push(av[j as int]));
        }
        j = j + 1;
    }
    assert(av.take(j as int) =~= av);
    out
}

fn with_formula(axioms: Vec<Formula>, p: &Formula) -> (r: Vec<Formula>)
    ensures
        formulas_view(r@) == formulas_view(axioms@).push(p@),
{
    let mut v = axioms;
    let ghost before = formulas_view(v@);
    v.push(copy_formula(p));
    assert(formulas_view(v@) =~= before.push(p@));
    v
}

fn contains_formula(axioms: &Vec<Formula>, p: &Formula) -> (r: bool)
    ensures
        r == formulas_view(axioms@).contains(p@),
{
    let ghost av = formulas_view(axioms@);
    let mut j: usize = 0;
    while j < axioms.len()
        invariant
            j <= axioms@.len(),
            av == formulas_view(axioms@),
            forall|k: int| 0 <= k < j ==> av[k] != p@,
        decreases axioms.len() - j,
    {
        if axioms[j].alpha_eq(p) {
            assert(av[j as int] == p@);
            return true;
        }
        j = j + 1;
    }
    false
}

fn copy_option(o: &Option<Formula>) -> (r: Option<Formula>)
    ensures
        option_view(r) == option_view(*o),
{
    match o {
        Some(f) => Some(copy_formula(f)),
        None => None,
    }
}

/// Every candidate mutant of `spec`, component by component (before
/// removal of repeated keys).
fn raw_candidates<C: EntailmentChecker>(
    spec: &SpecElement,
    decomposition: &Vec<Formula>,
    atoms: &Vec<Formula>,
    checker: &C,
) -> (r: Vec<MutantCandidate>)
    requires
        checker.accepts(spec.axiom_views()),
        forall|k: int| 0 <= k < atoms@.len() ==> checker.accepts(seq![(#[trigger] atoms@[k])@]),
    ensures
        r@.map_values(|c: MutantCandidate| candidate_view(c)) == all_candidates(
            checker,
            spec.axiom_views(),
            formulas_view(decomposition@),
            formulas_view(atoms@),
            decomposition@.len() as nat,
        ),
        forall|k: int| 0 <= k < r@.len() ==> (#[trigger] r@[k]).spec.wf(),
        forall|i: nat, k: int|
            i < decomposition@.len() && 0 <= k < atoms@.len() && !spec.axiom_views().contains(formulas_view(atoms@)[k])
                && !checker.entails_spec(spec.axiom_views(), seq![formulas_view(atoms@)[k]])
                ==> r@.map_values(|c: MutantCandidate| candidate_view(c)).contains(#[trigger] strengthening_view(
                    spec.axiom_views(),
                    i,
                    formulas_view(atoms@)[k],
                )),
{
    let ghost sv = spec.axiom_views();
    let ghost cv = formulas_view(decomposition@);
    let ghost atv = formulas_view(atoms@);
    let mut out: Vec<MutantCandidate> = Vec::new();
    let mut i: usize = 0;
    while i < decomposition.len()
        invariant
            i <= decomposition@.len(),
            sv == spec.axiom_views(),
            cv == formulas_view(decomposition@),
            atv == formulas_view(atoms@),
            checker.accepts(sv),
            forall|k: int| 0 <= k < atoms@.len() ==> checker.accepts(seq![(#[trigger] atoms@[k])@]),
            out@.map_values(|c: MutantCandidate| candidate_view(c)) == all_candidates(checker, sv, cv, atv, i as nat),
            forall|k: int| 0 <= k < out@.len() ==> (#[trigger] out@[k]).spec.wf(),
        decreases decomposition.len() - i,
    {
        let ji = &decomposition[i];
        let ghost base = out@.map_values(|c: MutantCandidate| candidate_view(c));
        let ghost jv = ji@;
        proof {
            assert(cv[i as int] == jv);
        }
        let weak = SpecElement::new(remove_formula(&spec.axioms, ji));
        out.push(MutantCandidate {
            spec: weak,
            class: MutantClass::Weakening,
            perturbed_component: i,
            original_predicate: Some(copy_formula(ji)),
            replacement_predicate: None,
        });
        proof {
            assert(out@.map_values(|c: MutantCandidate| candidate_view(c)) =~= base + seq![
                (MutantClass::Weakening, i as nat, normalize_all(remove_axiom(sv, jv)), Some(jv), None::<FormulaV>),
            ]);
        }
        let ghost after_weak = out@.map_values(|c: MutantCandidate| candidate_view(c));
        let mut t: usize = 0;
        assert(atv.take(0) =~= Seq::<FormulaV>::empty());
        assert(after_weak + strengthenings(checker, sv, i as nat, atv.take(0)) =~= after_weak);
        while t < atoms.len()
            invariant
                t <= atoms@.len(),
                i < decomposition@.len(),
                sv == spec.axiom_views(),
                atv == formulas_view(atoms@),
                checker.accepts(sv),
                forall|k: int| 0 <= k < atoms@.len() ==> checker.accepts(seq![(#[trigger] atoms@[k])@]),
                out@.map_values(|c: MutantCandidate| candidate_view(c)) == after_weak + strengthenings(
                    checker,
                    sv,
                    i as nat,
                    atv.take(t as int),
                ),
                forall|k: int| 0 <= k < out@.len() ==> (#[trigger] out@[k]).spec.wf(),
            decreases atoms.len() - t,
        {
            let p = &atoms[t];
            let ghost before = out@.map_values(|c: MutantCandidate| candidate_view(c));
            proof {
                assert(atv.take(t + 1).drop_last() =~= atv.take(t as int));
                assert(atv.take(t + 1).last() == p@);
            }
            if !contains_formula(&spec.axioms, p) {
                let mut single: Vec<Formula> = Vec::new();
                single.push(copy_formula(p));
                assert(formulas_view(single@) =~= seq![p@]);
                if !checker.entails(spec.axioms.as_slice(), single.as_slice()) {
                    let next = with_formula(copy_formulas(&spec.axioms), p);
                    out.push(MutantCandidate {
                        spec: SpecElement::new(next),
                        class: MutantClass::Strengthening,
                        perturbed_component: i,
                        original_predicate: None,
                        replacement_predicate: Some(copy_formula(p)),
                    });
                    proof {
                        assert(out@.map_values(|c: MutantCandidate| candidate_view(c)) =~= before.push(
                            (MutantClass::Strengthening, i as nat, normalize_all(sv.push(p@)), None::<FormulaV>, Some(p@)),
                        ));
                    }
                }
            }
            t = t + 1;
        }
        assert(atv.take(t as int) =~= atv);
        let ghost after_strong = out@.map_values(|c: MutantCandidate| candidate_view(c));
        let mut t: usize = 0;
        assert(after_strong + replacements(sv, i as nat, jv, atv.take(0)) =~= after_strong);
        while t < atoms.len()
            invariant
                t <= atoms@.len(),
                i < decomposition@.len(),
                sv == spec.axiom_views(),
                atv == formulas_view(atoms@),
                jv == ji@,
                out@.map_values(|c: MutantCandidate| candidate_view(c)) == after_strong + replacements(
                    sv,
                    i as nat,
                    jv,
                    atv.take(t as int),
                ),
                forall|k: int| 0 <= k < out@.len() ==> (#[trigger] out@[k]).spec.wf(),
            decreases atoms.len() - t,
        {
            let q = &atoms[t];
            let ghost before = out@.map_values(|c: MutantCandidate| candidate_view(c));
            proof {
                assert(atv.take(t + 1).drop_last() =~= atv.take(t as int));
                assert(atv.take(t + 1).last() == q@);
            }
            if !q.alpha_eq(ji) {
                let next = with_formula(remove_formula(&spec.axioms, ji), q);
                out.push(MutantCandidate {
                    spec: SpecElement::new(next),
                    class: MutantClass::Replacement,
                    perturbed_component: i,
                    original_predicate: Some(copy_formula(ji)),
                    replacement_predicate: Some(copy_formula(q)),
                });
                proof {
                    assert(out@.map_values(|c: MutantCandidate| candidate_view(c)) =~= before.push(
                        (
                            MutantClass::Replacement,
                            i as nat,
                            normalize_all(remove_axiom(sv, jv).push(q@)),
                            Some(jv),
                            Some(q@),
                        ),
                    ));
                }
            }
            t = t + 1;
        }
        proof {
            assert(atv.take(t as int) =~= atv);
            assert(all_candidates(checker, sv, cv, atv, (i + 1) as nat) =~= base + component_candidates(
                checker,
                sv,
                i as nat,
                jv,
                atv,
            ));
            assert(out@.map_values(|c: MutantCandidate| candidate_view(c)) =~= base + component_candidates(
                checker,
                sv,
                i as nat,
                jv,
                atv,
            ));
        }
        i = i + 1;
    }
    proof {
        assert(cv.len() == decomposition@.len());
        assert(out@.map_values(|c: MutantCandidate| candidate_view(c)) == all_candidates(checker, sv, cv, atv, cv.len()));
        assert forall|i: nat, k: int|
            i < decomposition@.len() && 0 <= k < atoms@.len() && !sv.contains(atv[k]) && !checker.entails_spec(
                sv,
                seq![atv[k]],
            ) implies #[trigger] all_candidates(checker, sv, cv, atv, cv.len()).contains(
            strengthening_view(sv, i, atv[k]),
        ) by {
            crate::laws::lemma_strengthening_for_each_new_atom(checker, sv, cv, atv, i, k);
        }
    }
    out
}

/// The keys in a list of byte strings.
pub open spec fn key_set(v: Seq<Vec<u8>>) -> Set<Seq<u8>> {
    Set::new(|k: Seq<u8>| exists|i: int| 0 <= i < v.len() && (#[trigger] v[i])@ == k)
}

fn seen_contains(seen: &Vec<Vec<u8>>, key: &[u8]) -> (r: bool)
    ensures
        r == key_set(seen@).contains(key@),
{
    let mut i: usize = 0;
    while i < seen.len()
        invariant
            i <= seen@.len(),
            forall|k: int| 0 <= k < i ==> (#[trigger] seen@[k])@ != key@,
        decreases seen.len() - i,
    {
        if crate::serial::compare_bytes(seen[i].as_slice(), key) == 0 {
            proof {
                crate::serial::lemma_bytes_order_facts(seen@[i as int]@, key@);
            }
            return true;
        }
        proof {
            crate::serial::lemma_bytes_order_facts(seen@[i as int]@, key@);
        }
        i = i + 1;
    }
    false
}

/// The candidate mutants of `spec`: for each component of the
/// decomposition its weakening, its strengthenings by the atoms that are
/// neither axioms of the spec nor entailed by it, and its replacements by
/// every other atom; a candidate is kept only if its key differs from the
/// spec's and from every earlier candidate's.
pub fn mutation_candidates<C: EntailmentChecker>(
    spec: &SpecElement,
    decomposition: &Vec<Formula>,
    atoms: &Vec<Formula>,
    checker: &C,
) -> (r: Vec<MutantCandidate>)
    requires
        spec.wf(),
        checker.accepts(spec.axiom_views()),
        forall|k: int| 0 <= k < atoms@.len() ==> checker.accepts(seq![(#[trigger] atoms@[k])@]),
    ensures
        r@.map_values(|c: MutantCandidate| candidate_view(c)) == first_by_key(
            all_candidates(
                checker,
                spec.axiom_views(),
                formulas_view(decomposition@),
                formulas_view(atoms@),
                decomposition@.len() as nat,
            ),
            set![spec.key()],
        ),
        forall|w: int|
            0 <= w < r@.len() && (#[trigger] r@[w]).class == MutantClass::Strengthening ==> exists|k: int|
                0 <= k < atoms@.len() && !spec.axiom_views().contains((#[trigger] atoms@[k])@) && !checker.entails_spec(
                    spec.axiom_views(),
                    seq![atoms@[k]@],
                ) && candidate_view(r@[w]) == strengthening_view(
                    spec.axiom_views(),
                    r@[w].perturbed_component as nat,
                    atoms@[k]@,
                ),
{
    let raw = raw_candidates(spec, decomposition, atoms, checker);
    let ghost rv = raw@.map_values(|c: MutantCandidate| candidate_view(c));
    let mut seen: Vec<Vec<u8>> = Vec::new();
    let mut first: Vec<u8> = Vec::new();
    crate::serial::append_bytes(&mut first, spec.canonical_key.as_slice());
    seen.push(first);
    proof {
        assert(key_set(seen@) =~= set![spec.key()]) by {
            assert forall|k: Seq<u8>| key_set(seen@).contains(k) <==> set![spec.key()].contains(k) by {
                if k == spec.key() {
                    assert(seen@[0]@ == k);
                }
            }
        }
        assert(rv.skip(0) =~= rv);
    }
    let mut out: Vec<MutantCandidate> = Vec::new();
    let mut raw = raw;
    let n = raw.len();
    let mut i: usize = 0;
    while i < n
        invariant
            n == raw@.len(),
            i <= n,
            rv == raw@.map_values(|c: MutantCandidate| candidate_view(c)),
            forall|k: int| 0 <= k < raw@.len() ==> (#[trigger] raw@[k]).spec.wf(),
            out@.map_values(|c: MutantCandidate| candidate_view(c)) + first_by_key(rv.skip(i as int), key_set(seen@))
                == first_by_key(rv, set![spec.key()]),
        decreases n - i,
    {
        let c = MutantCandidate {
            spec: raw[i].spec.copy(),
            class: raw[i].class,
            perturbed_component: raw[i].perturbed_component,
            original_predicate: copy_option(&raw[i].original_predicate),
            replacement_predicate: copy_option(&raw[i].replacement_predicate),
        };
        proof {
            assert(candidate_view(c) == rv[i as int]);
            assert(rv.skip(i as int).drop_first() =~= rv.skip(i + 1));
            assert(rv.skip(i as int)[0] == rv[i as int]);
            assert(raw@[i as int].spec.wf());
            assert(c.spec.key() == crate::lattice::key_of(rv[i as int].2));
        }
        let ghost before = out@.map_values(|c: MutantCandidate| candidate_view(c));
        let ghost seen_before = key_set(seen@);
        let ghost old_seen = seen@;
        if !seen_contains(&seen, c.spec.canonical_key.as_slice()) {
            let mut k: Vec<u8> = Vec::new();
            crate::serial::append_bytes(&mut k, c.spec.canonical_key.as_slice());
            let ghost kv = k@;
            seen.push(k);
            proof {
                assert(key_set(seen@) =~= seen_before.insert(kv)) by {
                    assert forall|x: Seq<u8>| key_set(seen@).contains(x) <==> seen_before.insert(kv).contains(x) by {
                        if seen_before.contains(x) {
                            let q = choose|q: int| 0 <= q < old_seen.len() && (#[trigger] old_seen[q])@ == x;
                            assert(seen@[q] == old_seen[q]);
                            assert(seen@[q]@ == x);
                        }
                        if key_set(seen@).contains(x) {
                            let q = choose|q: int| 0 <= q < seen@.len() && (#[trigger] seen@[q])@ == x;
                            if q < old_seen.len() {
                                assert(seen@[q] == old_seen[q]);
                                assert(old_seen[q]@ == x);
                                assert(seen_before.contains(x));
                            }
                        }
                        if x == kv {
                            assert(seen@[seen@.len() - 1]@ == x);
                        }
                    }
                }
            }
            out.push(c);
            proof {
                assert(out@.map_values(|c: MutantCandidate| candidate_view(c)) =~= before.push(rv[i as int]));
                assert(before.push(rv[i as int]) + first_by_key(rv.skip(i + 1), key_set(seen@)) =~= before + (
                seq![rv[i as int]] + first_by_key(rv.skip(i + 1), key_set(seen@))));
            }
        }
        i = i + 1;
    }
    proof {
        assert(rv.skip(i as int) =~= Seq::<CandidateV>::empty());
        assert(out@.map_values(|c: MutantCandidate| candidate_view(c)) + Seq::<CandidateV>::empty()
            =~= out@.map_values(|c: MutantCandidate| candidate_view(c)));
        let ov = out@.map_values(|c: MutantCandidate| candidate_view(c));
        let sv = spec.axiom_views();
        let cv = formulas_view(decomposition@);
        let atv = formulas_view(atoms@);
        assert(cv.len() == decomposition@.len());
        assert forall|w: int|
            0 <= w < out@.len() && (#[trigger] out@[w]).class == MutantClass::Strengthening implies exists|k: int|
                0 <= k < atoms@.len() && !spec.axiom_views().contains((#[trigger] atoms@[k])@) && !checker.entails_spec(
                    spec.axiom_views(),
                    seq![atoms@[k]@],
                ) && candidate_view(out@[w]) == strengthening_view(
                    spec.axiom_views(),
                    out@[w].perturbed_component as nat,
                    atoms@[k]@,
                ) by {
            let c = candidate_view(out@[w]);
            assert(ov[w] == c);
            assert(ov == first_by_key(rv, set![spec.key()]));
            assert(first_by_key(rv, set![spec.key()]).contains(c));
            crate::laws::lemma_neighborhood_strengthenings(checker, sv, cv, atv, set![spec.key()], c);
            let k = choose|k: int|
                0 <= k < atv.len() && !sv.contains(atv[k]) && !#[trigger] checker.entails_spec(sv, seq![atv[k]]) && c
                    == strengthening_view(sv, c.1, atv[k]);
            assert(atv[k] == atoms@[k]@);
        }
    }
    out
}

} // verus!
