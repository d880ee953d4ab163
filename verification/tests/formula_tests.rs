use specmut::formula::{Formula, Term};
use specmut::signature::{FunctionSymbol, RelationSymbol, SortSymbol};

fn s(name: &str) -> SortSymbol {
    SortSymbol::new(name)
}

fn rel(name: &str, arity: Vec<SortSymbol>) -> RelationSymbol {
    RelationSymbol::new(name, arity)
}

fn atom(name: &str, args: Vec<Term>) -> Formula {
    let arity: Vec<SortSymbol> = args.iter().map(|_| s("S")).collect();
    Formula::Atom { relation: rel(name, arity), args }
}

fn neg_atom(name: &str, args: Vec<Term>) -> Formula {
    let arity: Vec<SortSymbol> = args.iter().map(|_| s("S")).collect();
    Formula::NegAtom { relation: rel(name, arity), args }
}

#[test]
fn to_nnf_pushes_negation_through_forall() {
    let phi = Formula::Not(Box::new(Formula::Forall { sort: s("S"), body: Box::new(atom("P", vec![Term::Var(0)])) }));
    let nnf = Formula::to_nnf(phi);
    let expected = Formula::Exists { sort: s("S"), body: Box::new(neg_atom("P", vec![Term::Var(0)])) };
    assert_eq!(nnf, expected);
}

#[test]
fn to_nnf_de_morgan_conjunction() {
    let phi = Formula::Not(Box::new(Formula::And(Box::new(atom("P", vec![])), Box::new(atom("Q", vec![])))));
    let nnf = Formula::to_nnf(phi);
    let expected = Formula::Or(Box::new(neg_atom("P", vec![])), Box::new(neg_atom("Q", vec![])));
    assert_eq!(nnf, expected);
}

#[test]
fn to_nnf_eliminates_double_negation() {
    let phi = Formula::Not(Box::new(Formula::Not(Box::new(atom("P", vec![])))));
    assert_eq!(Formula::to_nnf(phi), atom("P", vec![]));
}

#[test]
fn to_nnf_double_negation_on_quantifier() {
    let inner = Formula::Forall { sort: s("S"), body: Box::new(atom("P", vec![Term::Var(0)])) };
    let phi = Formula::Not(Box::new(Formula::Not(Box::new(inner.clone()))));
    assert_eq!(Formula::to_nnf(phi), inner);
}

#[test]
fn quantifier_rank_counts_nesting() {
    let inner = atom("P", vec![Term::Var(1), Term::Var(0)]);
    let phi = Formula::Forall {
        sort: s("S"),
        body: Box::new(Formula::Exists { sort: s("S"), body: Box::new(inner) }),
    };
    assert_eq!(phi.quantifier_rank(), 2);
}

#[test]
fn quantifier_rank_disjunction_takes_max() {
    let phi = Formula::Or(
        Box::new(Formula::Forall { sort: s("S"), body: Box::new(atom("P", vec![Term::Var(0)])) }),
        Box::new(atom("Q", vec![])),
    );
    assert_eq!(phi.quantifier_rank(), 1);
}

#[test]
fn free_vars_of_open_formula_under_quantifier() {
    let phi = Formula::Forall { sort: s("S"), body: Box::new(atom("P", vec![Term::Var(0), Term::Var(1)])) };
    let fv = phi.free_vars();
    assert_eq!(fv, vec![0]);
}

#[test]
fn free_vars_of_closed_formula_is_empty() {
    let phi = Formula::Forall { sort: s("S"), body: Box::new(atom("P", vec![Term::Var(0)])) };
    assert!(phi.free_vars().is_empty());
    assert!(phi.is_sentence());
}

#[test]
fn is_sentence_detects_free_variable() {
    let phi = atom("P", vec![Term::Var(0)]);
    assert!(!phi.is_sentence());
    assert_eq!(phi.free_vars(), vec![0]);
}

#[test]
fn substitute_shifts_under_binder() {
    let f_sym = FunctionSymbol::new("f", vec![s("S")], s("S"));
    let phi = Formula::Forall { sort: s("S"), body: Box::new(atom("P", vec![Term::Var(0), Term::Var(1)])) };
    let replacement = Term::App { function: f_sym.clone(), args: vec![Term::Var(0)] };
    let result = phi.substitute(0, &replacement);
    let expected = Formula::Forall {
        sort: s("S"),
        body: Box::new(atom("P", vec![Term::Var(0), Term::App { function: f_sym, args: vec![Term::Var(1)] }])),
    };
    assert_eq!(result, expected);
}

#[test]
fn substitute_replaces_top_level_variable() {
    let c = Term::App { function: FunctionSymbol::new("c", vec![], s("S")), args: vec![] };
    let phi = atom("P", vec![Term::Var(0)]);
    let result = phi.substitute(0, &c);
    assert_eq!(result, atom("P", vec![c]));
}

#[test]
fn substitute_leaves_other_variables_alone() {
    let c = Term::App { function: FunctionSymbol::new("c", vec![], s("S")), args: vec![] };
    let phi = atom("P", vec![Term::Var(0), Term::Var(1)]);
    let result = phi.substitute(0, &c);
    assert_eq!(result, atom("P", vec![c, Term::Var(1)]));
}

#[test]
fn conjunction_empty_is_top_disjunction_empty_is_bot() {
    assert_eq!(Formula::conjunction(vec![]), Formula::Top);
    assert_eq!(Formula::disjunction(vec![]), Formula::Bot);
}

#[test]
fn conjunction_single_is_identity() {
    let p = atom("P", vec![]);
    assert_eq!(Formula::conjunction(vec![p.clone()]), p);
}

#[test]
fn atoms_collects_atomic_subformulas() {
    let p = atom("P", vec![]);
    let q = neg_atom("Q", vec![]);
    let phi = Formula::And(Box::new(p.clone()), Box::new(q.clone()));
    let atoms = phi.atoms();
    assert_eq!(atoms, vec![p, q]);
}

#[test]
fn canonical_order_matches_spec() {
    let bot = Formula::Bot;
    let top = Formula::Top;
    let a = atom("P", vec![]);
    let na = neg_atom("P", vec![]);
    let eq = Formula::Eq(Term::Var(0), Term::Var(0));
    let neq = Formula::Neq(Term::Var(0), Term::Var(0));
    let and = Formula::And(Box::new(Formula::Top), Box::new(Formula::Top));
    let or = Formula::Or(Box::new(Formula::Top), Box::new(Formula::Top));
    let fa = Formula::Forall { sort: s("S"), body: Box::new(Formula::Top) };
    let ex = Formula::Exists { sort: s("S"), body: Box::new(Formula::Top) };
    let ordered = [bot, top, a, na, eq, neq, and, or, fa, ex];
    for w in ordered.windows(2) {
        assert!(w[0] < w[1], "{:?} should sort before {:?}", w[0], w[1]);
        assert_eq!(w[0].canonical_cmp(&w[1]), std::cmp::Ordering::Less);
    }
}

#[test]
fn nnf_is_idempotent_on_a_mixed_formula() {
    let phi = Formula::Not(Box::new(Formula::Or(
        Box::new(Formula::Forall { sort: s("S"), body: Box::new(atom("P", vec![Term::Var(0)])) }),
        Box::new(Formula::Not(Box::new(atom("Q", vec![])))),
    )));
    let once = Formula::to_nnf(phi);
    let twice = Formula::to_nnf(once.clone());
    assert_eq!(once, twice);
    let expected = Formula::And(
        Box::new(Formula::Exists { sort: s("S"), body: Box::new(neg_atom("P", vec![Term::Var(0)])) }),
        Box::new(atom("Q", vec![])),
    );
    assert_eq!(once, expected);
}
