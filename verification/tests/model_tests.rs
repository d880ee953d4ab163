use std::collections::HashSet;
use specmut::formula::{Formula, Term};
use specmut::model::{FiniteModel, ModelEnumerator, RelationInterp};
use specmut::signature::{RelationSymbol, Signature, SortSymbol};

fn sort(name: &str) -> SortSymbol {
    SortSymbol::new(name)
}

fn unary_sig() -> Signature {
    let s = sort("S");
    Signature::new(vec![s.clone()], vec![], vec![RelationSymbol::new("P", vec![s])]).expect("valid sig")
}

fn binary_sig() -> Signature {
    let s = sort("S");
    Signature::new(vec![s.clone()], vec![], vec![RelationSymbol::new("R", vec![s.clone(), s])]).expect("valid sig")
}

fn make_model(sig: Signature, n: usize, p_tuples: Vec<Vec<usize>>) -> FiniteModel {
    let carriers: Vec<(SortSymbol, usize)> = sig.sorts.iter().map(|s| (s.clone(), n)).collect();
    let mut relation_interps: Vec<RelationInterp> = Vec::new();
    for (k, r) in sig.relations.iter().enumerate() {
        let tuples = if k == 0 { p_tuples.clone() } else { vec![] };
        relation_interps.push(RelationInterp { name: r.name.clone(), tuples });
    }
    FiniteModel { signature: sig, carriers, function_interps: vec![], relation_interps }
}

fn p_atom(args: Vec<Term>) -> Formula {
    let s = sort("S");
    Formula::Atom { relation: RelationSymbol::new("P", vec![s; args.len()]), args }
}

fn r_atom(args: Vec<Term>) -> Formula {
    let s = sort("S");
    Formula::Atom { relation: RelationSymbol::new("R", vec![s; args.len()]), args }
}

#[test]
fn forall_holds_when_relation_is_full() {
    let model = make_model(unary_sig(), 2, vec![vec![0], vec![1]]);
    let phi = Formula::Forall { sort: sort("S"), body: Box::new(p_atom(vec![Term::Var(0)])) };
    assert!(model.evaluate(&phi));
}

#[test]
fn forall_fails_when_relation_is_partial() {
    let model = make_model(unary_sig(), 2, vec![vec![0]]);
    let phi = Formula::Forall { sort: sort("S"), body: Box::new(p_atom(vec![Term::Var(0)])) };
    assert!(!model.evaluate(&phi));
}

#[test]
fn exists_forall_on_total_row() {
    let model = make_model(binary_sig(), 2, vec![vec![0, 0], vec![0, 1]]);
    let phi = Formula::Exists {
        sort: sort("S"),
        body: Box::new(Formula::Forall { sort: sort("S"), body: Box::new(r_atom(vec![Term::Var(1), Term::Var(0)])) }),
    };
    assert!(model.evaluate(&phi));
}

#[test]
fn exists_forall_fails_when_no_full_row() {
    let model = make_model(binary_sig(), 2, vec![vec![0, 0], vec![1, 1]]);
    let phi = Formula::Exists {
        sort: sort("S"),
        body: Box::new(Formula::Forall { sort: sort("S"), body: Box::new(r_atom(vec![Term::Var(1), Term::Var(0)])) }),
    };
    assert!(!model.evaluate(&phi));
}

#[test]
fn satisfies_spec_requires_all_axioms() {
    let model = make_model(unary_sig(), 2, vec![vec![0], vec![1]]);
    let p_for_all = Formula::Forall { sort: sort("S"), body: Box::new(p_atom(vec![Term::Var(0)])) };
    let p_exists = Formula::Exists { sort: sort("S"), body: Box::new(p_atom(vec![Term::Var(0)])) };
    assert!(model.satisfies_spec(&[p_for_all.clone(), p_exists.clone()]));
    let model2 = make_model(unary_sig(), 2, vec![vec![0]]);
    assert!(!model2.satisfies_spec(&[p_for_all]));
    assert!(model2.satisfies_spec(&[p_exists]));
}

#[test]
fn enumerator_produces_distinct_models() {
    let models: Vec<_> = ModelEnumerator::new(unary_sig(), 2).enumerate();
    let unique: HashSet<_> = models.iter().cloned().collect();
    assert_eq!(unique.len(), models.len());
    assert_eq!(models.len(), 4);
}

#[test]
fn enumerator_first_model_is_empty_relation() {
    let models = ModelEnumerator::new(unary_sig(), 2).enumerate();
    let first = models.first().expect("at least one model");
    let p = first.relation_interps.iter().find(|r| r.name == "P").expect("P interpreted");
    assert!(p.tuples.is_empty());
}

#[test]
fn negation_evaluates_consistently_with_atom() {
    let model = make_model(unary_sig(), 2, vec![vec![0]]);
    let p_one = p_atom(vec![Term::Var(0)]);
    let phi = Formula::Exists {
        sort: sort("S"),
        body: Box::new(Formula::NegAtom {
            relation: match &p_one {
                Formula::Atom { relation, .. } => relation.clone(),
                _ => unreachable!(),
            },
            args: vec![Term::Var(0)],
        }),
    };
    assert!(model.evaluate(&phi));
}

#[test]
fn can_evaluate_rejects_open_formulas_and_unknown_sorts() {
    let model = make_model(unary_sig(), 2, vec![vec![0]]);
    assert!(!model.can_evaluate(&[p_atom(vec![Term::Var(0)])]));
    let other = Formula::Forall { sort: sort("T"), body: Box::new(Formula::Top) };
    assert!(!model.can_evaluate(&[other]));
    let ok = Formula::Forall { sort: sort("S"), body: Box::new(p_atom(vec![Term::Var(0)])) };
    assert!(model.can_evaluate(&[ok]));
    assert_eq!(model.carrier("S"), Some(2));
    assert_eq!(model.carrier("T"), None);
    assert!(model.relation_holds("P", &[0]));
    assert!(!model.relation_holds("P", &[1]));
}
