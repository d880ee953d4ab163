use specmut::formula::{Formula, Term};
use specmut::lattice::{EntailmentChecker, ModelEntailmentChecker, SpecElement};
use specmut::model::ModelEnumerator;
use specmut::signature::{RelationSymbol, Signature, SortSymbol};

fn sort(name: &str) -> SortSymbol {
    SortSymbol::new(name)
}

fn unary_sig() -> Signature {
    let s = sort("S");
    Signature::new(vec![s.clone()], vec![], vec![RelationSymbol::new("R", vec![s])]).expect("valid sig")
}

fn r_atom(args: Vec<Term>) -> Formula {
    Formula::Atom { relation: RelationSymbol::new("R", vec![sort("S"); args.len()]), args }
}

fn forall_r() -> Formula {
    Formula::Forall { sort: sort("S"), body: Box::new(r_atom(vec![Term::Var(0)])) }
}

fn pred(name: &str, var: usize) -> Formula {
    Formula::Atom { relation: RelationSymbol::new(name, vec![sort("S")]), args: vec![Term::Var(var)] }
}

#[test]
fn canonical_key_is_deterministic_across_constructions() {
    let a1 = vec![pred("P", 0), pred("Q", 0)];
    let a2 = vec![pred("Q", 0), pred("P", 0)];
    let e1 = SpecElement::new(a1);
    let e2 = SpecElement::new(a2);
    assert_eq!(e1.canonical_key(), e2.canonical_key());
    assert!(e1.same_key(&e2));
    assert_eq!(e1.axioms, e2.axioms);
}

#[test]
fn canonical_key_equates_swapped_conjuncts() {
    let p = pred("P", 0);
    let q = pred("Q", 0);
    let and1 = Formula::And(Box::new(p.clone()), Box::new(q.clone()));
    let and2 = Formula::And(Box::new(q), Box::new(p));
    let k1 = SpecElement::canonical_serialize(&and1);
    let k2 = SpecElement::canonical_serialize(&and2);
    assert_eq!(k1, k2);
}

#[test]
fn canonical_serialize_top_and_bot_have_expected_tags() {
    assert_eq!(SpecElement::canonical_serialize(&Formula::Top), vec![0x00]);
    assert_eq!(SpecElement::canonical_serialize(&Formula::Bot), vec![0x01]);
}

#[test]
fn model_entailment_checker_basic_cases() {
    let models: Vec<_> = ModelEnumerator::new(unary_sig(), 2).enumerate();
    let checker = ModelEntailmentChecker::new(models);
    let q = forall_r();
    assert!(checker.entails(std::slice::from_ref(&q), std::slice::from_ref(&q)));
    assert!(checker.entails(&[], &[]));
    assert!(checker.entails(std::slice::from_ref(&q), &[]));
    assert!(!checker.entails(&[], std::slice::from_ref(&q)));
}

#[test]
fn model_entailment_independent_axioms_do_not_entail_each_other() {
    let s = sort("S");
    let sig = Signature::new(vec![s.clone()], vec![], vec![RelationSymbol::new("P", vec![s.clone()]), RelationSymbol::new("Q", vec![s])])
        .expect("valid");
    let models: Vec<_> = ModelEnumerator::new(sig, 2).enumerate();
    let checker = ModelEntailmentChecker::new(models);
    let phi_p = Formula::Forall { sort: sort("S"), body: Box::new(pred("P", 0)) };
    let phi_q = Formula::Forall { sort: sort("S"), body: Box::new(pred("Q", 0)) };
    assert!(checker.entails(&[phi_p.clone(), phi_q.clone()], std::slice::from_ref(&phi_p)));
    assert!(!checker.entails(std::slice::from_ref(&phi_p), std::slice::from_ref(&phi_q)));
}

#[test]
fn repeated_axioms_give_the_same_element() {
    let e1 = SpecElement::new(vec![pred("P", 0), pred("P", 0), pred("Q", 0)]);
    let e2 = SpecElement::new(vec![pred("Q", 0), pred("P", 0)]);
    assert!(e1.same_key(&e2));
    assert_eq!(e1.axioms.len(), 2);
}

#[test]
fn entailment_is_reflexive_and_transitive_on_examples() {
    let models: Vec<_> = ModelEnumerator::new(unary_sig(), 2).enumerate();
    let checker = ModelEntailmentChecker::new(models);
    let a = forall_r();
    let b = Formula::Exists { sort: sort("S"), body: Box::new(r_atom(vec![Term::Var(0)])) };
    let top = Formula::Top;
    assert!(checker.entails(std::slice::from_ref(&b), std::slice::from_ref(&b)));
    assert!(checker.entails(std::slice::from_ref(&a), std::slice::from_ref(&b)));
    assert!(checker.entails(std::slice::from_ref(&b), std::slice::from_ref(&top)));
    assert!(checker.entails(std::slice::from_ref(&a), std::slice::from_ref(&top)));
}
