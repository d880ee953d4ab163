use specmut::formula::{Formula, Term};
use specmut::metric::JaccardMetric;
use specmut::signature::{RelationSymbol, Signature, SortSymbol};

fn unary_sig() -> Signature {
    let s = SortSymbol::new("S");
    Signature::new(vec![s.clone()], vec![], vec![RelationSymbol::new("R", vec![s])]).expect("valid sig")
}

fn forall_r() -> Formula {
    let s = SortSymbol::new("S");
    Formula::Forall { sort: s.clone(), body: Box::new(Formula::Atom { relation: RelationSymbol::new("R", vec![s]), args: vec![Term::Var(0)] }) }
}

fn exists_r() -> Formula {
    let s = SortSymbol::new("S");
    Formula::Exists { sort: s.clone(), body: Box::new(Formula::Atom { relation: RelationSymbol::new("R", vec![s]), args: vec![Term::Var(0)] }) }
}

#[test]
fn from_signature_unary_relation_domain_two_has_four_models() {
    let m = JaccardMetric::from_signature(&unary_sig(), 2);
    assert_eq!(m.models().len(), 4);
}

#[test]
fn counts_are_symmetric_and_bounded() {
    let m = JaccardMetric::from_signature(&unary_sig(), 2);
    let a = vec![forall_r()];
    let b = vec![exists_r()];
    let ab = m.counts(&a, &b);
    let ba = m.counts(&b, &a);
    assert_eq!(ab.intersection_size, ba.intersection_size);
    assert_eq!(ab.union_size, ba.union_size);
    assert_eq!(ab.symmetric_difference_size, ba.symmetric_difference_size);
    assert_eq!(ab.left_size, 1);
    assert_eq!(ab.right_size, 3);
    assert_eq!(ab.intersection_size, 1);
    assert_eq!(ab.union_size, 3);
    assert_eq!(ab.symmetric_difference_size, 2);
    assert!(ab.symmetric_difference_size <= ab.union_size);
}
