use specmut::formula::Formula;
use specmut::mutation::{enumerate_atomic_formulas, pow_usize, MAX_VARS};
use specmut::signature::{RelationSymbol, Signature, SortSymbol};

fn sort(name: &str) -> SortSymbol {
    SortSymbol::new(name)
}

#[test]
fn test_enumerate_atomic() {
    let s = sort("S");
    let sig = Signature::new(vec![s.clone()], vec![], vec![RelationSymbol::new("R", vec![s.clone(), s])]).expect("valid sig");
    let atoms = enumerate_atomic_formulas(&sig);
    let expected = pow_usize(MAX_VARS, 2) * 2;
    assert_eq!(atoms.len(), expected);
    for f in &atoms {
        assert!(matches!(f, Formula::Atom { .. } | Formula::NegAtom { .. }));
    }
}

#[test]
fn pow_usize_exact_values() {
    assert_eq!(pow_usize(3, 2), 9);
    assert_eq!(pow_usize(2, 10), 1024);
    assert_eq!(pow_usize(7, 0), 1);
}
