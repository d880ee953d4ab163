use num_bigint::BigUint;
use specmut::bignum::space_exceeds;
use specmut::model::ModelEnumerator;
use specmut::signature::{FunctionSymbol, RelationSymbol, Signature, SortSymbol};

fn s(name: &str) -> SortSymbol {
    SortSymbol::new(name)
}

fn unary_sig() -> Signature {
    Signature::new(vec![s("S")], vec![], vec![RelationSymbol::new("P", vec![s("S")])]).expect("ok")
}

fn binary_sig() -> Signature {
    Signature::new(vec![s("S")], vec![], vec![RelationSymbol::new("R", vec![s("S"), s("S")])]).expect("ok")
}

#[test]
fn model_space_size_two_binary_relations_domain_three() {
    let a = s("A");
    let sig = Signature::new(
        vec![a.clone()],
        vec![],
        vec![RelationSymbol::new("R", vec![a.clone(), a.clone()]), RelationSymbol::new("S", vec![a.clone(), a.clone()])],
    )
    .expect("ok");
    let expected = BigUint::from(2u32).pow(18);
    assert_eq!(sig.model_space_size(3), expected);
}

#[test]
fn model_space_size_no_relations_is_one() {
    let sig = Signature::new(vec![s("A")], vec![], vec![]).expect("ok");
    assert_eq!(sig.model_space_size(5), BigUint::from(1u32));
}

#[test]
fn enumerator_count_unary_relation_domain_two_is_four() {
    let enumerator = ModelEnumerator::new(unary_sig(), 2);
    assert_eq!(enumerator.count(), BigUint::from(4u32));
    let models = enumerator.enumerate();
    assert_eq!(models.len(), 4);
}

#[test]
fn enumerator_count_binary_relation_domain_two_is_sixteen() {
    let enumerator = ModelEnumerator::new(binary_sig(), 2);
    assert_eq!(enumerator.count(), BigUint::from(16u32));
    let models = enumerator.enumerate();
    assert_eq!(models.len(), 16);
}

#[test]
fn count_multiplies_in_function_tables() {
    let a = s("A");
    let f = FunctionSymbol::new("f", vec![a.clone()], a.clone());
    let sig = Signature::new(vec![a.clone()], vec![f], vec![RelationSymbol::new("P", vec![a.clone()])]).expect("ok");
    let enumerator = ModelEnumerator::new(sig, 3);
    // 2^3 relation interpretations times 3^3 tables for f.
    assert_eq!(enumerator.count(), BigUint::from(216u32));
    assert_eq!(enumerator.enumerate().len(), 216);
}

#[test]
fn space_limit_comparison() {
    let big = binary_sig().model_space_size(5);
    assert_eq!(big, BigUint::from(2u32).pow(25));
    assert!(space_exceeds(&big, 1 << 22));
    assert!(!space_exceeds(&BigUint::from(1u32 << 22), 1 << 22));
    assert!(space_exceeds(&BigUint::from((1u32 << 22) + 1), 1 << 22));
}
