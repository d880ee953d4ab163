use specmut::signature::{FunctionSymbol, RelationSymbol, Signature, SignatureError, SortSymbol};

fn s(name: &str) -> SortSymbol {
    SortSymbol::new(name)
}

#[test]
fn valid_signature_constructs() {
    let elem = s("Elem");
    let seq = s("Seq");
    let sig = Signature::new(
        vec![elem.clone(), seq.clone()],
        vec![FunctionSymbol::new("output", vec![seq.clone()], seq.clone())],
        vec![RelationSymbol::new("leq", vec![elem.clone(), elem.clone()]), RelationSymbol::new("sorted", vec![seq.clone()])],
    )
    .expect("signature construction should succeed");
    assert_eq!(sig.sorts.len(), 2);
    assert_eq!(sig.functions.len(), 1);
    assert_eq!(sig.relations.len(), 2);
    assert!(sig.constants.is_empty());
}

#[test]
fn duplicate_sort_name_is_error() {
    let err = Signature::new(vec![s("A"), s("A")], vec![], vec![]).expect_err("duplicate sort name should error");
    assert_eq!(err, SignatureError::DuplicateName("A".into()));
}

#[test]
fn duplicate_across_kinds_is_error() {
    let err = Signature::new(vec![s("X")], vec![FunctionSymbol::new("X", vec![], s("X"))], vec![])
        .expect_err("name shared across sort + function should error");
    assert_eq!(err, SignatureError::DuplicateName("X".into()));
}

#[test]
fn dangling_sort_in_function_is_error() {
    let err = Signature::new(vec![s("A")], vec![FunctionSymbol::new("f", vec![s("A")], s("B"))], vec![])
        .expect_err("undeclared codomain sort should error");
    assert_eq!(err, SignatureError::UnknownSortInFunction { function: "f".into(), sort: "B".into() });
}

#[test]
fn dangling_sort_in_relation_is_error() {
    let err = Signature::new(vec![s("A")], vec![], vec![RelationSymbol::new("R", vec![s("Z")])])
        .expect_err("undeclared arity sort should error");
    assert_eq!(err, SignatureError::UnknownSortInRelation { relation: "R".into(), sort: "Z".into() });
}

#[test]
fn constants_extracted() {
    let a = s("A");
    let sig = Signature::new(
        vec![a.clone()],
        vec![FunctionSymbol::new("c", vec![], a.clone()), FunctionSymbol::new("f", vec![a.clone()], a.clone())],
        vec![],
    )
    .expect("ok");
    assert_eq!(sig.constants.len(), 1);
    assert!(sig.constants.iter().any(|f| f.name == "c"));
}

#[test]
fn signature_lists_come_out_sorted_by_name() {
    let sig = Signature::new(vec![s("B"), s("A")], vec![], vec![RelationSymbol::new("q", vec![s("A")]), RelationSymbol::new("p", vec![s("B")])])
        .expect("ok");
    let sorts: Vec<&str> = sig.sorts.iter().map(|x| x.name.as_str()).collect();
    let rels: Vec<&str> = sig.relations.iter().map(|x| x.name.as_str()).collect();
    assert_eq!(sorts, vec!["A", "B"]);
    assert_eq!(rels, vec!["p", "q"]);
}

#[test]
fn first_repeat_is_reported_across_kinds() {
    let err = Signature::new(vec![s("A")], vec![], vec![RelationSymbol::new("A", vec![s("A")]), RelationSymbol::new("A", vec![s("A")])])
        .expect_err("repeat");
    assert_eq!(err, SignatureError::DuplicateName("A".into()));
}
