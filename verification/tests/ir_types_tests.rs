use specmut::ir_types::{IRConstructor, IRFunction, IRSort, LeanIR};

#[test]
fn test_validate_dangling_sort() {
    let ir = LeanIR {
        version: Some(1),
        source_file: None,
        sorts: vec![IRSort { name: "A".into(), kind: "inductive".into(), num_params: Some(0), num_ctors: Some(1) }],
        constructors: vec![IRConstructor { name: "A.mk".into(), sort: "B".into(), fields: vec![] }],
        functions: vec![],
        predicates: vec![],
        theorems: vec![],
        warnings: vec![],
    };
    let w = ir.validate();
    assert!(w.iter().any(|s| s.contains("unknown sort 'B'")), "expected dangling-sort warning, got: {w:?}");
}

#[test]
fn test_validate_duplicate_name() {
    let ir = LeanIR {
        version: Some(1),
        source_file: None,
        sorts: vec![IRSort { name: "X".into(), kind: "inductive".into(), num_params: Some(0), num_ctors: Some(0) }],
        constructors: vec![],
        functions: vec![IRFunction { name: "X".into(), domain: vec![], codomain: "Nat".into(), equations: vec![] }],
        predicates: vec![],
        theorems: vec![],
        warnings: vec![],
    };
    let w = ir.validate();
    assert!(w.iter().any(|s| s.contains("duplicate top-level name")), "expected duplicate-name warning, got: {w:?}");
}

#[test]
fn validate_exact_messages() {
    let ir = LeanIR {
        version: Some(1),
        source_file: None,
        sorts: vec![IRSort { name: "A".into(), kind: "inductive".into(), num_params: Some(0), num_ctors: Some(1) }],
        constructors: vec![IRConstructor { name: "A.mk".into(), sort: "B".into(), fields: vec![] }],
        functions: vec![],
        predicates: vec![],
        theorems: vec![],
        warnings: vec![],
    };
    assert_eq!(ir.validate(), vec!["constructor 'A.mk' references unknown sort 'B'".to_string()]);
}
