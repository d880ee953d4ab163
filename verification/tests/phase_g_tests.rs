use specmut::ir_types::{IREquation, IRExpr, IRParam};
use specmut::translator::{is_noise_sort_name, is_typeclass_method_name, is_typeclass_noise_desc, sanitize_equation, sanitize_expr};

fn unsupported(s: &str) -> IRExpr {
    IRExpr::Unsupported { description: s.to_string() }
}

#[test]
fn test_normalize_suppresses_inst_prefix() {
    assert!(is_noise_sort_name("instOrdNat"));
    assert!(is_noise_sort_name("instReprTree"));
    assert!(is_noise_sort_name("instDecidableEqColor"));
}

#[test]
fn test_normalize_suppresses_stdlib_namespace() {
    assert!(is_noise_sort_name("IO.RealWorld"));
    assert!(is_noise_sort_name("Std.Format"));
    assert!(is_noise_sort_name("System.FilePath"));
    assert!(is_noise_sort_name("EStateM.Result"));
}

#[test]
fn test_normalize_suppresses_universe_sorts() {
    assert!(is_noise_sort_name("Prop"));
    assert!(is_noise_sort_name("Type"));
    assert!(is_noise_sort_name("Sort"));
}

#[test]
fn test_normalize_suppresses_decidable_and_repr() {
    assert!(is_noise_sort_name("Decidable"));
    assert!(is_noise_sort_name("DecidableEq"));
    assert!(is_noise_sort_name("Repr"));
    assert!(is_noise_sort_name("Hashable"));
}

#[test]
fn test_normalize_keeps_real_sorts() {
    assert!(!is_noise_sort_name("Nat"));
    assert!(!is_noise_sort_name("Int"));
    assert!(!is_noise_sort_name("Tree"));
    assert!(!is_noise_sort_name("List_Nat"));
    assert!(!is_noise_sort_name("Color"));
    assert!(!is_noise_sort_name("Expr"));
}

#[test]
fn test_normalize_keeps_unprefixed_inst_name() {
    // "install" or "instance" lowercase first char after "inst" — not
    // an instance-naming convention.
    assert!(!is_noise_sort_name("install"));
    assert!(!is_noise_sort_name("instance"));
}

#[test]
fn test_sanitize_strips_inst_unsupported_node() {
    let expr = unsupported("instOrdNat dictionary argument");
    let sanitized = sanitize_expr(&expr);
    assert!(matches!(sanitized, IRExpr::True));
}

#[test]
fn test_sanitize_strips_decidable_unsupported_node() {
    let expr = unsupported("Decidable instance arg");
    let sanitized = sanitize_expr(&expr);
    assert!(matches!(sanitized, IRExpr::True));
}

#[test]
fn test_sanitize_preserves_real_unsupported() {
    // Unsupported but NOT type-class noise — leave alone.
    let expr = unsupported("lambda expression in body");
    let sanitized = sanitize_expr(&expr);
    assert!(matches!(sanitized, IRExpr::Unsupported { .. }));
}

#[test]
fn test_sanitize_collapses_typeclass_app() {
    // App("instOrdNat", [Var("a"), Var("b")]) → after sanitisation
    // becomes a 2-arg app of the real args, but `instOrdNat` is a method
    // name so the application is suppressed.  When there are 2+ real
    // args (the args themselves aren't noise), the app stays but
    // without dictionary args.
    let expr = IRExpr::App {
        fn_name: "instOrdNat".to_string(),
        args: vec![
            IRExpr::Var {
                name: "a".to_string(),
            },
            IRExpr::Var {
                name: "b".to_string(),
            },
        ],
    };
    let sanitized = sanitize_expr(&expr);
    // 2 real Var args → app stays as an instOrdNat call with 2 args.
    match sanitized {
        IRExpr::App { args, .. } => assert_eq!(args.len(), 2),
        other => panic!("expected app, got {other:?}"),
    }
}

#[test]
fn test_sanitize_drops_inst_dict_from_app_args() {
    // App("foo", [Unsupported("instOrdNat"), Var("xs")]) → drops the
    // dictionary argument, keeps Var("xs").
    let expr = IRExpr::App {
        fn_name: "foo".to_string(),
        args: vec![
            unsupported("instOrdNat dict"),
            IRExpr::Var {
                name: "xs".to_string(),
            },
        ],
    };
    let sanitized = sanitize_expr(&expr);
    match sanitized {
        IRExpr::App { fn_name, args } => {
            assert_eq!(fn_name, "foo");
            assert_eq!(args.len(), 1);
            assert!(matches!(args[0], IRExpr::Var { .. }));
        }
        other => panic!("expected app, got {other:?}"),
    }
}

#[test]
fn test_sanitize_equation_walks_lhs_and_rhs() {
    let eq = IREquation {
        vars: vec![IRParam {
            name: "x".into(),
            sort: "Nat".into(),
        }],
        lhs: IRExpr::App {
            fn_name: "Sorted".into(),
            args: vec![
                unsupported("instOrd dict"),
                IRExpr::Var { name: "x".into() },
            ],
        },
        rhs: IRExpr::True,
    };
    let sanitized = sanitize_equation(&eq);
    match sanitized.lhs {
        IRExpr::App { args, .. } => assert_eq!(args.len(), 1),
        _ => panic!("lhs should still be App after dropping dict arg"),
    }
}

#[test]
fn test_sanitize_recurses_through_quantifiers() {
    // ∀x. Unsupported(inst) → ∀x. True
    let expr = IRExpr::Forall {
        var: "x".into(),
        sort: "Nat".into(),
        body: Box::new(unsupported("instOrdNat")),
    };
    let sanitized = sanitize_expr(&expr);
    match sanitized {
        IRExpr::Forall { body, .. } => assert!(matches!(*body, IRExpr::True)),
        _ => panic!("forall structure should be preserved"),
    }
}

#[test]
fn test_typeclass_method_name_detection() {
    assert!(is_typeclass_method_name("instOrdNat"));
    assert!(is_typeclass_method_name("Decidable.decide"));
    assert!(is_typeclass_method_name("Repr.reprPrec"));
    assert!(is_typeclass_method_name("BEq.beq"));
    assert!(is_typeclass_method_name("Foo.mk"));
    assert!(!is_typeclass_method_name("Sorted"));
    assert!(!is_typeclass_method_name("Tree.contains"));
}

#[test]
fn test_typeclass_noise_desc_detection() {
    assert!(is_typeclass_noise_desc("inst dictionary"));
    assert!(is_typeclass_noise_desc("Decidable argument"));
    assert!(is_typeclass_noise_desc("Repr instance"));
    assert!(is_typeclass_noise_desc("Hashable dict"));
    assert!(!is_typeclass_noise_desc("lambda expression"));
    assert!(!is_typeclass_noise_desc("metavariable"));
}
