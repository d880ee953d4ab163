use specmut::formula::{Formula, Term};
use specmut::ir_types::{IREquation, IRExpr, IRParam, IRPredicate, IRSort, IRTheorem, LeanIR};
use specmut::signature::{FunctionSymbol, RelationSymbol, Signature, SortSymbol};
use specmut::translator::{deduplicate_axioms, filter_signature, LeanTranslator, TranslationError};

fn is_nnf(f: &Formula) -> bool {
    match f {
        Formula::Not(_) => false,
        Formula::And(l, r) | Formula::Or(l, r) => is_nnf(l) && is_nnf(r),
        Formula::Forall { body, .. } | Formula::Exists { body, .. } => is_nnf(body),
        _ => true,
    }
}

fn succ_chain_depth(t: &Term) -> usize {
    let mut depth = 0;
    let mut cur = t;
    loop {
        match cur {
            Term::App { function, args } if function.name == "succ" && args.len() == 1 => {
                depth += 1;
                cur = &args[0];
            }
            Term::App { function, args } if function.name == "zero" && args.is_empty() => {
                return depth;
            }
            _ => panic!("not a succ-chain: {cur:?}"),
        }
    }
}

fn make_thm_ir(name: &str, conclusion: IRExpr) -> LeanIR {
    LeanIR {
        version: Some(1),
        source_file: None,
        sorts: vec![],
        constructors: vec![],
        functions: vec![],
        predicates: vec![],
        theorems: vec![IRTheorem { name: name.into(), hypotheses: vec![], conclusion }],
        warnings: vec![],
    }
}

#[test]
fn test_forall_debruijn_single() {
    // ∀ x:Nat, x = x
    let body = IRExpr::Eq {
        left: Box::new(IRExpr::Var { name: "x".into() }),
        right: Box::new(IRExpr::Var { name: "x".into() }),
    };
    let ir = make_thm_ir(
        "refl_x",
        IRExpr::Forall {
            var: "x".into(),
            sort: "Nat".into(),
            body: Box::new(body),
        },
    );
    let r = LeanTranslator::translate(&ir).expect("ok");
    assert_eq!(r.axioms.len(), 1);
    let nat = SortSymbol::new("Nat");
    let expected = Formula::Forall {
        sort: nat,
        body: Box::new(Formula::Eq(Term::Var(0), Term::Var(0))),
    };
    assert_eq!(r.axioms[0], expected);
}

#[test]
fn test_nested_forall_debruijn() {
    // ∀ x:Nat, ∀ y:Nat, R x y — but R isn't a known predicate, so we use an
    // equality to keep this within scope of declared symbols.
    // ∀ x:Nat, ∀ y:Nat, x = y
    let inner = IRExpr::Eq {
        left: Box::new(IRExpr::Var { name: "x".into() }),
        right: Box::new(IRExpr::Var { name: "y".into() }),
    };
    let body = IRExpr::Forall {
        var: "y".into(),
        sort: "Nat".into(),
        body: Box::new(inner),
    };
    let outer = IRExpr::Forall {
        var: "x".into(),
        sort: "Nat".into(),
        body: Box::new(body),
    };
    let ir = make_thm_ir("eq_xy", outer);
    let r = LeanTranslator::translate(&ir).expect("ok");
    assert_eq!(r.axioms.len(), 1);
    // Outer binds x → de Bruijn 1 inside the inner ∀; y → de Bruijn 0.
    let nat = SortSymbol::new("Nat");
    let expected = Formula::Forall {
        sort: nat.clone(),
        body: Box::new(Formula::Forall {
            sort: nat,
            body: Box::new(Formula::Eq(Term::Var(1), Term::Var(0))),
        }),
    };
    assert_eq!(r.axioms[0], expected);
}

#[test]
fn test_implies_desugar() {
    // True → False  becomes (¬⊤ ∨ ⊥) which to_nnf collapses to (⊥ ∨ ⊥).
    let ir = make_thm_ir(
        "t",
        IRExpr::Implies {
            left: Box::new(IRExpr::True),
            right: Box::new(IRExpr::False),
        },
    );
    let r = LeanTranslator::translate(&ir).expect("ok");
    assert_eq!(r.axioms.len(), 1);
    let ax = &r.axioms[0];
    assert!(is_nnf(ax), "implies output not NNF: {ax:?}");
    // It should be Or with ⊥ in both positions after NNF.
    let expected = Formula::Or(Box::new(Formula::Bot), Box::new(Formula::Bot));
    assert_eq!(ax, &expected);
}

#[test]
fn test_iff_desugar() {
    // True ↔ True  →  (⊤ → ⊤) ∧ (⊤ → ⊤)  →  (⊥ ∨ ⊤) ∧ (⊥ ∨ ⊤)  (in NNF)
    let ir = make_thm_ir(
        "t",
        IRExpr::Iff {
            left: Box::new(IRExpr::True),
            right: Box::new(IRExpr::True),
        },
    );
    let r = LeanTranslator::translate(&ir).expect("ok");
    let ax = &r.axioms[0];
    assert!(is_nnf(ax));
    assert!(matches!(ax, Formula::And(_, _)));
}

#[test]
fn test_leq_auto_declares_relation() {
    let ir = make_thm_ir(
        "le_self",
        IRExpr::Forall {
            var: "n".into(),
            sort: "Nat".into(),
            body: Box::new(IRExpr::Leq {
                left: Box::new(IRExpr::Var { name: "n".into() }),
                right: Box::new(IRExpr::Var { name: "n".into() }),
            }),
        },
    );
    let r = LeanTranslator::translate(&ir).expect("ok");
    assert!(
        r.signature.relations.iter().any(|rel| rel.name == "leq"),
        "leq should be auto-declared, got {:?}",
        r.signature.relations
    );
}

#[test]
fn test_lt_auto_declares_relation() {
    let ir = make_thm_ir(
        "lt",
        IRExpr::Forall {
            var: "n".into(),
            sort: "Nat".into(),
            body: Box::new(IRExpr::Lt {
                left: Box::new(IRExpr::Var { name: "n".into() }),
                right: Box::new(IRExpr::Var { name: "n".into() }),
            }),
        },
    );
    let r = LeanTranslator::translate(&ir).expect("ok");
    assert!(r.signature.relations.iter().any(|rel| rel.name == "lt"));
}

#[test]
fn test_nat_lit_translation() {
    // ∀ n:Nat, n = 3  → succ-chain expansion of 3
    let ir = make_thm_ir(
        "eq_three",
        IRExpr::Forall {
            var: "n".into(),
            sort: "Nat".into(),
            body: Box::new(IRExpr::Eq {
                left: Box::new(IRExpr::Var { name: "n".into() }),
                right: Box::new(IRExpr::NatLit { value: 3 }),
            }),
        },
    );
    let r = LeanTranslator::translate(&ir).expect("ok");
    assert!(r.signature.functions.iter().any(|f| f.name == "zero"));
    assert!(r.signature.functions.iter().any(|f| f.name == "succ"));
    // Drill into the ax and confirm depth-3 succ chain on the RHS.
    if let Formula::Forall { body, .. } = &r.axioms[0] {
        if let Formula::Eq(_, rhs) = body.as_ref() {
            assert_eq!(succ_chain_depth(rhs), 3);
            return;
        }
    }
    panic!("axiom shape unexpected: {:?}", r.axioms[0]);
}

#[test]
fn test_app_arithmetic_auto_declares() {
    // ∀ n:Nat, n + n = n  → auto-declare `add`
    let ir = make_thm_ir(
        "add",
        IRExpr::Forall {
            var: "n".into(),
            sort: "Nat".into(),
            body: Box::new(IRExpr::Eq {
                left: Box::new(IRExpr::App {
                    fn_name: "add".into(),
                    args: vec![
                        IRExpr::Var { name: "n".into() },
                        IRExpr::Var { name: "n".into() },
                    ],
                }),
                right: Box::new(IRExpr::Var { name: "n".into() }),
            }),
        },
    );
    let r = LeanTranslator::translate(&ir).expect("ok");
    let add = r
        .signature
        .functions
        .iter()
        .find(|f| f.name == "add")
        .expect("add auto-declared");
    assert_eq!(add.domain.len(), 2);
    assert_eq!(add.domain[0].name, "Nat");
    assert_eq!(add.domain[1].name, "Nat");
}

#[test]
fn test_unsupported_in_one_theorem_skips_gracefully() {
    // Build an IR with one good theorem and one Unsupported one.
    let mut ir = make_thm_ir("good", IRExpr::True);
    ir.theorems.push(IRTheorem {
        name: "bad".into(),
        hypotheses: vec![],
        conclusion: IRExpr::Unsupported {
            description: "test".into(),
        },
    });
    let r = LeanTranslator::translate(&ir).expect("partial ok");
    assert_eq!(r.translated_theorems, vec!["good".to_string()]);
    assert_eq!(r.skipped_theorems.len(), 1);
    assert_eq!(r.skipped_theorems[0].0, "bad");
}

#[test]
fn test_all_unsupported_is_nothing_translatable() {
    let ir = LeanIR {
        version: Some(1),
        source_file: None,
        sorts: vec![],
        constructors: vec![],
        functions: vec![],
        predicates: vec![],
        theorems: vec![IRTheorem {
            name: "bad".into(),
            hypotheses: vec![],
            conclusion: IRExpr::Unsupported {
                description: "no".into(),
            },
        }],
        warnings: vec![],
    };
    let err = LeanTranslator::translate(&ir).expect_err("should fail");
    assert!(matches!(err, TranslationError::NothingTranslatable { .. }));
}

#[test]
fn test_recursive_predicate_body_is_unsupported_but_equations_save_it() {
    // Build a predicate with both unsupported body AND equations.  The
    // equations should drive translation; body fallback shouldn't fire.
    let nat_sort = "Nat";
    let pred = IRPredicate {
        name: "P".into(),
        params: vec![IRParam {
            name: "n".into(),
            sort: nat_sort.into(),
        }],
        body: IRExpr::Unsupported {
            description: "recursive".into(),
        },
        equations: vec![IREquation {
            vars: vec![],
            lhs: IRExpr::App {
                fn_name: "P".into(),
                args: vec![IRExpr::NatLit { value: 0 }],
            },
            rhs: IRExpr::True,
        }],
    };
    let ir = LeanIR {
        version: Some(1),
        source_file: None,
        sorts: vec![],
        constructors: vec![],
        functions: vec![],
        predicates: vec![pred],
        theorems: vec![],
        warnings: vec![],
    };
    let r = LeanTranslator::translate(&ir).expect("ok");
    assert_eq!(r.translated_predicates, vec!["P".to_string()]);
    assert_eq!(r.axioms.len(), 1, "equation → one axiom");
}

#[test]
fn test_empty_ir_is_nothing_translatable() {
    let ir = LeanIR {
        version: Some(1),
        source_file: None,
        sorts: vec![],
        constructors: vec![],
        functions: vec![],
        predicates: vec![],
        theorems: vec![],
        warnings: vec![],
    };
    let err = LeanTranslator::translate(&ir).expect_err("empty IR has no axioms");
    assert!(matches!(err, TranslationError::NothingTranslatable { .. }));
}

#[test]
fn test_sort_name_collision_renames_relation() {
    // Inductive named `leq` — collides with the auto-declared `leq` relation
    // when a theorem uses `≤`.  The translator should rename the relation
    // rather than crash with a duplicate-name signature error.
    let ir = LeanIR {
        version: Some(1),
        source_file: None,
        sorts: vec![IRSort {
            name: "leq".into(),
            kind: "inductive".into(),
            num_params: Some(0),
            num_ctors: Some(0),
        }],
        constructors: vec![],
        functions: vec![],
        predicates: vec![],
        theorems: vec![IRTheorem {
            name: "t".into(),
            hypotheses: vec![],
            conclusion: IRExpr::Forall {
                var: "n".into(),
                sort: "Nat".into(),
                body: Box::new(IRExpr::Leq {
                    left: Box::new(IRExpr::Var { name: "n".into() }),
                    right: Box::new(IRExpr::Var { name: "n".into() }),
                }),
            },
        }],
        warnings: vec![],
    };
    let r = LeanTranslator::translate(&ir).expect("ok despite collision");
    // The auto-declared relation must have been renamed.
    assert!(
        r.signature.relations.iter().any(|rel| rel.name.contains("auto") && rel.name.contains("leq")),
        "expected renamed leq relation, got {:?}",
        r.signature.relations
    );
}

#[test]
fn test_large_axiom_count_warning() {
    // Predicate with 25 equations → translator emits a "large axiom set" warning.
    let nat = "Nat";
    let equations: Vec<IREquation> = (0..25)
        .map(|_| IREquation {
            vars: vec![],
            lhs: IRExpr::App {
                fn_name: "P".into(),
                args: vec![IRExpr::NatLit { value: 0 }],
            },
            rhs: IRExpr::True,
        })
        .collect();
    let ir = LeanIR {
        version: Some(1),
        source_file: None,
        sorts: vec![],
        constructors: vec![],
        functions: vec![],
        predicates: vec![IRPredicate {
            name: "P".into(),
            params: vec![IRParam {
                name: "n".into(),
                sort: nat.into(),
            }],
            body: IRExpr::True,
            equations,
        }],
        theorems: vec![],
        warnings: vec![],
    };
    let r = LeanTranslator::translate(&ir).expect("ok");
    // After dedup the 25 identical equations collapse to one, so this
    // configuration *should not* trigger the large-ax warning.
    assert_eq!(r.axioms.len(), 1, "dedup should collapse identical axioms");
    assert!(
        !r.warnings.iter().any(|w| w.contains("large axiom set")),
        "dedup-collapsed set shouldn't warn: {:?}",
        r.warnings
    );
}

#[test]
fn test_dedup_then_large_warning_with_distinct_axioms() {
    // 25 *distinct* axioms — dedup keeps them all, warning fires.
    let nat = "Nat";
    let equations: Vec<IREquation> = (0..25)
        .map(|i| IREquation {
            vars: vec![],
            lhs: IRExpr::App {
                fn_name: "P".into(),
                args: vec![IRExpr::NatLit { value: i as u64 }],
            },
            rhs: IRExpr::True,
        })
        .collect();
    let ir = LeanIR {
        version: Some(1),
        source_file: None,
        sorts: vec![],
        constructors: vec![],
        functions: vec![],
        predicates: vec![IRPredicate {
            name: "P".into(),
            params: vec![IRParam {
                name: "n".into(),
                sort: nat.into(),
            }],
            body: IRExpr::True,
            equations,
        }],
        theorems: vec![],
        warnings: vec![],
    };
    let r = LeanTranslator::translate(&ir).expect("ok");
    assert_eq!(r.axioms.len(), 25);
    assert!(
        r.warnings.iter().any(|w| w.contains("large axiom set")),
        "expected large-axiom warning: {:?}",
        r.warnings
    );
}

#[test]
fn test_nat_lit_overflow_does_not_panic() {
    // NatLit(5) on a model bound that only has elements {0,1}.
    let ir = LeanIR {
        version: Some(1),
        source_file: None,
        sorts: vec![],
        constructors: vec![],
        functions: vec![],
        predicates: vec![],
        theorems: vec![IRTheorem {
            name: "t".into(),
            hypotheses: vec![],
            conclusion: IRExpr::Forall {
                var: "n".into(),
                sort: "Nat".into(),
                body: Box::new(IRExpr::Eq {
                    left: Box::new(IRExpr::Var { name: "n".into() }),
                    right: Box::new(IRExpr::NatLit { value: 5 }),
                }),
            },
        }],
        warnings: vec![],
    };
    let r = LeanTranslator::translate(&ir).expect("ok");
    // Translation itself should succeed; the succ-chain has depth 5 but the
    // formula is structurally valid.
    assert_eq!(r.axioms.len(), 1);
    assert!(r.axioms[0].is_sentence());
}

#[test]
fn test_filter_removes_unreferenced_sorts() {
    let nat = SortSymbol::new("Nat");
    let tree = SortSymbol::new("Tree");
    let std_format = SortSymbol::new("Std_Format");
    let bool_s = SortSymbol::new("Bool");
    let sig = Signature::new(
        vec![nat.clone(), tree.clone(), std_format.clone(), bool_s.clone()],
        vec![],
        vec![RelationSymbol::new("Sorted", vec![tree.clone()])],
    )
    .expect("sig");
    // Axiom references Tree only.
    let ax = Formula::Forall {
        sort: tree.clone(),
        body: Box::new(Formula::Atom {
            relation: RelationSymbol::new("Sorted", vec![tree.clone()]),
            args: vec![Term::Var(0)],
        }),
    };
    let filtered = filter_signature(&sig, &[ax]).expect("filter");
    assert!(filtered.sorts.iter().any(|s| s.name == "Tree"));
    assert!(!filtered.sorts.iter().any(|s| s.name == "Std_Format"));
    assert!(!filtered.sorts.iter().any(|s| s.name == "Bool"));
    assert!(!filtered.sorts.iter().any(|s| s.name == "Nat"));
}

#[test]
fn test_filter_transitive_closure_through_function() {
    // Tree is referenced; Tree.node : Tree×Nat×Tree → Tree pulls Nat in too.
    let nat = SortSymbol::new("Nat");
    let tree = SortSymbol::new("Tree");
    let prop = SortSymbol::new("Prop");
    let node = FunctionSymbol::new(
        "node",
        vec![tree.clone(), nat.clone(), tree.clone()],
        tree.clone(),
    );
    let sig = Signature::new(
        vec![nat.clone(), tree.clone(), prop.clone()],
        vec![node],
        vec![RelationSymbol::new("Sorted", vec![tree.clone()])],
    )
    .expect("sig");
    let ax = Formula::Forall {
        sort: tree.clone(),
        body: Box::new(Formula::Atom {
            relation: RelationSymbol::new("Sorted", vec![tree.clone()]),
            args: vec![Term::Var(0)],
        }),
    };
    let filtered = filter_signature(&sig, &[ax]).expect("filter");
    let names: Vec<&str> = filtered.sorts.iter().map(|s| s.name.as_str()).collect();
    assert!(names.contains(&"Tree"), "Tree missing: {names:?}");
    assert!(names.contains(&"Nat"), "Nat should be reachable via node: {names:?}");
    assert!(!names.contains(&"Prop"), "Prop should be filtered: {names:?}");
}

#[test]
fn test_filter_keeps_all_when_all_referenced() {
    let nat = SortSymbol::new("Nat");
    let sig = Signature::new(
        vec![nat.clone()],
        vec![],
        vec![RelationSymbol::new("P", vec![nat.clone()])],
    )
    .expect("sig");
    let ax = Formula::Forall {
        sort: nat.clone(),
        body: Box::new(Formula::Atom {
            relation: RelationSymbol::new("P", vec![nat.clone()]),
            args: vec![Term::Var(0)],
        }),
    };
    let filtered = filter_signature(&sig, &[ax]).expect("filter");
    assert_eq!(filtered.sorts.len(), 1);
}

#[test]
fn test_deduplicate_removes_identical() {
    let a = Formula::Top;
    let dup = vec![a.clone(), a.clone(), Formula::Bot];
    let result = deduplicate_axioms(dup);
    assert_eq!(result.len(), 2);
    assert!(result.contains(&Formula::Top));
    assert!(result.contains(&Formula::Bot));
}

#[test]
fn test_deduplicate_preserves_distinct() {
    let nat = SortSymbol::new("Nat");
    let f1 = Formula::Forall {
        sort: nat.clone(),
        body: Box::new(Formula::Top),
    };
    let f2 = Formula::Exists {
        sort: nat,
        body: Box::new(Formula::Top),
    };
    let result = deduplicate_axioms(vec![f1.clone(), f2.clone()]);
    assert_eq!(result.len(), 2);
}

#[test]
fn translate_reports_signature_clash() {
    // A predicate named like a sort cannot share the signature with it.
    let ir = LeanIR {
        version: Some(1),
        source_file: None,
        sorts: vec![],
        constructors: vec![],
        functions: vec![],
        predicates: vec![IRPredicate {
            name: "Nat".into(),
            params: vec![IRParam { name: "n".into(), sort: "Nat".into() }],
            body: IRExpr::True,
            equations: vec![],
        }],
        theorems: vec![],
        warnings: vec![],
    };
    match LeanTranslator::translate(&ir) {
        Err(TranslationError::SignatureError(_)) => {}
        other => panic!("expected a signature error, got {other:?}"),
    }
}

#[test]
fn translate_prop_error_names_unsupported_node() {
    let conclusion = IRExpr::Forall {
        var: "x".into(),
        sort: "Nat".into(),
        body: Box::new(IRExpr::Unsupported { description: "u".into() }),
    };
    let ir = LeanIR {
        version: Some(1),
        source_file: None,
        sorts: vec![],
        constructors: vec![],
        functions: vec![],
        predicates: vec![],
        theorems: vec![
            IRTheorem { name: "bad".into(), hypotheses: vec![], conclusion },
            IRTheorem { name: "ok".into(), hypotheses: vec![], conclusion: IRExpr::True },
        ],
        warnings: vec![],
    };
    let r = LeanTranslator::translate(&ir).expect("ok");
    let (name, reason) = &r.skipped_theorems[0];
    assert_eq!(name, "bad");
    assert!(reason.contains("unsupported node: u"), "reason was {reason}");
}

#[test]
fn translate_nat_literal_in_proposition_position() {
    let ir = make_thm_ir("lit", IRExpr::NatLit { value: 7 });
    match LeanTranslator::translate(&ir) {
        Err(TranslationError::NothingTranslatable { .. }) => {}
        other => panic!("expected nothing translatable, got {other:?}"),
    }
    let ir2 = LeanIR {
        theorems: vec![
            IRTheorem { name: "lit".into(), hypotheses: vec![], conclusion: IRExpr::NatLit { value: 7 } },
            IRTheorem { name: "t".into(), hypotheses: vec![], conclusion: IRExpr::True },
        ],
        ..make_thm_ir("x", IRExpr::True)
    };
    let r = LeanTranslator::translate(&ir2).expect("ok");
    assert!(r.skipped_theorems[0].1.contains("got nat literal 7"), "reason was {}", r.skipped_theorems[0].1);
}

#[test]
fn filter_signature_succeeds_on_well_formed_signature() {
    let nat = SortSymbol::new("Nat");
    let tree = SortSymbol::new("Tree");
    let prop = SortSymbol::new("Prop");
    let sig = Signature::new(
        vec![nat.clone(), tree.clone(), prop.clone()],
        vec![FunctionSymbol::new("node", vec![tree.clone(), nat.clone(), tree.clone()], tree.clone())],
        vec![RelationSymbol::new("Sorted", vec![tree.clone()])],
    )
    .expect("valid");
    let ax = Formula::Forall {
        sort: tree.clone(),
        body: Box::new(Formula::Atom { relation: RelationSymbol::new("Sorted", vec![tree.clone()]), args: vec![Term::Var(0)] }),
    };
    let s = filter_signature(&sig, &[ax]).expect("well-formed signatures filter without error");
    let names: Vec<String> = s.sorts.iter().map(|x| x.name.clone()).collect();
    assert_eq!(names, vec!["Nat".to_string(), "Tree".to_string()]);
    assert_eq!(s.functions.len(), 1);
    assert_eq!(s.relations.len(), 1);
    assert!(s.constants.is_empty());
}

#[test]
fn input_warnings_lead_the_output_warnings() {
    let mut ir = make_thm_ir("t", IRExpr::True);
    ir.warnings = vec!["first".to_string(), "second".to_string()];
    let r = LeanTranslator::translate(&ir).expect("ok");
    assert!(r.warnings.len() >= 2);
    assert_eq!(r.warnings[0], "first");
    assert_eq!(r.warnings[1], "second");
    for a in &r.axioms {
        assert!(is_nnf(a));
    }
}
