use std::time::Duration;
use specmut::analysis::{outcome_of, strength_label, ContributionStrength, MutantOutcome};
use specmut::config::OutputConfig;
use specmut::formula::{Formula, Term};
use specmut::ir_types::{IRExpr, IRPredicate, IRParam, IRTheorem, LeanIR};
use specmut::lean_pipeline::{
    auto_select_implementations, compute_baseline_tightness, format_translation_summary, supporting_axioms,
    TranslationSummary,
};
use specmut::model::{FiniteModel, RelationInterp};
use specmut::output::{translation_summary_to_report, TimingBreakdown};
use specmut::pipeline::{is_dafny_path, is_lean_path};
use specmut::signature::{RelationSymbol, Signature, SortSymbol};
use specmut::slicer::slice_by_theorem;
use specmut::translator::{LeanTranslator, SortFilterReport};

#[test]
fn lean_and_dafny_paths() {
    assert!(is_lean_path("dir/File.lean"));
    assert!(is_lean_path("x.Lean"));
    assert!(!is_lean_path("x.fol"));
    assert!(!is_lean_path(".lean"));
    assert!(is_dafny_path("a/b.dfy"));
    assert!(is_dafny_path("b.Dfy"));
    assert!(!is_dafny_path("b.lean"));
}

#[test]
fn strength_labels_and_outcomes() {
    assert_eq!(strength_label(ContributionStrength::High), "HIGH");
    assert_eq!(strength_label(ContributionStrength::Medium), "MEDIUM");
    assert_eq!(strength_label(ContributionStrength::Low), "LOW");
    assert_eq!(strength_label(ContributionStrength::NoKills), "NONE");
    assert_eq!(outcome_of(true), MutantOutcome::Killed);
    assert_eq!(outcome_of(false), MutantOutcome::Alive);
}

#[test]
fn output_config_default_is_text() {
    let c = OutputConfig::default();
    assert_eq!(c.report_format, "text");
    assert!(c.output_dir.is_none());
}

#[test]
fn timing_with_total_keeps_phases() {
    let t = TimingBreakdown { parse_ms: 1, enumeration_ms: 2, mutation_ms: 3, tightness_ms: 4, total_ms: 0 };
    let u = t.with_total(Duration::from_millis(1234));
    assert_eq!((u.parse_ms, u.enumeration_ms, u.mutation_ms, u.tightness_ms, u.total_ms), (1, 2, 3, 4, 1234));
}

fn summary() -> TranslationSummary {
    TranslationSummary {
        translated_theorems: vec!["a".into(), "b".into()],
        translated_predicates: vec![],
        skipped_theorems: vec![("c".into(), "why".into())],
        skipped_predicates: vec![],
        warnings: vec!["w".into()],
        sort_filter: SortFilterReport { original_sorts: 3, filtered_sorts: 1, removed: vec![] },
        auto_implementations: 2,
    }
}

#[test]
fn translation_summary_text() {
    let text = format_translation_summary(&summary());
    assert_eq!(
        text,
        "Lean analysis: 2 theorems, 0 predicates translated\n  Translated theorems: a, b\n  Skipped theorem c: why\n  Sort filter: 3 → 1 sorts (removed: —)\n  Auto-selected 2 implementation model(s) from satisfying set\n  (1 warnings)\n"
    );
}

#[test]
fn translation_report_copies_fields() {
    let r = translation_summary_to_report(&summary());
    assert_eq!(r.translated_theorems, vec!["a".to_string(), "b".to_string()]);
    assert_eq!(r.skipped_theorems.len(), 1);
    assert_eq!(r.skipped_theorems[0].name, "c");
    assert_eq!(r.skipped_theorems[0].reason, "why");
    assert_eq!(r.sort_filter.original_sorts, 3);
    assert_eq!(r.auto_implementations, 2);
}

fn unary_model(tuples: Vec<usize>) -> FiniteModel {
    let s = SortSymbol::new("S");
    let sig = Signature::new(vec![s.clone()], vec![], vec![RelationSymbol::new("P", vec![s.clone()])]).expect("sig");
    FiniteModel {
        signature: sig,
        carriers: vec![(s, 2)],
        function_interps: vec![],
        relation_interps: vec![RelationInterp { name: "P".into(), tuples: tuples.into_iter().map(|x| vec![x]).collect() }],
    }
}

#[test]
fn auto_select_takes_first_satisfying() {
    let s = SortSymbol::new("S");
    let ex = Formula::Exists { sort: s.clone(), body: Box::new(Formula::Atom { relation: RelationSymbol::new("P", vec![s]), args: vec![Term::Var(0)] }) };
    let pool = vec![unary_model(vec![]), unary_model(vec![0]), unary_model(vec![1]), unary_model(vec![0, 1])];
    let picked = auto_select_implementations(&pool, &[ex.clone()], 2);
    assert_eq!(picked.len(), 2);
    assert_eq!(picked[0], pool[1]);
    assert_eq!(picked[1], pool[2]);
    let all = auto_select_implementations(&pool, &[ex], 10);
    assert_eq!(all.len(), 3);
    let open = Formula::Atom { relation: RelationSymbol::new("P", vec![SortSymbol::new("S")]), args: vec![Term::Var(0)] };
    assert!(auto_select_implementations(&pool, &[open], 10).is_empty());
}

#[test]
fn slices_follow_translated_theorems() {
    let p_pred = IRPredicate {
        name: "P".into(),
        params: vec![IRParam { name: "n".into(), sort: "Nat".into() }],
        body: IRExpr::True,
        equations: vec![],
    };
    let uses_p = IRExpr::Forall {
        var: "n".into(),
        sort: "Nat".into(),
        body: Box::new(IRExpr::App { fn_name: "P".into(), args: vec![IRExpr::Var { name: "n".into() }] }),
    };
    let ir = LeanIR {
        version: Some(1),
        source_file: None,
        sorts: vec![],
        constructors: vec![],
        functions: vec![],
        predicates: vec![p_pred],
        theorems: vec![
            IRTheorem { name: "t1".into(), hypotheses: vec![], conclusion: uses_p },
            IRTheorem { name: "t2".into(), hypotheses: vec![], conclusion: IRExpr::True },
        ],
        warnings: vec![],
    };
    let r = LeanTranslator::translate(&ir).expect("ok");
    let slices = slice_by_theorem(&r);
    let names: Vec<String> = slices.iter().map(|s| s.theorem_name.clone()).collect();
    assert_eq!(names, r.translated_theorems);
    let t1 = &slices[0];
    assert!(!t1.supporting_axioms.is_empty());
    assert_eq!(t1.all_axioms.len(), t1.supporting_axioms.len() + 1);
    assert!(t1.included_relations.iter().any(|x| x == "P"));
    let t2 = &slices[1];
    assert!(t2.supporting_axioms.is_empty());
    for sl in &slices {
        for s in &sl.included_sorts {
            assert!(r.signature.sorts.iter().any(|g| &g.name == s));
        }
        assert_eq!(sl.excluded_sorts.len() + sl.included_sorts.len(), r.signature.sorts.len());
    }
}

#[test]
fn supporting_axioms_drop_the_theorem_statement() {
    let p_pred = IRPredicate {
        name: "P".into(),
        params: vec![IRParam { name: "n".into(), sort: "Nat".into() }],
        body: IRExpr::True,
        equations: vec![],
    };
    let uses_p = IRExpr::Forall {
        var: "n".into(),
        sort: "Nat".into(),
        body: Box::new(IRExpr::App { fn_name: "P".into(), args: vec![IRExpr::Var { name: "n".into() }] }),
    };
    let ir = LeanIR {
        version: Some(1),
        source_file: None,
        sorts: vec![],
        constructors: vec![],
        functions: vec![],
        predicates: vec![p_pred],
        theorems: vec![IRTheorem { name: "t1".into(), hypotheses: vec![], conclusion: uses_p }],
        warnings: vec![],
    };
    let r = LeanTranslator::translate(&ir).expect("ok");
    let slices = slice_by_theorem(&r);
    let t1 = &slices[0];
    assert_eq!(supporting_axioms(t1, &r), Some(t1.supporting_axioms.clone()));
    let mut no_theorem = t1.clone();
    no_theorem.all_axioms = t1.supporting_axioms.clone();
    assert_eq!(supporting_axioms(&no_theorem, &r), None);
    let base = compute_baseline_tightness(t1, &r, &[], &[], vec![], &[]).expect("theorem present");
    assert_eq!(base.neighborhood_size, 0);
    assert_eq!(base.killed_count, 0);
    assert!(compute_baseline_tightness(&no_theorem, &r, &[], &[], vec![], &[]).is_none());
}

#[test]
fn slice_per_translated_theorem_even_when_merged() {
    let p_pred = IRPredicate {
        name: "P".into(),
        params: vec![IRParam { name: "n".into(), sort: "Nat".into() }],
        body: IRExpr::True,
        equations: vec![],
    };
    let uses_p = || IRExpr::Forall {
        var: "n".into(),
        sort: "Nat".into(),
        body: Box::new(IRExpr::App { fn_name: "P".into(), args: vec![IRExpr::Var { name: "n".into() }] }),
    };
    let ir = LeanIR {
        version: Some(1),
        source_file: None,
        sorts: vec![],
        constructors: vec![],
        functions: vec![],
        predicates: vec![p_pred],
        theorems: vec![
            IRTheorem { name: "first".into(), hypotheses: vec![], conclusion: uses_p() },
            IRTheorem { name: "again".into(), hypotheses: vec![], conclusion: uses_p() },
        ],
        warnings: vec![],
    };
    let r = LeanTranslator::translate(&ir).expect("ok");
    assert_eq!(r.translated_theorems, vec!["first".to_string(), "again".to_string()]);
    let slices = slice_by_theorem(&r);
    let names: Vec<String> = slices.iter().map(|s| s.theorem_name.clone()).collect();
    assert_eq!(names, r.translated_theorems);
    assert!(!slices[0].all_axioms.is_empty());
    // The second statement was merged into the first: its slice is empty.
    assert_eq!(slices[1].theorem_axiom, Formula::Top);
    assert!(slices[1].all_axioms.is_empty());
    assert!(slices[1].signature.sorts.is_empty());
    assert_eq!(slices[1].excluded_sorts.len(), r.signature.sorts.len());
}
