use specmut::formula::{Formula, Term};
use specmut::model::{FiniteModel, RelationInterp};
use specmut::mutation::MutantClass;
use specmut::signature::{RelationSymbol, Signature, SortSymbol};
use specmut::tightness::{MutantStatus, WitnessDirection};
use specmut::witness::{attach_witnesses_for_alive, describe_model, distinguishing_facts, extract_witness, generate_interpretation, witness_weight};

fn unary_model(name: &str, tuples: Vec<usize>) -> FiniteModel {
    let s = SortSymbol::new("S");
    let sig = Signature::new(vec![s.clone()], vec![], vec![RelationSymbol::new(name, vec![s.clone()])]).expect("test sig valid");
    FiniteModel {
        signature: sig,
        carriers: vec![(s, 2)],
        function_interps: vec![],
        relation_interps: vec![RelationInterp { name: name.to_string(), tuples: tuples.into_iter().map(|x| vec![x]).collect() }],
    }
}

#[test]
fn describe_model_non_empty() {
    let m = unary_model("P", vec![0, 1]);
    let d = describe_model(&m);
    assert!(d.contains("|S| = 2"));
    assert!(d.contains("P = {(0), (1)}"));
    assert_eq!(d, "|S| = 2 | P = {(0), (1)}");
}

#[test]
fn describe_model_empty_carriers() {
    let m = FiniteModel {
        signature: Signature::new(vec![], vec![], vec![]).expect("empty sig valid"),
        carriers: vec![],
        function_interps: vec![],
        relation_interps: vec![],
    };
    let d = describe_model(&m);
    assert_eq!(d, "<empty model>");
}

#[test]
fn witness_weight_prefers_smaller_carrier() {
    let small = unary_model("P", vec![0]);
    let mut large = small.clone();
    large.carriers.iter_mut().for_each(|v| v.1 += 5);
    assert!(witness_weight(&small) < witness_weight(&large));
    assert_eq!(witness_weight(&small), 2_000_001);
    assert_eq!(witness_weight(&large), 7_000_001);
}

#[test]
fn distinguishing_facts_non_empty_relations() {
    let m = unary_model("P", vec![0, 1]);
    let facts = distinguishing_facts(&m);
    assert_eq!(facts.len(), 1);
    assert!(facts[0].contains("P(0)") && facts[0].contains("P(1)"));
    assert_eq!(facts[0], "P(0), P(1)");
}

#[test]
fn distinguishing_facts_when_all_relations_empty() {
    let m = unary_model("P", vec![]);
    assert_eq!(distinguishing_facts(&m), vec!["(no non-empty relations in witness)".to_string()]);
}

fn forall_p() -> Formula {
    let s = SortSymbol::new("S");
    Formula::Forall { sort: s.clone(), body: Box::new(Formula::Atom { relation: RelationSymbol::new("P", vec![s]), args: vec![Term::Var(0)] }) }
}

#[test]
fn extract_witness_finds_distinguishing_model() {
    let spec = vec![forall_p()];
    let mutant_axioms: Vec<Formula> = vec![];
    let m_full = unary_model("P", vec![0, 1]);
    let m_empty = unary_model("P", vec![]);
    let pool = vec![m_full, m_empty];
    let w = extract_witness(&spec, &mutant_axioms, MutantClass::Weakening, &pool).expect("expected a distinguishing witness");
    assert_eq!(w.direction, WitnessDirection::MutantAdmits);
    assert_eq!(w.model_description, "|S| = 2 | P = {}");
    assert!(w.interpretation.starts_with("Removing the axiom admits a model the spec rejects (|S| = 2 | P = {})."));
}

#[test]
fn extract_witness_none_without_distinguishing_model() {
    let spec = vec![forall_p()];
    let pool = vec![unary_model("P", vec![0, 1])];
    assert!(extract_witness(&spec, &spec.clone(), MutantClass::Strengthening, &pool).is_none());
}

#[test]
fn extract_witness_prefers_lighter_model() {
    let spec = vec![forall_p()];
    let none: Vec<Formula> = vec![];
    let heavy = unary_model("P", vec![0]);
    let light = unary_model("P", vec![]);
    let w = extract_witness(&spec, &none, MutantClass::Weakening, &[heavy, light]).expect("witness");
    assert_eq!(w.model_description, "|S| = 2 | P = {}");
}

#[test]
fn interpretation_text_for_each_side() {
    let t = generate_interpretation(MutantClass::Strengthening, "M", WitnessDirection::MutantRejects);
    assert_eq!(t, "Adding the new conjunct would reject a model the spec admits (M). The spec currently allows this — the constraint is missing.");
}

#[test]
fn attach_witness_only_to_alive_mutants() {
    let spec = vec![forall_p()];
    let mutants: Vec<Vec<Formula>> = vec![vec![], vec![]];
    let classes = vec![MutantClass::Weakening, MutantClass::Weakening];
    let pool = vec![unary_model("P", vec![0, 1]), unary_model("P", vec![])];
    let mut statuses = vec![
        MutantStatus { mutant_index: 0, killed: true, killing_implementations: vec![1], direction: Some(false), witness: None },
        MutantStatus { mutant_index: 1, killed: false, killing_implementations: vec![], direction: None, witness: None },
        MutantStatus { mutant_index: 9, killed: false, killing_implementations: vec![], direction: None, witness: None },
    ];
    attach_witnesses_for_alive(&spec, &mutants, &classes, &pool, &mut statuses);
    assert!(statuses[0].witness.is_none());
    assert!(statuses[1].witness.is_some());
    assert!(statuses[2].witness.is_none());
    assert_eq!(statuses[0].killing_implementations, vec![1]);
}
