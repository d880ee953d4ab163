use specmut::formula::{Formula, Term};
use specmut::signature::{FunctionSymbol, RelationSymbol, SortSymbol};
use specmut::slicer::collect_symbols;

fn s(name: &str) -> SortSymbol {
    SortSymbol::new(name)
}

fn has(v: &[String], x: &str) -> bool {
    v.iter().any(|y| y == x)
}

#[test]
fn collect_symbols_walks_atom_and_quantifier() {
    let nat = s("Nat");
    let p = RelationSymbol::new("P", vec![nat.clone()]);
    let phi = Formula::Forall { sort: nat.clone(), body: Box::new(Formula::Atom { relation: p.clone(), args: vec![Term::Var(0)] }) };
    let syms = collect_symbols(&[phi]);
    assert!(has(&syms.sorts, "Nat"));
    assert!(has(&syms.relation_names, "P"));
    assert!(syms.function_names.is_empty());
}

#[test]
fn collect_symbols_walks_function_application() {
    let nat = s("Nat");
    let succ = FunctionSymbol::new("succ", vec![nat.clone()], nat.clone());
    let phi = Formula::Eq(Term::App { function: succ.clone(), args: vec![Term::Var(0)] }, Term::Var(1));
    let syms = collect_symbols(&[phi]);
    assert!(has(&syms.function_names, "succ"));
    assert!(has(&syms.sorts, "Nat"));
    assert!(syms.relation_names.is_empty());
}

#[test]
fn collect_symbols_nested_structure() {
    let s_a = s("A");
    let s_b = s("B");
    let f = FunctionSymbol::new("f", vec![s_a.clone()], s_b.clone());
    let q = RelationSymbol::new("Q", vec![s_b.clone()]);
    let left = Formula::Forall {
        sort: s_a.clone(),
        body: Box::new(Formula::Atom { relation: q.clone(), args: vec![Term::App { function: f.clone(), args: vec![Term::Var(0)] }] }),
    };
    let right = Formula::Exists {
        sort: s_a.clone(),
        body: Box::new(Formula::NegAtom { relation: q.clone(), args: vec![Term::App { function: f.clone(), args: vec![Term::Var(0)] }] }),
    };
    let phi = Formula::And(Box::new(left), Box::new(right));
    let syms = collect_symbols(&[phi]);
    assert_eq!(syms.sorts, ["A", "B"].iter().map(|s| s.to_string()).collect::<Vec<String>>());
    assert_eq!(syms.relation_names, vec!["Q".to_string()]);
    assert_eq!(syms.function_names, vec!["f".to_string()]);
}

#[test]
fn collect_symbols_quantifier_binder_sort() {
    let phi = Formula::Forall { sort: s("Custom"), body: Box::new(Formula::Top) };
    let syms = collect_symbols(&[phi]);
    assert!(has(&syms.sorts, "Custom"));
    assert!(syms.relation_names.is_empty());
    assert!(syms.function_names.is_empty());
}

#[test]
fn collect_symbols_sorted_without_repeats() {
    let z = s("Z");
    let a = s("A");
    let r = RelationSymbol::new("r", vec![z.clone(), a.clone()]);
    let phi1 = Formula::Forall { sort: z.clone(), body: Box::new(Formula::Atom { relation: r.clone(), args: vec![Term::Var(0), Term::Var(0)] }) };
    let phi2 = Formula::Exists { sort: a.clone(), body: Box::new(Formula::NegAtom { relation: r, args: vec![Term::Var(0), Term::Var(0)] }) };
    let syms = collect_symbols(&[phi1, phi2]);
    assert_eq!(syms.sorts, vec!["A".to_string(), "Z".to_string()]);
    assert_eq!(syms.relation_names, vec!["r".to_string()]);
}
