use specmut::model_file::{model_file_is_malformed, parse_model_file, ModelParseError};
use specmut::signature::{FunctionSymbol, RelationSymbol, Signature, SortSymbol};

fn sig() -> Signature {
    let e = SortSymbol::new("Elem");
    Signature::new(
        vec![e.clone()],
        vec![FunctionSymbol::new("output", vec![e.clone()], e.clone())],
        vec![RelationSymbol::new("leq", vec![e.clone(), e.clone()])],
    )
    .expect("valid")
}

#[test]
fn parses_minimal_model() {
    let src = "model Elem = {a, b}.\nleq(a, a) = true.\nleq(a, b) = true.\nleq(b, a) = false.\nleq(b, b) = true.\noutput(a) = a.\noutput(b) = b.\n";
    let model = parse_model_file(src, &sig()).expect("ok");
    assert_eq!(model.carriers.iter().find(|(s, _)| *s == SortSymbol::new("Elem")).map(|(_, n)| *n), Some(2));
    let leq = model.relation_interps.iter().find(|r| r.name == "leq").expect("leq");
    assert!(leq.tuples.contains(&vec![0, 1]));
    assert!(!leq.tuples.contains(&vec![1, 0]));
}

#[test]
fn rejects_missing_header() {
    let src = "leq(a, a) = true.\n";
    assert!(parse_model_file(src, &sig()).is_err());
}

#[test]
fn rejects_unknown_element() {
    let src = "model Elem = {a, b}.\nleq(a, z) = true.\n";
    assert!(matches!(parse_model_file(src, &sig()), Err(ModelParseError::UnknownElement { .. })));
}

#[test]
fn function_entries_and_comments() {
    let src = "-- a comment\nmodel Elem = {a, b}.  -- header\n\noutput(a) = b.\noutput(b) = a\n";
    let model = parse_model_file(src, &sig()).expect("ok");
    assert_eq!(model.apply_function("output", &[0]), 1);
    assert_eq!(model.apply_function("output", &[1]), 0);
    assert!(!model.relation_holds("leq", &[0, 0]));
}

#[test]
fn each_error_kind_with_line_numbers() {
    match parse_model_file("model Elem {a}.\n", &sig()) {
        Err(ModelParseError::Syntax { line, message }) => {
            assert_eq!(line, 1);
            assert_eq!(message, "expected '=' in model header");
        }
        other => panic!("unexpected {other:?}"),
    }
    match parse_model_file("model Elem = a, b.\n", &sig()) {
        Err(ModelParseError::Syntax { line, message }) => {
            assert_eq!(line, 1);
            assert_eq!(message, "expected '{...}' in model header");
        }
        other => panic!("unexpected {other:?}"),
    }
    match parse_model_file("model Nope = {a}.\n", &sig()) {
        Err(ModelParseError::UnknownSymbol { line, kind, name }) => {
            assert_eq!((line, kind.as_str(), name.as_str()), (1, "sort", "Nope"));
        }
        other => panic!("unexpected {other:?}"),
    }
    match parse_model_file("model Elem = {a}.\n\nleq(a, a)\n", &sig()) {
        Err(ModelParseError::Syntax { line, message }) => {
            assert_eq!(line, 3);
            assert_eq!(message, "expected '=' in body line");
        }
        other => panic!("unexpected {other:?}"),
    }
    match parse_model_file("model Elem = {a}.\nleq(a, a = true.\n", &sig()) {
        Err(ModelParseError::Syntax { line, message }) => {
            assert_eq!(line, 2);
            assert_eq!(message, "missing ')'");
        }
        other => panic!("unexpected {other:?}"),
    }
    match parse_model_file("model Elem = {a}.\nfoo(a) = a.\n", &sig()) {
        Err(ModelParseError::UnknownSymbol { line, kind, name }) => {
            assert_eq!((line, kind.as_str(), name.as_str()), (2, "symbol", "foo"));
        }
        other => panic!("unexpected {other:?}"),
    }
    match parse_model_file("model Elem = {a}.\noutput(a) = q.\n", &sig()) {
        Err(ModelParseError::UnknownElement { line, name }) => {
            assert_eq!((line, name.as_str()), (2, "q"));
        }
        other => panic!("unexpected {other:?}"),
    }
    assert!(matches!(parse_model_file("\n-- nothing\n", &sig()), Err(ModelParseError::MissingHeader)));
}

#[test]
fn malformed_parentheses_are_detected() {
    assert!(model_file_is_malformed("model Elem = {a}.\nleq)a( = true.\n", &sig()));
    assert!(!model_file_is_malformed("model Elem = {a}.\nleq(a, a) = true.\n", &sig()));
}
