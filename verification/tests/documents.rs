use unstructured::{Document, ParseError, QueryError, ResolveError, Scalar, Shape};

fn leaf(n: i128) -> Document {
    Document::integer(n)
}

#[test]
fn builders_make_the_variants() {
    assert_eq!(Document::null(), Document::Scalar(Scalar::Null));
    assert_eq!(Document::boolean(true), Document::Scalar(Scalar::Bool(true)));
    assert_eq!(Document::integer(-3), Document::Scalar(Scalar::Int(-3)));
    assert_eq!(Document::string("s"), Document::Scalar(Scalar::Str("s".to_string())));
    assert_eq!(
        Document::sequence(vec![leaf(1), leaf(2)]),
        Document::Sequence(vec![leaf(1), leaf(2)])
    );
}

#[test]
fn mapping_keeps_the_order_of_its_entries() {
    let built = Document::mapping(vec![("b".to_string(), leaf(1)), ("a".to_string(), leaf(2))]);
    assert_eq!(
        built,
        Some(Document::Mapping(vec![("b".to_string(), leaf(1)), ("a".to_string(), leaf(2))]))
    );
    assert_eq!(Document::mapping(vec![]), Some(Document::Mapping(vec![])));
}

#[test]
fn mapping_refuses_a_repeated_key() {
    let built = Document::mapping(vec![
        ("a".to_string(), leaf(1)),
        ("b".to_string(), leaf(2)),
        ("a".to_string(), leaf(3)),
    ]);
    assert_eq!(built, None);
}

#[test]
fn shapes() {
    assert_eq!(Document::null().shape_of(), Shape::Scalar);
    assert_eq!(Document::string("s").shape_of(), Shape::Scalar);
    assert_eq!(Document::sequence(vec![]).shape_of(), Shape::Sequence);
    assert_eq!(Document::Mapping(vec![]).shape_of(), Shape::Mapping);
}

#[test]
fn length_is_defined_for_sequences_only() {
    assert_eq!(Document::sequence(vec![leaf(1), leaf(2), leaf(3)]).length_of(), Some(3));
    assert_eq!(Document::sequence(vec![]).length_of(), Some(0));
    assert_eq!(Document::Mapping(vec![("a".to_string(), leaf(1))]).length_of(), None);
    assert_eq!(Document::string("abc").length_of(), None);
}

#[test]
fn indexed_access() {
    let doc = Document::sequence(vec![leaf(1), leaf(2)]);
    assert_eq!(doc.get_index(0), Some(&leaf(1)));
    assert_eq!(doc.get_index(1), Some(&leaf(2)));
    assert_eq!(doc.get_index(2), None);
    assert_eq!(leaf(1).get_index(0), None);
    assert_eq!(Document::Mapping(vec![]).get_index(0), None);
}

#[test]
fn keyed_access() {
    let doc = Document::Mapping(vec![("a".to_string(), leaf(1)), ("b".to_string(), leaf(2))]);
    assert_eq!(doc.get_field("a"), Some(&leaf(1)));
    assert_eq!(doc.get_field("b"), Some(&leaf(2)));
    assert_eq!(doc.get_field("c"), None);
    assert_eq!(doc.get_field(""), None);
    assert_eq!(leaf(1).get_field("a"), None);
    assert_eq!(Document::sequence(vec![leaf(1)]).get_field("a"), None);
}

#[test]
fn mutable_indexed_access() {
    let mut doc = Document::sequence(vec![leaf(1), leaf(2)]);
    *doc.get_index_mut(1).unwrap() = leaf(9);
    assert_eq!(doc, Document::sequence(vec![leaf(1), leaf(9)]));
    assert_eq!(doc.get_index_mut(2), None);
    assert_eq!(leaf(1).get_index_mut(0), None);
}

#[test]
fn mutable_keyed_access() {
    let mut doc = Document::Mapping(vec![("a".to_string(), leaf(1)), ("b".to_string(), leaf(2))]);
    *doc.get_field_mut("b").unwrap() = Document::null();
    assert_eq!(
        doc,
        Document::Mapping(vec![("a".to_string(), leaf(1)), ("b".to_string(), Document::null())])
    );
    assert_eq!(doc.get_field_mut("c"), None);
    assert_eq!(leaf(1).get_field_mut("a"), None);
}

#[test]
fn clone_copies_the_whole_tree() {
    let doc = Document::Mapping(vec![
        ("a".to_string(), Document::sequence(vec![leaf(1), Document::string("s")])),
        ("b".to_string(), Document::Mapping(vec![("c".to_string(), Document::boolean(false))])),
        ("d".to_string(), Document::null()),
    ]);
    assert_eq!(doc.clone(), doc);
    assert_eq!(Scalar::Str("x".to_string()).clone(), Scalar::Str("x".to_string()));
}

#[test]
fn query_reports_a_parse_error_before_any_step() {
    let doc = leaf(1);
    assert_eq!(doc.jq(".a."), Err(QueryError::Parse(ParseError { offset: 2 })));
    assert_eq!(doc.jq("nope"), Err(QueryError::Parse(ParseError { offset: 0 })));
}

#[test]
fn query_reports_the_failing_step() {
    let doc = Document::Mapping(vec![("a".to_string(), Document::sequence(vec![leaf(1)]))]);
    assert_eq!(
        doc.jq(".b"),
        Err(QueryError::Resolve(ResolveError::NoSuchKey("b".to_string())))
    );
    assert_eq!(
        doc.jq(".a[1]"),
        Err(QueryError::Resolve(ResolveError::IndexOutOfRange { requested: 1, length: 1 }))
    );
    assert_eq!(
        doc.jq(".a.b"),
        Err(QueryError::Resolve(ResolveError::TypeMismatch {
            expected: Shape::Mapping,
            actual: Shape::Sequence
        }))
    );
}

#[test]
fn query_gives_one_copy_of_the_value() {
    let doc = Document::Mapping(vec![("a".to_string(), Document::sequence(vec![leaf(1)]))]);
    assert_eq!(doc.jq(".a"), Ok(vec![Document::sequence(vec![leaf(1)])]));
    assert_eq!(doc.jq(""), Ok(vec![doc.clone()]));
    assert_eq!(doc.jq(".a | length"), Ok(vec![leaf(1)]));
}
