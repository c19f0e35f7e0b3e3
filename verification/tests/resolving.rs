use unstructured::{
    parse_path, resolve, resolve_all, resolve_mut, Document, Path, ResolveError, Resolved,
    ResolvedMut, Scalar, Selector, Shape,
};

fn number(n: i128) -> Document {
    Document::Scalar(Scalar::Int(n))
}

fn word(s: &str) -> Document {
    Document::Scalar(Scalar::Str(s.to_string()))
}

fn numbers(values: &[i128]) -> Document {
    Document::Sequence(values.iter().map(|n| number(*n)).collect())
}

fn nested() -> Document {
    Document::Mapping(vec![
        ("val".to_string(), word("x")),
        ("vals".to_string(), numbers(&[4, 5, 6])),
        (
            "child".to_string(),
            Document::Mapping(vec![
                ("val".to_string(), word("ccc")),
                ("vals".to_string(), numbers(&[4, 5, 6])),
            ]),
        ),
    ])
}

fn path(text: &str) -> Path {
    parse_path(text).unwrap()
}

#[test]
fn index_round_trip() {
    let doc = Document::Sequence(vec![word("a"), word("b"), word("c")]);
    let expected = [word("a"), word("b"), word("c")];
    for i in 0..3 {
        let p = path(&format!(".[{}]", i));
        assert_eq!(resolve(&doc, &p), Ok(Resolved::Borrowed(&expected[i])));
    }
    for i in [3usize, 4, 100] {
        let p = path(&format!(".[{}]", i));
        assert_eq!(
            resolve(&doc, &p),
            Err(ResolveError::IndexOutOfRange { requested: i, length: 3 })
        );
    }
    assert!(parse_path(".[-1]").is_err());
}

#[test]
fn field_descent() {
    let doc = Document::Mapping(vec![("val".to_string(), word("x"))]);
    assert_eq!(resolve(&doc, &path(".val")), Ok(Resolved::Borrowed(&word("x"))));
    assert_eq!(
        resolve(&doc, &path(".missing")),
        Err(ResolveError::NoSuchKey("missing".to_string()))
    );
}

#[test]
fn quoted_field_descent() {
    let doc = Document::Mapping(vec![("a b".to_string(), number(1))]);
    assert_eq!(resolve(&doc, &path(".\"a b\"")), Ok(Resolved::Borrowed(&number(1))));
}

#[test]
fn dot_chain_equals_pipe_chain() {
    let doc = nested();
    for (dotted, piped) in [
        (".child.vals", ".child | .vals"),
        (".child.vals.[1]", ".child.vals | .[1]"),
        (".child.val", ".child | .val"),
        (".child.nope", ".child | .nope"),
        (".vals.val", ".vals | .val"),
    ] {
        assert_eq!(resolve(&doc, &path(dotted)), resolve(&doc, &path(piped)));
        assert_eq!(doc.jq(dotted), doc.jq(piped));
    }
}

#[test]
fn length_of_a_nested_sequence() {
    let doc = nested();
    assert_eq!(resolve(&doc, &path(".vals | length")), Ok(Resolved::Owned(number(3))));
    assert_eq!(resolve(&doc, &path(".vals|length")).unwrap().into_owned(), number(3));
    let empty = Document::Sequence(vec![]);
    assert_eq!(resolve(&empty, &path("length")), Ok(Resolved::Owned(number(0))));
}

#[test]
fn length_of_a_non_sequence_is_a_type_mismatch() {
    let doc = nested();
    assert_eq!(
        resolve(&doc, &path("length")),
        Err(ResolveError::TypeMismatch { expected: Shape::Sequence, actual: Shape::Mapping })
    );
    assert_eq!(
        resolve(&doc, &path(".val | length")),
        Err(ResolveError::TypeMismatch { expected: Shape::Sequence, actual: Shape::Scalar })
    );
}

#[test]
fn steps_after_length_meet_a_scalar() {
    let doc = nested();
    assert_eq!(
        resolve(&doc, &path(".vals | length | .[0]")),
        Err(ResolveError::TypeMismatch { expected: Shape::Sequence, actual: Shape::Scalar })
    );
    assert_eq!(
        resolve(&doc, &path(".vals | length | .x")),
        Err(ResolveError::TypeMismatch { expected: Shape::Mapping, actual: Shape::Scalar })
    );
    assert_eq!(
        resolve(&doc, &path(".vals | length | length")),
        Err(ResolveError::TypeMismatch { expected: Shape::Sequence, actual: Shape::Scalar })
    );
    assert_eq!(resolve(&doc, &path(".vals | length | ")), Ok(Resolved::Owned(number(3))));
}

#[test]
fn fail_fast_on_a_late_step() {
    let doc = Document::Mapping(vec![(
        "child".to_string(),
        Document::Mapping(vec![("vals".to_string(), numbers(&[4, 5, 6]))]),
    )]);
    assert_eq!(resolve(&doc, &path(".child.vals[0]")), Ok(Resolved::Borrowed(&number(4))));
    assert_eq!(
        resolve(&doc, &path(".child.vals[9]")),
        Err(ResolveError::IndexOutOfRange { requested: 9, length: 3 })
    );
}

#[test]
fn first_failure_wins() {
    let doc = nested();
    assert_eq!(
        resolve(&doc, &path(".nope.vals[9]")),
        Err(ResolveError::NoSuchKey("nope".to_string()))
    );
    assert_eq!(
        resolve(&doc, &path(".vals[7].x[1]")),
        Err(ResolveError::IndexOutOfRange { requested: 7, length: 3 })
    );
}

#[test]
fn type_mismatch_names_both_shapes() {
    let doc = nested();
    assert_eq!(
        resolve(&doc, &path(".[0]")),
        Err(ResolveError::TypeMismatch { expected: Shape::Sequence, actual: Shape::Mapping })
    );
    assert_eq!(
        resolve(&doc, &path(".vals.x")),
        Err(ResolveError::TypeMismatch { expected: Shape::Mapping, actual: Shape::Sequence })
    );
    assert_eq!(
        resolve(&doc, &path(".val.x")),
        Err(ResolveError::TypeMismatch { expected: Shape::Mapping, actual: Shape::Scalar })
    );
    assert_eq!(
        resolve(&doc, &path(".val[0]")),
        Err(ResolveError::TypeMismatch { expected: Shape::Sequence, actual: Shape::Scalar })
    );
}

#[test]
fn empty_path_addresses_the_root() {
    let doc = nested();
    assert_eq!(resolve(&doc, &path("")), Ok(Resolved::Borrowed(&doc)));
    assert_eq!(resolve(&doc, &path(" | ")), Ok(Resolved::Borrowed(&doc)));
}

#[test]
fn a_lookup_finds_the_first_entry_with_the_key() {
    let doc = Document::Mapping(vec![
        ("k".to_string(), number(1)),
        ("k".to_string(), number(2)),
    ]);
    assert_eq!(resolve(&doc, &path(".k")), Ok(Resolved::Borrowed(&number(1))));
}

#[test]
fn one_path_serves_many_documents() {
    let p = path(".vals[1]");
    let first = Document::Mapping(vec![("vals".to_string(), numbers(&[1, 2]))]);
    let second = Document::Mapping(vec![("vals".to_string(), numbers(&[7, 8, 9]))]);
    assert_eq!(resolve(&first, &p), Ok(Resolved::Borrowed(&number(2))));
    assert_eq!(resolve(&second, &p), Ok(Resolved::Borrowed(&number(8))));
    assert_eq!(resolve(&first, &p), Ok(Resolved::Borrowed(&number(2))));
}

#[test]
fn resolved_value_by_reference_and_by_value() {
    let doc = nested();
    let found = resolve(&doc, &path(".child.val")).unwrap();
    assert_eq!(found.get(), &word("ccc"));
    assert_eq!(found.into_owned(), word("ccc"));
    let counted = resolve(&doc, &path(".vals | length")).unwrap();
    assert_eq!(counted.get(), &number(3));
}

#[test]
fn write_through_a_handle_is_read_back() {
    let mut doc = nested();
    let p = path(".child.vals[1]");
    match resolve_mut(&mut doc, &p) {
        Ok(ResolvedMut::Located(place)) => {
            assert_eq!(*place, number(5));
            *place = word("new");
        }
        other => panic!("no place: {:?}", other),
    }
    assert_eq!(resolve(&doc, &p), Ok(Resolved::Borrowed(&word("new"))));
}

#[test]
fn write_through_a_handle_touches_nothing_else() {
    let mut doc = nested();
    match resolve_mut(&mut doc, &path(".child | .val")) {
        Ok(ResolvedMut::Located(place)) => *place = numbers(&[0]),
        other => panic!("no place: {:?}", other),
    }
    let expected = Document::Mapping(vec![
        ("val".to_string(), word("x")),
        ("vals".to_string(), numbers(&[4, 5, 6])),
        (
            "child".to_string(),
            Document::Mapping(vec![
                ("val".to_string(), numbers(&[0])),
                ("vals".to_string(), numbers(&[4, 5, 6])),
            ]),
        ),
    ]);
    assert_eq!(doc, expected);
}

#[test]
fn write_at_the_root_replaces_the_document() {
    let mut doc = nested();
    match resolve_mut(&mut doc, &path("")) {
        Ok(ResolvedMut::Located(place)) => *place = number(1),
        other => panic!("no place: {:?}", other),
    }
    assert_eq!(doc, number(1));
}

#[test]
fn mutable_resolution_of_length_is_computed() {
    let mut doc = nested();
    assert_eq!(
        resolve_mut(&mut doc, &path(".vals | length")),
        Ok(ResolvedMut::Computed(number(3)))
    );
    assert_eq!(doc, nested());
}

#[test]
fn mutable_resolution_fails_as_reading_does() {
    let mut doc = nested();
    assert_eq!(
        resolve_mut(&mut doc, &path(".child.vals[9]")),
        Err(ResolveError::IndexOutOfRange { requested: 9, length: 3 })
    );
    assert_eq!(
        resolve_mut(&mut doc, &path(".child.nope")),
        Err(ResolveError::NoSuchKey("nope".to_string()))
    );
    assert_eq!(
        resolve_mut(&mut doc, &path(".val.x")),
        Err(ResolveError::TypeMismatch { expected: Shape::Mapping, actual: Shape::Scalar })
    );
    assert_eq!(
        resolve_mut(&mut doc, &path(".child[0]")),
        Err(ResolveError::TypeMismatch { expected: Shape::Sequence, actual: Shape::Mapping })
    );
    assert_eq!(
        resolve_mut(&mut doc, &path("length")),
        Err(ResolveError::TypeMismatch { expected: Shape::Sequence, actual: Shape::Mapping })
    );
    assert_eq!(doc, nested());
}

#[test]
fn resolve_all_keeps_the_input_order() {
    let a = numbers(&[1, 2]);
    let b = numbers(&[3, 4]);
    let c = numbers(&[5, 6]);
    let docs = [&a, &b, &c];
    assert_eq!(resolve_all(&docs, &path(".[1]")), Ok(vec![number(2), number(4), number(6)]));
    assert_eq!(resolve_all(&[], &path(".[1]")), Ok(vec![]));
}

#[test]
fn resolve_all_stops_at_the_first_failure() {
    let a = numbers(&[1, 2]);
    let b = numbers(&[3]);
    let c = word("c");
    let docs = [&a, &b, &c];
    assert_eq!(
        resolve_all(&docs, &path(".[1]")),
        Err(ResolveError::IndexOutOfRange { requested: 1, length: 1 })
    );
    let docs = [&a, &c, &b];
    assert_eq!(
        resolve_all(&docs, &path(".[1]")),
        Err(ResolveError::TypeMismatch { expected: Shape::Sequence, actual: Shape::Scalar })
    );
}

#[test]
fn resolve_stops_at_the_first_end() {
    let doc = numbers(&[1, 2]);
    let p = Path::new(vec![Selector::Index(1)]).unwrap();
    assert_eq!(resolve(&doc, &p), Ok(Resolved::Borrowed(&number(2))));
}

#[test]
fn errors_can_be_cloned() {
    let e = ResolveError::NoSuchKey("k".to_string());
    assert_eq!(e.clone(), e);
    let e = ResolveError::IndexOutOfRange { requested: 2, length: 1 };
    assert_eq!(e.clone(), e);
    let e = ResolveError::TypeMismatch { expected: Shape::Mapping, actual: Shape::Scalar };
    assert_eq!(e.clone(), e);
}
