use unstructured::{Document, Scalar};

fn integer(n: i128) -> Document {
    Document::Scalar(Scalar::Int(n))
}

fn text(s: &str) -> Document {
    Document::Scalar(Scalar::Str(s.to_string()))
}

fn integers(values: &[i128]) -> Document {
    Document::Sequence(values.iter().map(|n| integer(*n)).collect())
}

fn sample() -> Document {
    Document::Mapping(vec![
        ("val".to_string(), text("some_val")),
        ("vals".to_string(), integers(&[1, 2, 3])),
        (
            "child".to_string(),
            Document::Mapping(vec![
                ("val".to_string(), text("ccc")),
                ("vals".to_string(), integers(&[4, 5, 6])),
            ]),
        ),
    ])
}

#[test]
fn test_path() {
    let doc = integers(&[1, 2, 3]);
    assert_eq!(doc.jq(".[0]").unwrap(), vec![integer(1)]);

    let doc = sample();
    assert_eq!(doc.jq(".val").unwrap().clone(), vec![text("some_val")]);
    assert_eq!(doc.jq(".child.vals[0]").unwrap().clone(), vec![integer(4)]);
    assert_eq!(doc.jq(".child | .vals[0]").unwrap().clone(), vec![integer(4)]);
    assert_eq!(doc.jq(".child | .vals | .[0]").unwrap().clone(), vec![integer(4)]);
    assert_eq!(doc.jq(".child | .vals | length").unwrap().clone(), vec![integer(3)]);
}
