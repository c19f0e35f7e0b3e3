use unstructured::grammar::CharClass;
use unstructured::{parse_path, Builtin, ParseError, Path, Selector};

fn field(name: &str) -> Selector {
    Selector::Field(name.to_string())
}

fn tokens_of(text: &str) -> Vec<Selector> {
    parse_path(text).unwrap().tokens().clone()
}

fn offset_of(text: &str) -> usize {
    parse_path(text).unwrap_err().offset
}

#[test]
fn empty_selector_is_the_identity_path() {
    assert_eq!(tokens_of(""), vec![Selector::End]);
}

#[test]
fn field_by_identifier() {
    assert_eq!(tokens_of(".val"), vec![field("val"), Selector::End]);
    assert_eq!(tokens_of("._a1_B"), vec![field("_a1_B"), Selector::End]);
}

#[test]
fn field_by_quoted_string() {
    assert_eq!(tokens_of(".\"some key\""), vec![field("some key"), Selector::End]);
    assert_eq!(tokens_of(".\"a|b.c[0]\""), vec![field("a|b.c[0]"), Selector::End]);
    assert_eq!(tokens_of(".\"\""), vec![field(""), Selector::End]);
    assert_eq!(tokens_of(".\"h\u{e9}\""), vec![field("h\u{e9}"), Selector::End]);
}

#[test]
fn index_with_and_without_dot() {
    assert_eq!(tokens_of("[0]"), vec![Selector::Index(0), Selector::End]);
    assert_eq!(tokens_of(".[0]"), vec![Selector::Index(0), Selector::End]);
    assert_eq!(tokens_of(".[1234]"), vec![Selector::Index(1234), Selector::End]);
    assert_eq!(tokens_of("[007]"), vec![Selector::Index(7), Selector::End]);
}

#[test]
fn builtin_length() {
    assert_eq!(tokens_of("length"), vec![Selector::Builtin(Builtin::Length), Selector::End]);
}

#[test]
fn chained_steps_keep_their_order() {
    assert_eq!(
        tokens_of(".child.vals[0]"),
        vec![field("child"), field("vals"), Selector::Index(0), Selector::End]
    );
}

#[test]
fn pipe_leaves_a_boundary_between_segments() {
    assert_eq!(
        tokens_of(".child | .vals | length"),
        vec![
            field("child"),
            Selector::PipeBoundary,
            field("vals"),
            Selector::PipeBoundary,
            Selector::Builtin(Builtin::Length),
            Selector::End,
        ]
    );
}

#[test]
fn white_space_around_pipe_is_insignificant() {
    let expected = vec![field("a"), Selector::PipeBoundary, field("b"), Selector::End];
    assert_eq!(tokens_of(".a|.b"), expected);
    assert_eq!(tokens_of(".a | .b"), expected);
    assert_eq!(tokens_of(".a \t\r\n|\n\n.b"), expected);
    assert_eq!(tokens_of(".a|  .b"), expected);
}

#[test]
fn segments_may_be_empty() {
    assert_eq!(tokens_of("|"), vec![Selector::PipeBoundary, Selector::End]);
    assert_eq!(tokens_of(" | "), vec![Selector::PipeBoundary, Selector::End]);
    assert_eq!(
        tokens_of(".a | | .b"),
        vec![field("a"), Selector::PipeBoundary, Selector::PipeBoundary, field("b"), Selector::End]
    );
}

#[test]
fn white_space_away_from_a_pipe_is_rejected() {
    assert_eq!(parse_path(". val"), Err(ParseError { offset: 0 }));
    assert_eq!(parse_path(".[ 0 ]"), Err(ParseError { offset: 0 }));
    assert_eq!(parse_path(" .val"), Err(ParseError { offset: 0 }));
    assert_eq!(parse_path(".val "), Err(ParseError { offset: 4 }));
    assert_eq!(parse_path(".a .b"), Err(ParseError { offset: 2 }));
}

#[test]
fn unterminated_string_is_rejected() {
    assert_eq!(offset_of(".\"abc"), 0);
    assert_eq!(offset_of(".a.\"abc"), 2);
}

#[test]
fn non_numeric_index_is_rejected() {
    assert_eq!(offset_of(".[x]"), 0);
    assert_eq!(offset_of(".[-1]"), 0);
    assert_eq!(offset_of("[]"), 0);
    assert_eq!(offset_of(".a[1"), 2);
    assert_eq!(offset_of(".a[1x]"), 2);
}

#[test]
fn unknown_builtin_is_rejected() {
    assert_eq!(offset_of("count"), 0);
    assert_eq!(offset_of("len"), 0);
    assert_eq!(offset_of(".a | keys"), 5);
}

#[test]
fn trailing_garbage_is_rejected() {
    assert_eq!(offset_of(".a."), 2);
    assert_eq!(offset_of(".a]"), 2);
    assert_eq!(offset_of("lengthx"), 6);
    assert_eq!(offset_of(".a-b"), 2);
    assert_eq!(offset_of("."), 0);
}

#[test]
fn offset_counts_characters_not_bytes() {
    assert_eq!(offset_of(".\"\u{e9}\u{e9}\"?"), 5);
}

#[test]
fn index_beyond_the_machine_word_is_rejected() {
    let max = usize::MAX;
    assert_eq!(
        tokens_of(&format!(".[{}]", max)),
        vec![Selector::Index(max), Selector::End]
    );
    assert_eq!(offset_of(&format!(".[{}0]", max)), 0);
    assert_eq!(offset_of(".a[340282366920938463463374607431768211456]"), 2);
}

#[test]
fn name_takes_the_longest_run() {
    assert_eq!(tokens_of(".alength"), vec![field("alength"), Selector::End]);
    assert_eq!(
        tokens_of(".a|length"),
        vec![field("a"), Selector::PipeBoundary, Selector::Builtin(Builtin::Length), Selector::End]
    );
}

#[test]
fn parsing_twice_gives_equal_paths() {
    let first = parse_path(".child | .vals[2]").unwrap();
    let second = parse_path(".child | .vals[2]").unwrap();
    assert_eq!(first, second);
    assert_eq!(first.clone(), first);
}

#[test]
fn path_length_counts_the_end() {
    let path = parse_path(".a[3]").unwrap();
    assert_eq!(path.len(), 3);
    assert_eq!(path.token(0), &field("a"));
    assert_eq!(path.token(1), &Selector::Index(3));
    assert_eq!(path.token(2), &Selector::End);
}

#[test]
fn path_from_steps_appends_the_end() {
    let path = Path::new(vec![field("a"), Selector::Index(1)]).unwrap();
    assert_eq!(path, parse_path(".a[1]").unwrap());
    assert_eq!(Path::new(vec![]).unwrap().tokens(), &vec![Selector::End]);
}

#[test]
fn path_from_steps_refuses_an_inner_end() {
    assert_eq!(Path::new(vec![field("a"), Selector::End]), None);
    assert_eq!(Path::new(vec![Selector::End, field("a")]), None);
}

#[test]
fn character_classes() {
    assert!(CharClass::Name.contains('a'));
    assert!(CharClass::Name.contains('Z'));
    assert!(CharClass::Name.contains('_'));
    assert!(CharClass::Name.contains('7'));
    assert!(!CharClass::Name.contains('-'));
    assert!(!CharClass::Name.contains('.'));
    assert!(CharClass::Digit.contains('0'));
    assert!(CharClass::Digit.contains('9'));
    assert!(!CharClass::Digit.contains('a'));
    assert!(CharClass::Space.contains(' '));
    assert!(CharClass::Space.contains('\t'));
    assert!(CharClass::Space.contains('\n'));
    assert!(CharClass::Space.contains('\r'));
    assert!(!CharClass::Space.contains('|'));
    assert!(CharClass::Unquoted.contains('|'));
    assert!(!CharClass::Unquoted.contains('"'));
}
