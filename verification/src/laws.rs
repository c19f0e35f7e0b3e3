//! Laws that relate the grammar, the resolver and the document model.

use vstd::prelude::*;
use crate::document::{
    first_with_key, key_position, lemma_element_of_with_element, lemma_field_of_with_field,
    lemma_with_element_same, lemma_with_field_same, DocView, ScalarView, Shape,
};
use crate::grammar::{
    decimal_value, digit_value, is_digit, is_name_start, is_run, lemma_read_token_bounds, lemma_run_len_is_run,
    lemma_run_len_unique, length_keyword, lex, parse_spec, read_bracket, read_token, run_len,
    CharClass,
};
use crate::query::{query_spec, QueryFailure};
use crate::resolve::{computes, replace_spec, resolve_spec, step_spec, ResolveFailure};
use crate::selector::{terminated, Builtin, SelectorView};

verus! {

/// A run that ends before the end of `s` is the same run in any text that
/// `s` opens.
pub proof fn lemma_run_ends_inside(s: Seq<char>, x: Seq<char>, class: CharClass)
    requires
        run_len(s, class) < s.len(),
    ensures
        run_len(s + x, class) == run_len(s, class),
{
    let n = run_len(s, class) as int;
    lemma_run_len_is_run(s, class);
    assert forall|i: int| 0 <= i < n implies class.has(#[trigger] (s + x)[i]) by {
        assert((s + x)[i] == s[i]);
    }
    assert((s + x)[n] == s[n]);
    lemma_run_len_unique(s + x, class, n);
}

/// A run that takes up all of `s` goes on into what follows `s`.
pub proof fn lemma_run_goes_on(s: Seq<char>, x: Seq<char>, class: CharClass)
    requires
        run_len(s, class) == s.len(),
    ensures
        run_len(s + x, class) == s.len() + run_len(x, class),
{
    let n = s.len() as int;
    let m = run_len(x, class) as int;
    lemma_run_len_is_run(s, class);
    lemma_run_len_is_run(x, class);
    assert forall|i: int| 0 <= i < n + m implies class.has(#[trigger] (s + x)[i]) by {
        if i < n {
            assert((s + x)[i] == s[i]);
        } else {
            assert((s + x)[i] == x[i - n]);
        }
    }
    if n + m < (s + x).len() {
        assert((s + x)[n + m] == x[m]);
    }
    lemma_run_len_unique(s + x, class, n + m);
}

/// No token that the grammar reads is `End`.
pub proof fn lemma_lex_has_no_end(s: Seq<char>)
    ensures
        lex(s) matches Ok(tokens) ==> forall|i: int|
            0 <= i < tokens.len() ==> !((#[trigger] tokens[i]) is End),
    decreases s.len(),
{
    if s.len() > 0 {
        if let Some((token, n)) = read_token(s) {
            lemma_read_token_bounds(s);
            lemma_lex_has_no_end(s.skip(n));
        }
    }
}

/// A path that the grammar gives ends in `End` and holds no other `End`.
pub proof fn lemma_parse_spec_terminated(text: Seq<char>)
    ensures
        parse_spec(text) matches Ok(path) ==> terminated(path),
{
    lemma_lex_has_no_end(text);
}

/// `x` can follow a query without running into its last token: it does not
/// open with a character that a name could go on with.
pub open spec fn joins_cleanly(x: Seq<char>) -> bool {
    x.len() > 0 ==> !CharClass::Name.has(x[0])
}

/// The number of characters that the token that opens `a` gains where `x`
/// follows `a`: those of the white space that opens `x`, where the token is
/// a pipe that takes up all of `a`.
pub open spec fn gain(a: Seq<char>, x: Seq<char>) -> int {
    match read_token(a) {
        Some((SelectorView::PipeBoundary, n)) => if n == a.len() {
            run_len(x, CharClass::Space) as int
        } else {
            0
        },
        _ => 0,
    }
}

/// An index step reads the same whatever follows it.
pub proof fn lemma_read_bracket_before(a: Seq<char>, x: Seq<char>)
    requires
        read_bracket(a) is Some,
    ensures
        read_bracket(a + x) == read_bracket(a),
{
    let s = a + x;
    let n = run_len(a.skip(1), CharClass::Digit) as int;
    assert(s.skip(1) =~= a.skip(1) + x);
    lemma_run_ends_inside(a.skip(1), x, CharClass::Digit);
    assert(s.subrange(1, 1 + n) =~= a.subrange(1, 1 + n));
    assert(s[0] == a[0]);
    assert(s[1 + n] == a[1 + n]);
}

/// The token that opens `a` opens any text made of `a` and an `x` that joins
/// cleanly, and takes up as much of it, but for a pipe at the end of `a`,
/// which also takes the white space that opens `x`.
pub proof fn lemma_read_token_before(a: Seq<char>, x: Seq<char>)
    requires
        read_token(a) is Some,
        joins_cleanly(x),
    ensures
        read_token(a) matches Some((token, n)) && read_token(a + x) == Some(
            (token, n + gain(a, x)),
        ),
{
    let s = a + x;
    assert(s[0] == a[0]);
    if a[0] == '.' {
        if a.len() > 1 && is_name_start(a[1]) {
            let tail = a.skip(1);
            assert(s[1] == a[1]);
            assert(s.skip(1) =~= tail + x);
            let n = run_len(tail, CharClass::Name) as int;
            lemma_run_len_is_run(tail, CharClass::Name);
            if n < tail.len() {
                lemma_run_ends_inside(tail, x, CharClass::Name);
            } else {
                lemma_run_goes_on(tail, x, CharClass::Name);
                assert(run_len(x, CharClass::Name) == 0);
            }
            assert(s.subrange(1, 1 + n) =~= a.subrange(1, 1 + n));
        } else if a.len() > 1 && a[1] == '"' {
            let tail = a.skip(2);
            assert(s[1] == a[1]);
            assert(s.skip(2) =~= tail + x);
            let n = run_len(tail, CharClass::Unquoted) as int;
            lemma_run_ends_inside(tail, x, CharClass::Unquoted);
            assert(s.subrange(2, 2 + n) =~= a.subrange(2, 2 + n));
        } else {
            assert(a.len() > 1);
            assert(s[1] == a[1]);
            assert(s.skip(1) =~= a.skip(1) + x);
            lemma_read_bracket_before(a.skip(1), x);
        }
    } else if a[0] == '[' {
        lemma_read_bracket_before(a, x);
    } else if a[0] == 'l' {
        assert(s.subrange(0, 6) =~= a.subrange(0, 6));
    } else {
        let before = run_len(a, CharClass::Space) as int;
        lemma_run_ends_inside(a, x, CharClass::Space);
        assert(s[before] == a[before]);
        let tail = a.skip(before + 1);
        assert(s.skip(before + 1) =~= tail + x);
        lemma_run_len_is_run(tail, CharClass::Space);
        if run_len(tail, CharClass::Space) < tail.len() {
            lemma_run_ends_inside(tail, x, CharClass::Space);
        } else {
            lemma_run_goes_on(tail, x, CharClass::Space);
        }
    }
}

/// White space in front of a query that opens with it is of no account: the
/// query reads the same without it.
pub proof fn lemma_lex_skips_spaces(x: Seq<char>)
    requires
        lex(x) is Ok,
    ensures
        lex(x.skip(run_len(x, CharClass::Space) as int)) == lex(x),
{
    let k = run_len(x, CharClass::Space) as int;
    lemma_run_len_is_run(x, CharClass::Space);
    if k == 0 {
        assert(x.skip(0) =~= x);
    } else {
        let y = x.skip(k);
        assert(CharClass::Space.has(x[0]));
        assert(y[0] == x[k]);
        assert(is_run(y, CharClass::Space, 0));
        lemma_run_len_unique(y, CharClass::Space, 0);
        assert(y.skip(1) =~= x.skip(k + 1));
        let after = run_len(x.skip(k + 1), CharClass::Space) as int;
        lemma_read_token_bounds(x);
        lemma_read_token_bounds(y);
        assert(y.skip(1 + after) =~= x.skip(k + 1 + after));
    }
}

/// Two queries written one behind the other, the second joining cleanly,
/// read as the tokens of the first followed by the tokens of the second.
pub proof fn lemma_lex_concat(a: Seq<char>, x: Seq<char>)
    requires
        lex(a) is Ok,
        lex(x) is Ok,
        joins_cleanly(x),
    ensures
        lex(a + x) == Ok::<Seq<SelectorView>, int>(lex(a)->Ok_0 + lex(x)->Ok_0),
    decreases a.len(),
{
    if a.len() == 0 {
        assert(a + x =~= x);
        assert(lex(a)->Ok_0 + lex(x)->Ok_0 =~= lex(x)->Ok_0);
    } else {
        let (token, n) = read_token(a)->0;
        lemma_read_token_bounds(a);
        lemma_read_token_before(a, x);
        let s = a + x;
        let g = gain(a, x);
        let rest = lex(a.skip(n))->Ok_0;
        if g == 0 {
            assert(s.skip(n) =~= a.skip(n) + x);
            lemma_lex_concat(a.skip(n), x);
            assert(seq![token] + (rest + lex(x)->Ok_0) =~= (seq![token] + rest) + lex(x)->Ok_0);
        } else {
            assert(a.skip(n).len() == 0);
            assert(s.skip(n + g) =~= x.skip(g));
            lemma_lex_skips_spaces(x);
            assert(rest =~= Seq::<SelectorView>::empty());
            assert(seq![token] + lex(x)->Ok_0 =~= (seq![token] + rest) + lex(x)->Ok_0);
        }
    }
}

/// What resolving `first` and then, from where it arrived, `second` gives.
pub open spec fn resolve_then(
    doc: DocView,
    first: Seq<SelectorView>,
    second: Seq<SelectorView>,
) -> Result<DocView, ResolveFailure> {
    match resolve_spec(doc, first) {
        Ok(value) => resolve_spec(value, second),
        Err(failure) => Err(failure),
    }
}

/// Resolving two runs of steps written one behind the other is resolving
/// the first and then, from where it arrived, the second.
pub proof fn lemma_resolve_concat(doc: DocView, first: Seq<SelectorView>, second: Seq<SelectorView>)
    requires
        forall|i: int| 0 <= i < first.len() ==> !((#[trigger] first[i]) is End),
    ensures
        resolve_spec(doc, first + second) == resolve_then(doc, first, second),
    decreases first.len(),
{
    if first.len() == 0 {
        assert(first + second =~= second);
    } else {
        let whole = first + second;
        assert(whole[0] == first[0]);
        assert(whole.drop_first() =~= first.drop_first() + second);
        assert(!(first[0] is End));
        match step_spec(doc, first[0]) {
            Ok(next) => {
                assert forall|i: int| 0 <= i < first.drop_first().len() implies !((
                #[trigger] first.drop_first()[i]) is End) by {
                    assert(first.drop_first()[i] == first[i + 1]);
                }
                lemma_resolve_concat(next, first.drop_first(), second);
            },
            Err(_) => {},
        }
    }
}

/// Fail-fast: the first step that fails is the outcome, whatever steps
/// follow it.
pub proof fn lemma_fail_fast(doc: DocView, first: Seq<SelectorView>, second: Seq<SelectorView>)
    requires
        forall|i: int| 0 <= i < first.len() ==> !((#[trigger] first[i]) is End),
        resolve_spec(doc, first) is Err,
    ensures
        resolve_spec(doc, first + second) == resolve_spec(doc, first),
{
    lemma_resolve_concat(doc, first, second);
}

/// A pipe boundary changes nothing: a path resolves as it does without it.
pub proof fn lemma_pipe_is_no_step(
    doc: DocView,
    first: Seq<SelectorView>,
    second: Seq<SelectorView>,
)
    requires
        forall|i: int| 0 <= i < first.len() ==> !((#[trigger] first[i]) is End),
    ensures
        resolve_spec(doc, first + seq![SelectorView::PipeBoundary] + second) == resolve_spec(
            doc,
            first + second,
        ),
{
    let piped = seq![SelectorView::PipeBoundary] + second;
    assert(first + seq![SelectorView::PipeBoundary] + second =~= first + piped);
    lemma_resolve_concat(doc, first, piped);
    lemma_resolve_concat(doc, first, second);
    assert(piped.drop_first() =~= second);
}

/// The text ` | `, by which one query is piped into the next.
pub open spec fn pipe_text() -> Seq<char> {
    seq![' ', '|', ' ']
}

/// Dot-chaining and pipe-chaining are the same: where `a` and `.b` are
/// queries, `a.b` and `a | .b` address the same value in every document, or
/// fail in the same way.
pub proof fn lemma_dot_chain_is_pipe_chain(doc: DocView, a: Seq<char>, b: Seq<char>)
    requires
        parse_spec(a) is Ok,
        parse_spec(seq!['.'] + b) is Ok,
    ensures
        query_spec(doc, a + (seq!['.'] + b)) == query_spec(doc, a + pipe_text() + (seq!['.'] + b)),
{
    let x = seq!['.'] + b;
    let first = lex(a)->Ok_0;
    let second = lex(x)->Ok_0;
    assert(x[0] == '.');
    lemma_lex_concat(a, x);
    // ` | .b` reads as a pipe boundary and then `.b`
    let piped = pipe_text() + x;
    assert(piped[0] == ' ' && piped[1] == '|' && piped[2] == ' ' && piped[3] == '.');
    assert(is_run(piped, CharClass::Space, 1));
    lemma_run_len_unique(piped, CharClass::Space, 1);
    assert(piped.skip(2)[0] == ' ' && piped.skip(2)[1] == '.');
    assert(is_run(piped.skip(2), CharClass::Space, 1));
    lemma_run_len_unique(piped.skip(2), CharClass::Space, 1);
    assert(piped.skip(3) =~= x);
    assert(read_token(piped) == Some((SelectorView::PipeBoundary, 3int)));
    assert(lex(piped) == Ok::<Seq<SelectorView>, int>(
        seq![SelectorView::PipeBoundary] + second,
    ));
    lemma_lex_concat(a, piped);
    assert(a + pipe_text() + x =~= a + piped);
    // the two paths differ by the pipe boundary alone
    lemma_lex_has_no_end(a);
    let tail = second.push(SelectorView::End);
    assert((first + second).push(SelectorView::End) =~= first + tail);
    assert((first + (seq![SelectorView::PipeBoundary] + second)).push(SelectorView::End) =~= first
        + seq![SelectorView::PipeBoundary] + tail);
    lemma_pipe_is_no_step(doc, first, tail);
}

/// What is written through a handle is what the same path then reads: where
/// `path` addresses a place in `doc`, it addresses `value` in the document
/// that has `value` written to that place.
pub proof fn lemma_read_after_write(doc: DocView, path: Seq<SelectorView>, value: DocView)
    requires
        resolve_spec(doc, path) is Ok,
        !computes(path),
    ensures
        resolve_spec(replace_spec(doc, path, value), path) == Ok::<DocView, ResolveFailure>(value),
    decreases path.len(),
{
    if path.len() == 0 || path[0] is End {
    } else {
        let rest = path.drop_first();
        match path[0] {
            SelectorView::Field(name) => {
                let child = doc.field(name)->0;
                lemma_read_after_write(child, rest, value);
                lemma_field_of_with_field(doc, name, replace_spec(child, rest, value));
            },
            SelectorView::Index(n) => {
                let child = doc.element(n as int)->0;
                lemma_read_after_write(child, rest, value);
                lemma_element_of_with_element(doc, n as int, replace_spec(child, rest, value));
            },
            SelectorView::PipeBoundary => {
                lemma_read_after_write(doc, rest, value);
            },
            _ => {},
        }
    }
}

/// Writing back what a path reads leaves the document as it was.
pub proof fn lemma_write_back(doc: DocView, path: Seq<SelectorView>)
    requires
        resolve_spec(doc, path) is Ok,
        !computes(path),
    ensures
        replace_spec(doc, path, resolve_spec(doc, path)->Ok_0) == doc,
    decreases path.len(),
{
    if path.len() == 0 || path[0] is End {
    } else {
        let rest = path.drop_first();
        match path[0] {
            SelectorView::Field(name) => {
                lemma_write_back(doc.field(name)->0, rest);
                lemma_with_field_same(doc, name);
            },
            SelectorView::Index(n) => {
                lemma_write_back(doc.element(n as int)->0, rest);
                lemma_with_element_same(doc, n as int);
            },
            SelectorView::PipeBoundary => {
                lemma_write_back(doc, rest);
            },
            _ => {},
        }
    }
}

/// Parsing is a function of the text: two paths parsed from one text are
/// equal token for token, and address the same value in every document.
pub proof fn lemma_parse_is_deterministic(
    text: Seq<char>,
    p: Seq<SelectorView>,
    q: Seq<SelectorView>,
    doc: DocView,
)
    requires
        parse_spec(text) == Ok::<Seq<SelectorView>, int>(p),
        parse_spec(text) == Ok::<Seq<SelectorView>, int>(q),
    ensures
        p == q,
        resolve_spec(doc, p) == resolve_spec(doc, q),
{
}

/// The character that writes the digit `d`.
pub open spec fn digit_char(d: nat) -> char {
    ('0' as int + d) as char
}

/// The decimal digits that write `n`, without leading zeros.
pub open spec fn decimal_digits(n: nat) -> Seq<char>
    decreases n,
{
    if n < 10 {
        seq![digit_char(n)]
    } else {
        decimal_digits(n / 10).push(digit_char(n % 10))
    }
}

/// The selector `.[n]`.
pub open spec fn index_text(n: nat) -> Seq<char> {
    seq!['.', '['] + decimal_digits(n) + seq![']']
}

/// The digits of a number are digits, and they write that number.
pub proof fn lemma_decimal_digits(n: nat)
    ensures
        decimal_digits(n).len() > 0,
        forall|i: int| 0 <= i < decimal_digits(n).len() ==> is_digit(#[trigger] decimal_digits(n)[i]),
        decimal_value(decimal_digits(n)) == n,
    decreases n,
{
    let digits = decimal_digits(n);
    if n < 10 {
        assert(is_digit(digit_char(n)));
        assert(digit_value(digit_char(n)) == n);
        assert(digits.drop_last() =~= Seq::<char>::empty());
        assert(decimal_value(digits.drop_last()) == 0);
    } else {
        let front = decimal_digits(n / 10);
        let last = digit_char(n % 10);
        lemma_decimal_digits(n / 10);
        assert(is_digit(last));
        assert(digit_value(last) == n % 10);
        assert(digits.drop_last() =~= front);
        assert(digits.last() == last);
        assert forall|i: int| 0 <= i < digits.len() implies is_digit(#[trigger] digits[i]) by {
            if i < front.len() {
                assert(digits[i] == front[i]);
            }
        }
    }
}

/// `.[n]` reads as the one step `Index(n)`.
pub proof fn lemma_index_text_parses(n: nat)
    requires
        n <= usize::MAX,
    ensures
        parse_spec(index_text(n)) == Ok::<Seq<SelectorView>, int>(
            seq![SelectorView::Index(n), SelectorView::End],
        ),
{
    let digits = decimal_digits(n);
    let text = index_text(n);
    let k = digits.len() as int;
    lemma_decimal_digits(n);
    assert(text.len() == k + 3);
    assert(text[0] == '.' && text[1] == '[');
    let bracket = text.skip(1);
    assert(bracket[0] == '[');
    let tail = bracket.skip(1);
    assert(tail =~= digits + seq![']']);
    assert forall|i: int| 0 <= i < k implies CharClass::Digit.has(#[trigger] tail[i]) by {
        assert(tail[i] == digits[i]);
    }
    assert(tail[k] == ']');
    assert(is_run(tail, CharClass::Digit, k));
    lemma_run_len_unique(tail, CharClass::Digit, k);
    assert(bracket.subrange(1, 1 + k) =~= digits);
    assert(bracket[1 + k] == ']');
    assert(read_bracket(bracket) == Some((SelectorView::Index(n), k + 2)));
    assert(read_token(text) == Some((SelectorView::Index(n), k + 3)));
    assert(text.skip(k + 3).len() == 0);
    assert(lex(text.skip(k + 3)) == Ok::<Seq<SelectorView>, int>(Seq::empty()));
    assert(seq![SelectorView::Index(n)] + Seq::<SelectorView>::empty() =~= seq![
        SelectorView::Index(n),
    ]);
    assert(seq![SelectorView::Index(n)].push(SelectorView::End) =~= seq![
        SelectorView::Index(n),
        SelectorView::End,
    ]);
}

/// Indexing round trip: against a sequence, `.[n]` gives element `n` where
/// there is one, and else fails with the index and the length.
pub proof fn lemma_index_query(items: Seq<DocView>, n: nat)
    requires
        n <= usize::MAX,
    ensures
        query_spec(DocView::Sequence(items), index_text(n)) == (if n < items.len() {
            Ok::<DocView, QueryFailure>(items[n as int])
        } else {
            Err::<DocView, QueryFailure>(
                QueryFailure::Resolve(
                    ResolveFailure::IndexOutOfRange { requested: n, length: items.len() },
                ),
            )
        }),
{
    lemma_index_text_parses(n);
    let path = seq![SelectorView::Index(n), SelectorView::End];
    assert(path.drop_first() =~= seq![SelectorView::End]);
    assert(path[0] == SelectorView::Index(n));
    if n < items.len() {
        assert(resolve_spec(items[n as int], path.drop_first()) == Ok::<DocView, ResolveFailure>(
            items[n as int],
        ));
    }
}

/// The builtin: `length` gives the number of elements of a sequence, and
/// fails on any other value with the shape that value has.
pub proof fn lemma_length_query(doc: DocView)
    ensures
        query_spec(doc, length_keyword()) == (match doc {
            DocView::Sequence(items) => Ok::<DocView, QueryFailure>(
                DocView::Scalar(ScalarView::Int(items.len() as int)),
            ),
            _ => Err::<DocView, QueryFailure>(
                QueryFailure::Resolve(
                    ResolveFailure::TypeMismatch {
                        expected: Shape::Sequence,
                        actual: doc.shape(),
                    },
                ),
            ),
        }),
{
    let text = length_keyword();
    assert(text.subrange(0, 6) =~= text);
    assert(text[0] == 'l');
    assert(read_token(text) == Some((SelectorView::Builtin(Builtin::Length), 6int)));
    assert(text.skip(6).len() == 0);
    assert(lex(text.skip(6)) == Ok::<Seq<SelectorView>, int>(Seq::empty()));
    let step = SelectorView::Builtin(Builtin::Length);
    assert(seq![step] + Seq::<SelectorView>::empty() =~= seq![step]);
    let path = seq![step].push(SelectorView::End);
    assert(path[0] == step);
    assert(path.drop_first() =~= seq![SelectorView::End]);
    if let DocView::Sequence(items) = doc {
        let count = DocView::Scalar(ScalarView::Int(items.len() as int));
        assert(resolve_spec(count, path.drop_first()) == Ok::<DocView, ResolveFailure>(count));
    }
}

/// What a path addresses in a well-formed document is well formed.
pub proof fn lemma_resolve_well_formed(doc: DocView, path: Seq<SelectorView>)
    requires
        doc.well_formed(),
    ensures
        resolve_spec(doc, path) matches Ok(value) ==> value.well_formed(),
    decreases path.len(),
{
    if path.len() == 0 || path[0] is End {
    } else {
        match step_spec(doc, path[0]) {
            Ok(next) => {
                match path[0] {
                    SelectorView::Field(name) => {
                        let entries = doc->Mapping_0;
                        let i = key_position(entries, name);
                        assert(first_with_key(entries, name, i));
                        assert(entries[i].1.well_formed());
                    },
                    SelectorView::Index(n) => {
                        assert(doc->Sequence_0[n as int].well_formed());
                    },
                    _ => {},
                }
                lemma_resolve_well_formed(next, path.drop_first());
            },
            Err(_) => {},
        }
    }
}

/// Writing a well-formed value to a place of a well-formed document leaves
/// the document well formed.
pub proof fn lemma_replace_well_formed(doc: DocView, path: Seq<SelectorView>, value: DocView)
    requires
        doc.well_formed(),
        value.well_formed(),
    ensures
        replace_spec(doc, path, value).well_formed(),
    decreases path.len(),
{
    if path.len() == 0 || path[0] is End {
    } else {
        let rest = path.drop_first();
        match path[0] {
            SelectorView::Field(name) => {
                if let Some(child) = doc.field(name) {
                    let entries = doc->Mapping_0;
                    let i = key_position(entries, name);
                    assert(first_with_key(entries, name, i));
                    assert(entries[i].1.well_formed());
                    lemma_replace_well_formed(child, rest, value);
                    let written = entries.update(i, (name, replace_spec(child, rest, value)));
                    assert forall|a: int, b: int| 0 <= a < b < written.len() implies (
                    #[trigger] written[a]).0 != (#[trigger] written[b]).0 by {
                        assert(written[a].0 == entries[a].0);
                        assert(written[b].0 == entries[b].0);
                    }
                    assert forall|k: int| 0 <= k < written.len() implies (
                    #[trigger] written[k]).1.well_formed() by {
                        if k != i {
                            assert(written[k] == entries[k]);
                        }
                    }
                }
            },
            SelectorView::Index(n) => {
                if let Some(child) = doc.element(n as int) {
                    let items = doc->Sequence_0;
                    assert(items[n as int].well_formed());
                    lemma_replace_well_formed(child, rest, value);
                    let written = items.update(n as int, replace_spec(child, rest, value));
                    assert forall|k: int| 0 <= k < written.len() implies (
                    #[trigger] written[k]).well_formed() by {
                        if k != n {
                            assert(written[k] == items[k]);
                        }
                    }
                }
            },
            SelectorView::PipeBoundary => {
                lemma_replace_well_formed(doc, rest, value);
            },
            _ => {},
        }
    }
}

} // verus!
