//! The parser: from selector text to a path.

use vstd::prelude::*;
use vstd::string::StrSliceExecFns;
use crate::grammar::{
    decimal_value, digit_value, is_digit, is_name_start, is_run, lemma_read_token_bounds,
    lemma_run_len_is_run, lemma_run_len_unique, length_keyword, lex, parse_spec, read_bracket,
    read_token, run_len, CharClass,
};
use crate::selector::{selector_views, Builtin, Path, Selector, SelectorView};

verus! {

/// The selector text is no query: no token can be read at `offset`, counted
/// in characters from the start of the text.
#[derive(Clone, Copy, Debug, PartialEq, Eq, Structural)]
pub struct ParseError {
    pub offset: usize,
}

/// What `tokens`, read from the first `taken` characters, and the outcome
/// `rest` for the characters behind them make together.
spec fn join(tokens: Seq<SelectorView>, taken: int, rest: Result<Seq<SelectorView>, int>)
    -> Result<Seq<SelectorView>, int> {
    match rest {
        Ok(more) => Ok(tokens + more),
        Err(k) => Err(taken + k),
    }
}

/// A longer run of digits writes no smaller number.
proof fn lemma_decimal_value_grows(digits: Seq<char>, n: int)
    requires
        0 <= n <= digits.len(),
    ensures
        decimal_value(digits.subrange(0, n)) <= decimal_value(digits),
    decreases digits.len() - n,
{
    if n < digits.len() {
        let shorter = digits.drop_last();
        lemma_decimal_value_grows(shorter, n);
        assert(shorter.subrange(0, n) =~= digits.subrange(0, n));
    } else {
        assert(digits.subrange(0, n) =~= digits);
    }
}

impl CharClass {
    /// Whether `c` belongs to the class.
    pub fn contains(&self, c: char) -> (r: bool)
        ensures
            r == self.has(c),
    {
        match self {
            CharClass::Name => starts_name(c) || ('0' <= c && c <= '9'),
            CharClass::Digit => '0' <= c && c <= '9',
            CharClass::Space => c == ' ' || c == '\t' || c == '\n' || c == '\r',
            CharClass::Unquoted => c != '"',
        }
    }
}

fn starts_name(c: char) -> (r: bool)
    ensures
        r == is_name_start(c),
{
    ('a' <= c && c <= 'z') || ('A' <= c && c <= 'Z') || c == '_'
}

/// The characters of `text`, in order.
fn chars_of(text: &str) -> (r: Vec<char>)
    ensures
        r@ == text@,
{
    let mut out: Vec<char> = Vec::new();
    for c in it: text.chars()
        invariant
            out@ == it.seq().take(it.index()),
    {
        out.push(c);
    }
    out
}

/// The end of the run of `class` that starts at `start`.
fn scan(chars: &Vec<char>, start: usize, class: CharClass) -> (end: usize)
    requires
        start <= chars.len(),
    ensures
        start <= end <= chars.len(),
        end - start == run_len(chars@.skip(start as int), class),
{
    let mut i: usize = start;
    while i < chars.len() && class.contains(chars[i])
        invariant
            start <= i <= chars.len(),
            forall|j: int| start <= j < i ==> class.has(#[trigger] chars@[j]),
        decreases chars.len() - i,
    {
        i += 1;
    }
    proof {
        let s = chars@.skip(start as int);
        assert forall|j: int| 0 <= j < i - start implies class.has(#[trigger] s[j]) by {
            assert(s[j] == chars@[start + j]);
        }
        assert(is_run(s, class, i - start));
        lemma_run_len_unique(s, class, i - start);
    }
    i
}

/// The value of the decimal digit `c`.
fn digit_of(c: char) -> (r: usize)
    requires
        is_digit(c),
    ensures
        r == digit_value(c),
{
    (c as u32 - '0' as u32) as usize
}

/// The number written by the digits from `start` up to `end`, where it fits.
fn decimal_of(chars: &Vec<char>, start: usize, end: usize) -> (r: Option<usize>)
    requires
        start <= end <= chars.len(),
        forall|j: int| start <= j < end ==> is_digit(#[trigger] chars@[j]),
    ensures
        match r {
            Some(v) => v == decimal_value(chars@.subrange(start as int, end as int)),
            None => decimal_value(chars@.subrange(start as int, end as int)) > usize::MAX,
        },
{
    let ghost digits = chars@.subrange(start as int, end as int);
    let mut acc: usize = 0;
    let mut i: usize = start;
    while i < end
        invariant
            start <= i <= end <= chars.len(),
            digits == chars@.subrange(start as int, end as int),
            forall|j: int| start <= j < end ==> is_digit(#[trigger] chars@[j]),
            acc == decimal_value(chars@.subrange(start as int, i as int)),
        decreases end - i,
    {
        let d = digit_of(chars[i]);
        proof {
            let longer = chars@.subrange(start as int, i + 1);
            assert(longer.drop_last() =~= chars@.subrange(start as int, i as int));
            assert(longer.last() == chars@[i as int]);
            assert(longer =~= digits.subrange(0, i + 1 - start));
            lemma_decimal_value_grows(digits, i + 1 - start);
        }
        match acc.checked_mul(10) {
            Some(tens) => match tens.checked_add(d) {
                Some(sum) => {
                    acc = sum;
                },
                None => {
                    return None;
                },
            },
            None => {
                return None;
            },
        }
        i += 1;
    }
    Some(acc)
}

/// The index step that opens the text at `pos`, with the position behind it.
fn read_index(chars: &Vec<char>, pos: usize) -> (r: Option<(Selector, usize)>)
    requires
        pos < chars.len(),
    ensures
        match read_bracket(chars@.skip(pos as int)) {
            Some((token, n)) => r matches Some((selector, next)) && selector@ == token && next
                == pos + n,
            None => r is None,
        },
{
    let ghost s = chars@.skip(pos as int);
    if chars[pos] != '[' {
        return None;
    }
    let end = scan(chars, pos + 1, CharClass::Digit);
    proof {
        assert(s.skip(1) =~= chars@.skip(pos + 1));
        assert(s.subrange(1, 1 + (end - pos - 1)) =~= chars@.subrange(pos + 1, end as int));
        lemma_run_len_is_run(s.skip(1), CharClass::Digit);
        assert forall|j: int| pos + 1 <= j < end implies is_digit(#[trigger] chars@[j]) by {
            assert(chars@[j] == s.skip(1)[j - pos - 1]);
        }
    }
    if end == pos + 1 || end >= chars.len() {
        return None;
    }
    if chars[end] != ']' {
        return None;
    }
    match decimal_of(chars, pos + 1, end) {
        Some(value) => Some((Selector::Index(value), end + 1)),
        None => None,
    }
}

/// The field name that the characters from `start` up to `end` spell.
fn name_of(text: &str, start: usize, end: usize) -> (r: String)
    requires
        start <= end <= text@.len(),
    ensures
        r@ == text@.subrange(start as int, end as int),
{
    text.substring_char(start, end).to_owned()
}

/// The token that opens the text at `pos`, with the position behind it.
fn next_token(text: &str, chars: &Vec<char>, pos: usize) -> (r: Option<(Selector, usize)>)
    requires
        chars@ == text@,
        pos < chars.len(),
    ensures
        match read_token(chars@.skip(pos as int)) {
            Some((token, n)) => r matches Some((selector, next)) && selector@ == token && next
                == pos + n,
            None => r is None,
        },
{
    let ghost s = chars@.skip(pos as int);
    let len = chars.len();
    let c = chars[pos];
    assert(s[0] == c);
    if c == '.' {
        if pos + 1 < len && starts_name(chars[pos + 1]) {
            let end = scan(chars, pos + 1, CharClass::Name);
            proof {
                assert(s[1] == chars@[pos + 1]);
                assert(s.skip(1) =~= chars@.skip(pos + 1));
                assert(s.subrange(1, 1 + (end - pos - 1)) =~= chars@.subrange(
                    pos + 1,
                    end as int,
                ));
            }
            Some((Selector::Field(name_of(text, pos + 1, end)), end))
        } else if pos + 1 < len && chars[pos + 1] == '"' {
            let end = scan(chars, pos + 2, CharClass::Unquoted);
            proof {
                assert(s[1] == chars@[pos + 1]);
                assert(s.skip(2) =~= chars@.skip(pos + 2));
                assert(s.subrange(2, 2 + (end - pos - 2)) =~= chars@.subrange(
                    pos + 2,
                    end as int,
                ));
            }
            if end < len {
                Some((Selector::Field(name_of(text, pos + 2, end)), end + 1))
            } else {
                None
            }
        } else if pos + 1 < len {
            proof {
                assert(s[1] == chars@[pos + 1]);
                assert(s.skip(1) =~= chars@.skip(pos + 1));
            }
            read_index(chars, pos + 1)
        } else {
            None
        }
    } else if c == '[' {
        read_index(chars, pos)
    } else if c == 'l' {
        if len - pos >= 6 && chars[pos + 1] == 'e' && chars[pos + 2] == 'n' && chars[pos + 3]
            == 'g' && chars[pos + 4] == 't' && chars[pos + 5] == 'h' {
            proof {
                assert(s.subrange(0, 6) =~= length_keyword());
            }
            Some((Selector::Builtin(Builtin::Length), pos + 6))
        } else {
            proof {
                if s.len() >= 6 {
                    let head = s.subrange(0, 6);
                    assert(head[1] == s[1] && head[2] == s[2] && head[3] == s[3] && head[4]
                        == s[4] && head[5] == s[5]);
                }
            }
            None
        }
    } else {
        let bar = scan(chars, pos, CharClass::Space);
        if bar < len && chars[bar] == '|' {
            let end = scan(chars, bar + 1, CharClass::Space);
            proof {
                assert(s[bar - pos] == chars@[bar as int]);
                assert(s.skip(bar - pos + 1) =~= chars@.skip(bar + 1));
            }
            Some((Selector::PipeBoundary, end))
        } else {
            proof {
                if bar < len {
                    assert(s[bar - pos] == chars@[bar as int]);
                }
            }
            None
        }
    }
}

/// Parses a selector into a path.
///
/// The result is the path that the grammar gives the text, its tokens in
/// the order they are written and `End` behind them; where the text is no
/// query, the error holds the offset of the first character at which no
/// token can be read, and no part of a path is returned.
pub fn parse_path(text: &str) -> (r: Result<Path, ParseError>)
    ensures
        match parse_spec(text@) {
            Ok(tokens) => r matches Ok(path) && path@ == tokens,
            Err(k) => r matches Err(e) && e.offset == k,
        },
{
    let chars = chars_of(text);
    let mut steps: Vec<Selector> = Vec::new();
    let mut pos: usize = 0;
    proof {
        assert(chars@.skip(0) =~= chars@);
        match lex(chars@) {
            Ok(more) => {
                assert(selector_views(steps@) + more =~= more);
            },
            Err(_) => {},
        }
    }
    while pos < chars.len()
        invariant
            chars@ == text@,
            pos <= chars.len(),
            forall|i: int| 0 <= i < steps.len() ==> !((#[trigger] steps@[i])@ is End),
            lex(chars@) == join(selector_views(steps@), pos as int, lex(chars@.skip(pos as int))),
        decreases chars.len() - pos,
    {
        let ghost s = chars@.skip(pos as int);
        let ghost before = selector_views(steps@);
        proof {
            lemma_read_token_bounds(s);
        }
        match next_token(text, &chars, pos) {
            Some((selector, next)) => {
                proof {
                    let (token, n) = read_token(s)->0;
                    assert(s.skip(n) =~= chars@.skip(next as int));
                    assert(selector_views(steps@.push(selector)) =~= before + seq![token]);
                    match lex(s.skip(n)) {
                        Ok(more) => {
                            assert(before + (seq![token] + more) =~= (before + seq![token]) + more);
                        },
                        Err(_) => {},
                    }
                }
                steps.push(selector);
                pos = next;
            },
            None => {
                return Err(ParseError { offset: pos });
            },
        }
    }
    proof {
        assert(chars@.skip(pos as int).len() == 0);
        assert(selector_views(steps@) + Seq::<SelectorView>::empty() =~= selector_views(steps@));
    }
    Ok(Path::from_steps(steps))
}

} // verus!
