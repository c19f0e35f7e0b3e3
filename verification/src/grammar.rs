//! The selector grammar, stated over sequences of characters.
//!
//! ```text
//! query   := ( step | pipe )*
//! step    := "." name | "." quoted | "[" digits "]" | "." "[" digits "]" | "length"
//! pipe    := space* "|" space*
//! name    := [A-Za-z_][A-Za-z0-9_]*
//! quoted  := '"' any character but '"', any number of times '"'
//! digits  := [0-9]+
//! space   := ' ' | tab | line feed | carriage return
//! ```
//!
//! White space is read only next to a `|`; anywhere else it ends the query
//! with an error. A quoted name has no escapes. A run of digits whose value
//! does not fit in `usize` is no index.

use vstd::prelude::*;
use crate::selector::{Builtin, SelectorView};

verus! {

/// A class of characters that a run can be made of.
#[derive(Clone, Copy, Debug, PartialEq, Eq, Structural)]
pub enum CharClass {
    /// A letter, a digit or `_`.
    Name,
    /// A decimal digit.
    Digit,
    /// A space, a tab, a line feed or a carriage return.
    Space,
    /// Anything but `"`.
    Unquoted,
}

pub open spec fn is_digit(c: char) -> bool {
    '0' <= c <= '9'
}

pub open spec fn is_name_start(c: char) -> bool {
    ('a' <= c <= 'z') || ('A' <= c <= 'Z') || c == '_'
}

impl CharClass {
    pub open spec fn has(self, c: char) -> bool {
        match self {
            CharClass::Name => is_name_start(c) || is_digit(c),
            CharClass::Digit => is_digit(c),
            CharClass::Space => c == ' ' || c == '\t' || c == '\n' || c == '\r',
            CharClass::Unquoted => c != '"',
        }
    }
}

/// The length of the longest prefix of `s` made of characters of `class`.
pub open spec fn run_len(s: Seq<char>, class: CharClass) -> nat
    decreases s.len(),
{
    if s.len() > 0 && class.has(s[0]) {
        1 + run_len(s.drop_first(), class)
    } else {
        0
    }
}

/// `n` characters of `class` open `s`, and the run ends there.
pub open spec fn is_run(s: Seq<char>, class: CharClass, n: int) -> bool {
    &&& 0 <= n <= s.len()
    &&& forall|i: int| 0 <= i < n ==> class.has(#[trigger] s[i])
    &&& n < s.len() ==> !class.has(s[n])
}

pub open spec fn digit_value(c: char) -> nat {
    (c as int - '0' as int) as nat
}

/// The number that a run of decimal digits writes.
pub open spec fn decimal_value(digits: Seq<char>) -> nat
    decreases digits.len(),
{
    if digits.len() == 0 {
        0
    } else {
        10 * decimal_value(digits.drop_last()) + digit_value(digits.last())
    }
}

/// The name of the one builtin.
pub open spec fn length_keyword() -> Seq<char> {
    seq!['l', 'e', 'n', 'g', 't', 'h']
}

/// `.name`: a field step named by an identifier.
pub open spec fn read_name(s: Seq<char>) -> Option<(SelectorView, int)> {
    let n = run_len(s.skip(1), CharClass::Name) as int;
    if s.len() > 1 && s[0] == '.' && is_name_start(s[1]) {
        Some((SelectorView::Field(s.subrange(1, 1 + n)), 1 + n))
    } else {
        None
    }
}

/// `."name"`: a field step named by a quoted string.
pub open spec fn read_quoted(s: Seq<char>) -> Option<(SelectorView, int)> {
    let n = run_len(s.skip(2), CharClass::Unquoted) as int;
    if s.len() > 1 && s[0] == '.' && s[1] == '"' && 2 + n < s.len() {
        Some((SelectorView::Field(s.subrange(2, 2 + n)), n + 3))
    } else {
        None
    }
}

/// `[digits]`: an index step.
pub open spec fn read_bracket(s: Seq<char>) -> Option<(SelectorView, int)> {
    let n = run_len(s.skip(1), CharClass::Digit) as int;
    let value = decimal_value(s.subrange(1, 1 + n));
    if s.len() > 0 && s[0] == '[' && n > 0 && 1 + n < s.len() && s[1 + n] == ']' && value
        <= usize::MAX {
        Some((SelectorView::Index(value), n + 2))
    } else {
        None
    }
}

/// `length`: the builtin.
pub open spec fn read_builtin(s: Seq<char>) -> Option<(SelectorView, int)> {
    if s.len() >= 6 && s.subrange(0, 6) == length_keyword() {
        Some((SelectorView::Builtin(Builtin::Length), 6))
    } else {
        None
    }
}

/// `|` with the white space on both sides of it.
pub open spec fn read_pipe(s: Seq<char>) -> Option<(SelectorView, int)> {
    let before = run_len(s, CharClass::Space) as int;
    let after = run_len(s.skip(before + 1), CharClass::Space) as int;
    if before < s.len() && s[before] == '|' {
        Some((SelectorView::PipeBoundary, before + 1 + after))
    } else {
        None
    }
}

/// The token that opens `s`, with the number of characters it takes up.
pub open spec fn read_token(s: Seq<char>) -> Option<(SelectorView, int)> {
    if s.len() == 0 {
        None
    } else if s[0] == '.' {
        if s.len() > 1 && is_name_start(s[1]) {
            read_name(s)
        } else if s.len() > 1 && s[1] == '"' {
            read_quoted(s)
        } else {
            match read_bracket(s.skip(1)) {
                Some((token, n)) => Some((token, n + 1)),
                None => None,
            }
        }
    } else if s[0] == '[' {
        read_bracket(s)
    } else if s[0] == 'l' {
        read_builtin(s)
    } else {
        read_pipe(s)
    }
}

/// The tokens that `s` is made of, or the offset in `s` at which no token
/// can be read.
pub open spec fn lex(s: Seq<char>) -> Result<Seq<SelectorView>, int>
    decreases s.len(),
{
    if s.len() == 0 {
        Ok(Seq::empty())
    } else {
        match read_token(s) {
            Some((token, n)) => {
                proof {
                    lemma_read_token_bounds(s);
                }
                match lex(s.skip(n)) {
                    Ok(rest) => Ok(seq![token] + rest),
                    Err(k) => Err(n + k),
                }
            },
            None => Err(0),
        }
    }
}

/// The path that `text` writes: its tokens, then `End`; or the offset of the
/// first character at which no token can be read.
pub open spec fn parse_spec(text: Seq<char>) -> Result<Seq<SelectorView>, int> {
    match lex(text) {
        Ok(tokens) => Ok(tokens.push(SelectorView::End)),
        Err(k) => Err(k),
    }
}

/// What `run_len` gives is the length of the run that opens `s`.
pub proof fn lemma_run_len_is_run(s: Seq<char>, class: CharClass)
    ensures
        is_run(s, class, run_len(s, class) as int),
    decreases s.len(),
{
    if s.len() > 0 && class.has(s[0]) {
        let t = s.drop_first();
        lemma_run_len_is_run(t, class);
        let n = run_len(s, class);
        assert forall|i: int| 0 <= i < n implies class.has(#[trigger] s[i]) by {
            if i > 0 {
                assert(s[i] == t[i - 1]);
            }
        }
        if n < s.len() {
            assert(s[n as int] == t[n - 1]);
        }
    }
}

/// Only one length is that of the run that opens `s`.
pub proof fn lemma_run_len_unique(s: Seq<char>, class: CharClass, n: int)
    requires
        is_run(s, class, n),
    ensures
        run_len(s, class) == n,
    decreases s.len(),
{
    if n > 0 {
        let t = s.drop_first();
        assert(class.has(s[0]));
        assert forall|i: int| 0 <= i < n - 1 implies class.has(#[trigger] t[i]) by {
            assert(t[i] == s[i + 1]);
        }
        if n - 1 < t.len() {
            assert(t[n - 1] == s[n]);
        }
        lemma_run_len_unique(t, class, n - 1);
    }
}

/// A token takes up at least one character and no more than there are.
pub proof fn lemma_read_token_bounds(s: Seq<char>)
    ensures
        match read_token(s) {
            Some((_, n)) => 0 < n <= s.len(),
            None => true,
        },
{
    if s.len() > 0 {
        lemma_run_len_is_run(s.skip(1), CharClass::Name);
        lemma_run_len_is_run(s.skip(1), CharClass::Digit);
        lemma_run_len_is_run(s, CharClass::Space);
        if s.len() > 1 {
            lemma_run_len_is_run(s.skip(2), CharClass::Unquoted);
            lemma_run_len_is_run(s.skip(1).skip(1), CharClass::Digit);
        }
        let before = run_len(s, CharClass::Space) as int;
        if before < s.len() {
            lemma_run_len_is_run(s.skip(before + 1), CharClass::Space);
        }
    }
}

} // verus!
