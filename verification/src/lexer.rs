//! Turning Flap source text into tokens.
use vstd::prelude::*;
use crate::text::{is_digit, digit_value, is_space, char_is_digit, char_is_space, chars_of};

verus! {

/// Location of a token in the source text: character indices `start..end`.
#[derive(Debug, PartialEq, Eq, Clone, Copy, Structural)]
pub struct Span {
    pub start: usize,
    pub end: usize,
}

/// A token of Flap source: a decimal integer literal or a one-character command.
#[derive(Debug, PartialEq, Eq, Clone, Structural)]
pub enum Token {
    Integer(i64, Span),
    Command(char, Span),
}

impl Token {
    /// The span of the token, whatever its kind.
    pub open spec fn spec_span(self) -> Span {
        match self {
            Token::Integer(_, span) => span,
            Token::Command(_, span) => span,
        }
    }

    /// Where the token stands in the source text.
    pub fn span(&self) -> (r: Span)
        ensures
            r == self.spec_span(),
    {
        match self {
            Token::Integer(_, span) => *span,
            Token::Command(_, span) => *span,
        }
    }
}

/// The index just past the run of ASCII digits that starts at `i`.
pub open spec fn digit_run_end(s: Seq<char>, i: int) -> int
    decreases s.len() - i,
{
    if 0 <= i < s.len() && is_digit(s[i]) {
        digit_run_end(s, i + 1)
    } else {
        i
    }
}

/// The value of the decimal digits `s[i..j]`.
pub open spec fn digits_value(s: Seq<char>, i: int, j: int) -> int
    decreases j - i,
{
    if j <= i {
        0
    } else {
        digits_value(s, i, j - 1) * 10 + digit_value(s[j - 1])
    }
}

/// The index of the first `=` at or after `i`, or `s.len()` when there is none.
pub open spec fn next_equals(s: Seq<char>, i: int) -> int
    decreases s.len() - i,
{
    if i >= s.len() {
        s.len() as int
    } else if s[i] == '=' {
        i
    } else {
        next_equals(s, i + 1)
    }
}

/// Where scanning resumes after a comment whose opening `=` is at `i`: just past the
/// closing `=`, or the end of the text when the comment is never closed.
pub open spec fn comment_resume(s: Seq<char>, i: int) -> int {
    let k = next_equals(s, i + 1);
    if k < s.len() {
        k + 1
    } else {
        s.len() as int
    }
}

/// The one-character command token for `s[i]`.
pub open spec fn command_at(s: Seq<char>, i: int) -> Token {
    Token::Command(s[i], Span { start: i as usize, end: (i + 1) as usize })
}

/// The tokens of `s[i..]`, scanning left to right:
/// - a run of ASCII digits is one integer literal; a run whose value exceeds `i64::MAX`
///   yields no token;
/// - `,` and white space separate and yield nothing;
/// - `=` opens a comment that the next `=` closes; it yields nothing;
/// - any other character is a one-character command.
pub open spec fn lex_from(s: Seq<char>, i: int) -> Seq<Token>
    decreases s.len() - i,
    via lex_from_decreases
{
    if i < 0 || i >= s.len() {
        Seq::empty()
    } else {
        let c = s[i];
        if is_digit(c) {
            let j = digit_run_end(s, i);
            let rest = lex_from(s, j);
            let v = digits_value(s, i, j);
            if v <= i64::MAX {
                seq![Token::Integer(v as i64, Span { start: i as usize, end: j as usize })] + rest
            } else {
                rest
            }
        } else if c == ',' {
            lex_from(s, i + 1)
        } else if c == '=' {
            lex_from(s, comment_resume(s, i))
        } else if is_space(c) {
            lex_from(s, i + 1)
        } else {
            seq![command_at(s, i)] + lex_from(s, i + 1)
        }
    }
}

#[via_fn]
proof fn lex_from_decreases(s: Seq<char>, i: int) {
    if 0 <= i < s.len() {
        lemma_digit_run_end_bounds(s, i + 1);
        lemma_next_equals_bounds(s, i + 1);
    }
}

/// The tokens of the whole text `s`.
pub open spec fn lex_spec(s: Seq<char>) -> Seq<Token> {
    lex_from(s, 0)
}

pub proof fn lemma_digit_run_end_bounds(s: Seq<char>, i: int)
    requires
        0 <= i <= s.len(),
    ensures
        i <= digit_run_end(s, i) <= s.len(),
        forall|k: int| i <= k < digit_run_end(s, i) ==> #[trigger] is_digit(s[k]),
        digit_run_end(s, i) < s.len() ==> !is_digit(s[digit_run_end(s, i)]),
    decreases s.len() - i,
{
    if i < s.len() && is_digit(s[i]) {
        lemma_digit_run_end_bounds(s, i + 1);
    }
}

pub proof fn lemma_next_equals_bounds(s: Seq<char>, i: int)
    requires
        0 <= i,
    ensures
        i <= next_equals(s, i) || next_equals(s, i) == s.len(),
        next_equals(s, i) <= s.len() || i > s.len(),
        next_equals(s, i) < s.len() ==> s[next_equals(s, i)] == '=',
        forall|k: int| i <= k < next_equals(s, i) ==> #[trigger] s[k] != '=',
    decreases s.len() - i,
{
    if i < s.len() && s[i] != '=' {
        lemma_next_equals_bounds(s, i + 1);
    }
}

proof fn lemma_digits_value_nonneg(s: Seq<char>, i: int, j: int)
    requires
        forall|k: int| i <= k < j ==> #[trigger] is_digit(s[k]),
    ensures
        digits_value(s, i, j) >= 0,
        digits_value(s, i, j + 1) >= digits_value(s, i, j) || j < i || !is_digit(s[j]),
    decreases j - i,
{
    if j > i {
        lemma_digits_value_nonneg(s, i, j - 1);
    }
}

/// Splits Flap source text into tokens, as `lex_spec` describes.
pub fn lex(input: &str) -> (tokens: Vec<Token>)
    requires
        input@.len() < usize::MAX,
    ensures
        tokens@ == lex_spec(input@),
{
    let chars = chars_of(input);
    let ghost s = chars@;
    let n = chars.len();
    let mut tokens: Vec<Token> = Vec::new();
    let mut i: usize = 0;
    while i < n
        invariant
            s == chars@,
            s == input@,
            n == s.len(),
            n < usize::MAX,
            i <= n,
            tokens@ + lex_from(s, i as int) == lex_from(s, 0),
        decreases n - i,
    {
        let c = chars[i];
        let start = i;
        let ghost before = tokens@;
        if char_is_digit(c) {
            let mut value: i64 = 0;
            let mut too_big = false;
            proof {
                lemma_digit_run_end_bounds(s, start as int);
            }
            while i < n && char_is_digit(chars[i])
                invariant
                    s == chars@,
                    n == s.len(),
                    start <= i <= n,
                    i <= digit_run_end(s, start as int),
                    digit_run_end(s, start as int) <= n,
                    forall|k: int| start <= k < digit_run_end(s, start as int) ==> #[trigger] is_digit(s[k]),
                    digit_run_end(s, start as int) < n ==> !is_digit(s[digit_run_end(s, start as int)]),
                    !too_big ==> value == digits_value(s, start as int, i as int),
                    too_big ==> digits_value(s, start as int, i as int) > i64::MAX,
                decreases n - i,
            {
                proof {
                    lemma_digits_value_nonneg(s, start as int, i as int);
                }
                let d = (chars[i] as u32 - '0' as u32) as i64;
                if !too_big {
                    if value > (i64::MAX - d) / 10 {
                        too_big = true;
                        assert(value * 10 + d > i64::MAX) by (nonlinear_arith)
                            requires
                                value > (i64::MAX - d) / 10,
                                0 <= d <= 9,
                        ;
                    } else {
                        assert(value * 10 + d <= i64::MAX) by (nonlinear_arith)
                            requires
                                value <= (i64::MAX - d) / 10,
                                0 <= d <= 9,
                                value >= 0,
                        ;
                        value = value * 10 + d;
                    }
                } else {
                    assert(digits_value(s, start as int, i + 1) >= digits_value(s, start as int, i as int));
                }
                i = i + 1;
            }
            assert(i == digit_run_end(s, start as int));
            proof {
                lemma_digits_value_nonneg(s, start as int, i as int);
            }
            if !too_big {
                tokens.push(Token::Integer(value, Span { start, end: i }));
                assert(lex_from(s, start as int) == seq![Token::Integer(value, Span { start, end: i })]
                    + lex_from(s, i as int));
                assert(tokens@ + lex_from(s, i as int) =~= before + lex_from(s, start as int));
            } else {
                assert(lex_from(s, start as int) == lex_from(s, i as int));
            }
        } else if c == ',' {
            i = i + 1;
        } else if c == '=' {
            i = i + 1;
            proof {
                lemma_next_equals_bounds(s, i as int);
            }
            while i < n && chars[i] != '='
                invariant
                    s == chars@,
                    n == s.len(),
                    start < i <= n,
                    i <= next_equals(s, start + 1),
                    next_equals(s, start + 1) <= n,
                    next_equals(s, start + 1) < n ==> s[next_equals(s, start + 1)] == '=',
                    forall|k: int| start + 1 <= k < next_equals(s, start + 1) ==> #[trigger] s[k] != '=',
                decreases n - i,
            {
                i = i + 1;
            }
            if i < n {
                i = i + 1;
            }
            assert(i == comment_resume(s, start as int));
        } else if char_is_space(c) {
            i = i + 1;
        } else {
            tokens.push(Token::Command(c, Span { start, end: i + 1 }));
            i = i + 1;
            assert(command_at(s, start as int) == Token::Command(c, Span { start, end: i }));
            assert(lex_from(s, start as int) == seq![Token::Command(c, Span { start, end: i })]
                + lex_from(s, i as int));
            assert(tokens@ + lex_from(s, i as int) =~= before + lex_from(s, start as int));
        }
    }
    assert(tokens@ + lex_from(s, n as int) =~= tokens@);
    tokens
}

} // verus!
