//! Locating a token in the source text for error messages.
use vstd::prelude::*;
use vstd::string::*;
use crate::lexer::Span;
use crate::text::chars_of;

verus! {

broadcast use vstd::string::group_string_axioms;

/// An error message with the place in the source text it points at.
#[derive(Debug, PartialEq, Clone)]
pub struct Diagnostic {
    pub message: String,
    pub line: usize,
    pub col: usize,
    pub line_content: String,
    pub pointer_padding: usize,
    pub pointer_len: usize,
}

/// The number of line feeds in `s`.
pub open spec fn newline_count(s: Seq<char>) -> nat
    decreases s.len(),
{
    if s.len() == 0 {
        0
    } else {
        newline_count(s.drop_last()) + if s.last() == '\n' { 1nat } else { 0nat }
    }
}

/// The index at which the last line of `s` starts: just past its last line feed, or 0.
pub open spec fn line_start(s: Seq<char>) -> nat
    decreases s.len(),
{
    if s.len() == 0 {
        0
    } else if s.last() == '\n' {
        s.len()
    } else {
        line_start(s.drop_last())
    }
}

/// The index of the first line feed at or after `i`, or `s.len()` when there is none.
pub open spec fn line_end(s: Seq<char>, i: int) -> int
    decreases s.len() - i,
{
    if i >= s.len() {
        s.len() as int
    } else if s[i] == '\n' {
        i
    } else {
        line_end(s, i + 1)
    }
}

/// The position `at` is clamped to the end of the text.
pub open spec fn clamp(s: Seq<char>, at: int) -> int {
    if at < s.len() {
        at
    } else {
        s.len() as int
    }
}

/// The 1-based line of character `at` of `s` (the last line when `at` is past the end).
pub open spec fn line_of(s: Seq<char>, at: int) -> int {
    1 + newline_count(s.take(clamp(s, at))) as int
}

/// The 1-based column of character `at` of `s` on its line.
pub open spec fn col_of(s: Seq<char>, at: int) -> int {
    1 + clamp(s, at) - line_start(s.take(clamp(s, at)))
}

/// The text of the line that holds character `at`, without its line feed.
pub open spec fn line_text(s: Seq<char>, at: int) -> Seq<char> {
    let ls = line_start(s.take(clamp(s, at))) as int;
    s.subrange(ls, line_end(s, clamp(s, at)))
}

proof fn lemma_line_start_bounds(s: Seq<char>)
    ensures
        line_start(s) <= s.len(),
        forall|k: int| line_start(s) <= k < s.len() ==> #[trigger] s[k] != '\n',
        newline_count(s) <= s.len(),
    decreases s.len(),
{
    if s.len() > 0 {
        lemma_line_start_bounds(s.drop_last());
        assert forall|k: int| line_start(s) <= k < s.len() implies #[trigger] s[k] != '\n' by {
            if k < s.len() - 1 {
                assert(s.drop_last()[k] == s[k]);
            }
        }
    }
}

proof fn lemma_line_end_bounds(s: Seq<char>, i: int)
    requires
        0 <= i <= s.len(),
    ensures
        i <= line_end(s, i) <= s.len(),
        forall|k: int| i <= k < line_end(s, i) ==> #[trigger] s[k] != '\n',
    decreases s.len() - i,
{
    if i < s.len() && s[i] != '\n' {
        lemma_line_end_bounds(s, i + 1);
    }
}

/// The 1-based line and column of character `char_index` of `code`; an index past the
/// end gives the place just after the last character.
pub fn get_line_col(code: &str, char_index: usize) -> (r: (usize, usize))
    requires
        code@.len() < usize::MAX,
    ensures
        r.0 == line_of(code@, char_index as int),
        r.1 == col_of(code@, char_index as int),
{
    let chars = chars_of(code);
    let ghost s = chars@;
    let mut line: usize = 1;
    let mut col: usize = 1;
    let mut i: usize = 0;
    while i < chars.len() && i != char_index
        invariant
            s == chars@,
            s.len() < usize::MAX,
            i <= s.len(),
            i <= char_index || i == 0,
            line == 1 + newline_count(s.take(i as int)),
            col == 1 + i - line_start(s.take(i as int)),
        decreases s.len() - i,
    {
        proof {
            lemma_line_start_bounds(s.take(i as int));
            assert(s.take(i + 1).drop_last() =~= s.take(i as int));
        }
        if chars[i] == '\n' {
            line = line + 1;
            col = 1;
        } else {
            col = col + 1;
        }
        i = i + 1;
    }
    assert(i == clamp(s, char_index as int));
    (line, col)
}

/// Builds the diagnostic for an error with message `msg` at `span` of `code`: the line
/// and column of the span's start, the text of that line, and a pointer that starts
/// under the span's first character and is as wide as the span (at least 1).
pub fn create_diagnostic(msg: &str, code: &str, span: Span) -> (d: Diagnostic)
    requires
        span.start <= span.end,
        code@.len() < usize::MAX,
    ensures
        d.message@ == msg@,
        d.line == line_of(code@, span.start as int),
        d.col == col_of(code@, span.start as int),
        d.line_content@ == line_text(code@, span.start as int),
        d.pointer_padding == col_of(code@, span.start as int) - 1,
        d.pointer_len == (if span.end - span.start > 1 { span.end - span.start } else { 1 }),
{
    let (line, col) = get_line_col(code, span.start);
    let chars = chars_of(code);
    let ghost s = chars@;
    let ghost k = clamp(s, span.start as int);
    proof {
        lemma_line_start_bounds(s.take(k));
        lemma_line_end_bounds(s, k);
    }
    let first = col - 1;
    let at = if span.start < chars.len() { span.start } else { chars.len() };
    let line_begin = at - first;
    let mut line_stop = at;
    while line_stop < chars.len() && chars[line_stop] != '\n'
        invariant
            s == chars@,
            k <= line_stop <= s.len(),
            line_end(s, k) == line_end(s, line_stop as int),
        decreases s.len() - line_stop,
    {
        line_stop = line_stop + 1;
    }
    let content = code.substring_char(line_begin, line_stop);
    let pointer_len = if span.end - span.start > 1 {
        span.end - span.start
    } else {
        1
    };
    Diagnostic {
        message: String::from_str(msg),
        line,
        col,
        line_content: String::from_str(content),
        pointer_padding: first,
        pointer_len,
    }
}

/// The pointer of a diagnostic stands under the character it reports, and the reported
/// line holds no line feed.
pub proof fn law_diagnostic_points_at_span(code: Seq<char>, at: int)
    requires
        0 <= at < code.len(),
        code[at] != '\n',
    ensures
        0 <= col_of(code, at) - 1 < line_text(code, at).len(),
        line_text(code, at)[col_of(code, at) - 1] == code[at],
        forall|k: int| 0 <= k < line_text(code, at).len() ==> #[trigger] line_text(code, at)[k] != '\n',
{
    lemma_line_start_bounds(code.take(at));
    lemma_line_end_bounds(code, at);
    lemma_line_end_bounds(code, at + 1);
    let ls = line_start(code.take(at)) as int;
    assert forall|k: int| ls <= k < at implies #[trigger] code[k] != '\n' by {
        assert(code.take(at)[k] == code[k]);
    }
    assert(line_end(code, at) > at);
    assert forall|k: int| 0 <= k < line_text(code, at).len() implies #[trigger] line_text(code, at)[k] != '\n' by {
        assert(line_text(code, at)[k] == code[ls + k]);
    }
}

/// `n` copies of `c`.
pub open spec fn repeat_char(c: char, n: nat) -> Seq<char> {
    Seq::new(n, |i: int| c)
}

/// The line drawn under the reported source line: `padding` spaces, then `len` carets.
pub fn pointer_text(padding: usize, len: usize) -> (r: String)
    ensures
        r@ == repeat_char(' ', padding as nat) + repeat_char('^', len as nat),
{
    let mut r = String::new();
    let mut i: usize = 0;
    while i < padding
        invariant
            i <= padding,
            r@ == repeat_char(' ', i as nat),
        decreases padding - i,
    {
        proof {
            reveal_strlit(" ");
        }
        r.append(" ");
        i = i + 1;
        assert(r@ =~= repeat_char(' ', i as nat));
    }
    let mut j: usize = 0;
    while j < len
        invariant
            j <= len,
            r@ == repeat_char(' ', padding as nat) + repeat_char('^', j as nat),
        decreases len - j,
    {
        proof {
            reveal_strlit("^");
        }
        r.append("^");
        j = j + 1;
        assert(r@ =~= repeat_char(' ', padding as nat) + repeat_char('^', j as nat));
    }
    r
}

} // verus!
