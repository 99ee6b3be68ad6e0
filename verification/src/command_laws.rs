//! What single commands do, stated through the inputs and results of a whole step: loop
//! brackets, division, reversal, character output and number input.
use vstd::prelude::*;
use vstd::arithmetic::div_mod::{
    lemma_fundamental_div_mod, lemma_mod_pos_bound, lemma_div_pos_is_pos,
    lemma_div_is_ordered_by_denominator, lemma_div_is_strictly_smaller,
};
use crate::lexer::Token;
use crate::semantics::{
    Machine, Outcome, command, step_spec, set_awaiting, finish_step, deepen, is_command,
    match_backward, match_forward, below, drop_top, trunc_div, trunc_rem, skip_spaces, find_space,
    find_newline,
};
use crate::interpreter::{ExecutionResult, InputEnd};
use crate::laws::{runs_token, token_state};
use crate::text::{numeral_value, is_numeral, parse_i64_spec};

verus! {

/// The step from `m` when it runs the command `c`: what the command does, then the checks
/// on the stack's limit and the move to the next token.
proof fn lemma_command_step(m: Machine, t: Seq<Token>, late: bool, c: char)
    requires
        runs_token(m, t, late),
        is_command(t[m.pc as int], c),
    ensures
        step_spec(m, t, late) == match command(token_state(m), c, t) {
            Outcome::Wait => (set_awaiting(token_state(m), true), ExecutionResult::AwaitingInput),
            Outcome::Fail(m2, e) => (m2, ExecutionResult::RuntimeError(e)),
            Outcome::Done(m2) => if m2.stack.len() > m2.max_stack_size {
                (m2, ExecutionResult::MemoryLimitExceeded)
            } else {
                finish_step(deepen(m2), t)
            },
        },
{
}

// ---------------------------------------------------------------------------------------
// Brackets

/// `+1` for the opening bracket `open`, `-1` for the closing one, 0 for any other token.
pub open spec fn bracket_delta(tok: Token, open: char, close: char) -> int {
    if is_command(tok, open) {
        1
    } else if is_command(tok, close) {
        -1
    } else {
        0
    }
}

/// Opening minus closing brackets among the tokens `t[lo..hi]`.
pub open spec fn bracket_count(t: Seq<Token>, lo: int, hi: int, open: char, close: char) -> int
    decreases hi - lo,
{
    if hi <= lo {
        0
    } else {
        bracket_count(t, lo, hi - 1, open, close) + bracket_delta(t[hi - 1], open, close)
    }
}

/// The tokens `t[lo..hi]` are bracket-balanced: as many closing as opening brackets, and no
/// prefix that closes more than it opened.
pub open spec fn balanced(t: Seq<Token>, lo: int, hi: int, open: char, close: char) -> bool {
    &&& bracket_count(t, lo, hi, open, close) == 0
    &&& forall|k: int| lo <= k <= hi ==> #[trigger] bracket_count(t, lo, k, open, close) >= 0
}

proof fn lemma_scan_back(t: Seq<Token>, i: int, j: int, k: int)
    requires
        0 <= i <= k < j <= t.len(),
        is_command(t[i], '['),
        balanced(t, i + 1, j, '[', ']'),
    ensures
        match_backward(t, k, ']', '[', (1 + bracket_count(t, i + 1, k + 1, '[', ']')) as nat)
            == Some(i as nat),
    decreases k - i,
{
    assert(bracket_count(t, i + 1, k + 1, '[', ']') >= 0);
    if k > i {
        assert(bracket_count(t, i + 1, k, '[', ']') >= 0);
        lemma_scan_back(t, i, j, k - 1);
    }
}

proof fn lemma_scan_forward(t: Seq<Token>, i: int, j: int, k: int, open: char, close: char)
    requires
        0 <= i < k <= j < t.len(),
        open != close,
        is_command(t[j], close),
        balanced(t, i + 1, j, open, close),
    ensures
        match_forward(t, k, open, close, (1 + bracket_count(t, i + 1, k, open, close)) as nat)
            == Some(j as nat),
    decreases j - k,
{
    assert(bracket_count(t, i + 1, k, open, close) >= 0);
    if k < j {
        assert(bracket_count(t, i + 1, k + 1, open, close) >= 0);
        lemma_scan_forward(t, i, j, k + 1, open, close);
    }
}

/// At a `]` whose loop runs again (a non-zero top), the step goes to just after the `[`
/// that opens the loop: for a program holding `[ A ]` with `A` bracket-balanced, the
/// program counter lands on the first token of `A`, whatever loops `A` holds. The stack is
/// left as it was.
pub proof fn law_loop_end_goes_back_to_its_open(m: Machine, t: Seq<Token>, late: bool, i: int)
    requires
        runs_token(m, t, late),
        0 <= i < m.pc,
        is_command(t[i], '['),
        is_command(t[m.pc as int], ']'),
        balanced(t, i + 1, m.pc as int, '[', ']'),
        m.stack.len() > 0,
        m.stack.last() != 0,
        m.stack.len() <= m.max_stack_size,
    ensures
        step_spec(m, t, late).1 is Running,
        step_spec(m, t, late).0.pc == i + 1,
        step_spec(m, t, late).0.stack == m.stack,
{
    lemma_command_step(m, t, late, ']');
    lemma_scan_back(t, i, m.pc as int, m.pc - 1);
}

/// At a `[` whose loop is skipped (a zero top), the step goes to just after the `]` that
/// closes it: for `[ A ]` with `A` bracket-balanced, past the whole loop. The top is kept.
pub proof fn law_loop_start_skips_to_its_close(m: Machine, t: Seq<Token>, late: bool, j: int)
    requires
        runs_token(m, t, late),
        m.pc < j < t.len(),
        is_command(t[m.pc as int], '['),
        is_command(t[j], ']'),
        balanced(t, m.pc + 1int, j, '[', ']'),
        m.stack.len() > 0,
        m.stack.last() == 0,
        m.stack.len() <= m.max_stack_size,
    ensures
        step_spec(m, t, late).0.pc == j + 1,
        step_spec(m, t, late).0.stack == m.stack,
        step_spec(m, t, late).1 == (if j + 1 < t.len() {
            ExecutionResult::Running
        } else {
            ExecutionResult::Success
        }),
{
    lemma_command_step(m, t, late, '[');
    lemma_scan_forward(t, m.pc as int, j, m.pc + 1int, '[', ']');
}

/// At a `(` whose condition is zero, the step pops the condition and goes to just after
/// the `)` that closes the block: for `( A )` with `A` balanced in parentheses.
pub proof fn law_if_skips_to_its_close(m: Machine, t: Seq<Token>, late: bool, j: int)
    requires
        runs_token(m, t, late),
        m.pc < j < t.len(),
        is_command(t[m.pc as int], '('),
        is_command(t[j], ')'),
        balanced(t, m.pc + 1int, j, '(', ')'),
        m.stack.len() > 0,
        m.stack.last() == 0,
        m.stack.len() <= m.max_stack_size + 1,
    ensures
        step_spec(m, t, late).0.pc == j + 1,
        step_spec(m, t, late).0.stack == m.stack.drop_last(),
        step_spec(m, t, late).1 == (if j + 1 < t.len() {
            ExecutionResult::Running
        } else {
            ExecutionResult::Success
        }),
{
    lemma_command_step(m, t, late, '(');
    lemma_scan_forward(t, m.pc as int, j, m.pc + 1int, '(', ')');
}

// ---------------------------------------------------------------------------------------
// Division

proof fn lemma_nat_div(x: int, d: int)
    requires
        0 <= x,
        1 <= d,
    ensures
        x == d * (x / d) + x % d,
        0 <= x % d < d,
        0 <= x / d <= x,
        d >= 2 && x > 0 ==> x / d < x,
{
    lemma_fundamental_div_mod(x, d);
    lemma_mod_pos_bound(x, d);
    lemma_div_pos_is_pos(x, d);
    lemma_div_is_ordered_by_denominator(x, 1, d);
    assert(x / 1 == x);
    if d >= 2 && x > 0 {
        lemma_div_is_strictly_smaller(x, d);
    }
}

/// The magnitude of `x`.
pub open spec fn abs(x: int) -> int {
    if x < 0 {
        -x
    } else {
        x
    }
}

/// `q` and `r` are the quotient and remainder of `a` by `b` with the quotient truncated
/// toward zero: `q * b + r == a`, the remainder smaller than the divisor, and of the sign of
/// `a` when it is not zero.
pub open spec fn truncated_division(a: int, b: int, q: int, r: int) -> bool {
    &&& q * b + r == a
    &&& abs(r) < abs(b)
    &&& r == 0 || (r < 0 <==> a < 0)
}

proof fn lemma_trunc(a: int, b: int)
    requires
        b != 0,
    ensures
        truncated_division(a, b, trunc_div(a, b), trunc_rem(a, b)),
        abs(trunc_div(a, b)) <= abs(a),
        abs(trunc_div(a, b)) == abs(a) && a != 0 ==> abs(b) == 1,
{
    let q = trunc_div(a, b);
    let r = trunc_rem(a, b);
    if a == 0 {
    } else if a > 0 && b > 0 {
        lemma_nat_div(a, b);
        assert(q * b == b * q) by (nonlinear_arith);
    } else if a < 0 && b < 0 {
        lemma_nat_div(-a, -b);
        let qq = (-a) / (-b);
        assert(qq * b == -((-b) * qq)) by (nonlinear_arith);
    } else if a < 0 {
        lemma_nat_div(-a, b);
        let qq = (-a) / b;
        assert((-qq) * b == -(b * qq)) by (nonlinear_arith);
    } else {
        lemma_nat_div(a, -b);
        let qq = a / (-b);
        assert((-qq) * b == (-b) * qq) by (nonlinear_arith);
    }
}

/// `/` pushes the quotient of the value below the top by the top, truncated toward zero:
/// with `q` pushed, `a - q * b` is smaller than `b` in magnitude and has the sign of `a`
/// (or is 0). So a quotient of two numbers of opposite signs is never positive. This holds
/// for every divisor but 0 and every pair but `i64::MIN / -1`.
pub proof fn law_division_truncates(m: Machine, t: Seq<Token>, late: bool)
    requires
        runs_token(m, t, late),
        is_command(t[m.pc as int], '/'),
        m.stack.len() >= 2,
        m.stack.len() <= m.max_stack_size + 1,
        below(m.stack, 0) != 0,
        !(below(m.stack, 1) == i64::MIN && below(m.stack, 0) == -1),
    ensures
        step_spec(m, t, late).1 is Running || step_spec(m, t, late).1 is Success,
        step_spec(m, t, late).0.stack.drop_last() == drop_top(m.stack, 2),
        step_spec(m, t, late).0.stack.len() == m.stack.len() - 1,
        truncated_division(
            below(m.stack, 1) as int,
            below(m.stack, 0) as int,
            step_spec(m, t, late).0.stack.last() as int,
            below(m.stack, 1) - step_spec(m, t, late).0.stack.last() * below(m.stack, 0),
        ),
        (below(m.stack, 1) < 0) != (below(m.stack, 0) < 0) ==> step_spec(m, t, late).0.stack.last()
            <= 0,
{
    lemma_command_step(m, t, late, '/');
    let a = below(m.stack, 1) as int;
    let b = below(m.stack, 0) as int;
    lemma_trunc(a, b);
    let q = trunc_div(a, b);
    assert(i64::MIN <= q <= i64::MAX);
    let s2 = drop_top(m.stack, 2).push(q as i64);
    assert(s2.drop_last() =~= drop_top(m.stack, 2));
}

/// `%` pushes the remainder of the value below the top by the top, for a quotient
/// truncated toward zero: smaller than the divisor in magnitude, of the sign of the
/// dividend (or 0), and differing from the dividend by a multiple of the divisor. This holds
/// for every divisor but 0.
pub proof fn law_remainder_truncates(m: Machine, t: Seq<Token>, late: bool)
    requires
        runs_token(m, t, late),
        is_command(t[m.pc as int], '%'),
        m.stack.len() >= 2,
        m.stack.len() <= m.max_stack_size + 1,
        below(m.stack, 0) != 0,
    ensures
        step_spec(m, t, late).1 is Running || step_spec(m, t, late).1 is Success,
        step_spec(m, t, late).0.stack.drop_last() == drop_top(m.stack, 2),
        step_spec(m, t, late).0.stack.len() == m.stack.len() - 1,
        exists|q: int|
            truncated_division(
                below(m.stack, 1) as int,
                below(m.stack, 0) as int,
                q,
                #[trigger] (step_spec(m, t, late).0.stack.last() as int),
            ),
{
    lemma_command_step(m, t, late, '%');
    let a = below(m.stack, 1) as int;
    let b = below(m.stack, 0) as int;
    lemma_trunc(a, b);
    let r = trunc_rem(a, b);
    assert(i64::MIN <= r <= i64::MAX);
    let s2 = drop_top(m.stack, 2).push(r as i64);
    assert(s2.drop_last() =~= drop_top(m.stack, 2));
    assert(truncated_division(a, b, trunc_div(a, b), step_spec(m, t, late).0.stack.last() as int));
}

// ---------------------------------------------------------------------------------------
// Wrapping arithmetic

/// `k` times 2^64.
pub open spec fn word_multiple(k: int) -> int {
    k * 0x1_0000_0000_0000_0000
}

/// `r` is `x` wrapped to 64 bits: they differ by a multiple of 2^64. With `r` an `i64`
/// this pins `r` down.
pub open spec fn wraps_to(x: int, r: int) -> bool {
    exists|k: int| x - r == #[trigger] word_multiple(k)
}

/// `+`, `-` and `*` push the sum, difference or product of the value below the top and
/// the top, wrapped around to 64 bits.
pub proof fn law_arithmetic_wraps(m: Machine, t: Seq<Token>, late: bool, c: char)
    requires
        c == '+' || c == '-' || c == '*',
        runs_token(m, t, late),
        is_command(t[m.pc as int], c),
        m.stack.len() >= 2,
        m.stack.len() <= m.max_stack_size + 1,
    ensures
        step_spec(m, t, late).1 is Running || step_spec(m, t, late).1 is Success,
        step_spec(m, t, late).0.stack.drop_last() == drop_top(m.stack, 2),
        step_spec(m, t, late).0.stack.len() == m.stack.len() - 1,
        c == '+' ==> wraps_to(below(m.stack, 1) + below(m.stack, 0), step_spec(m, t, late).0.stack.last() as int),
        c == '-' ==> wraps_to(below(m.stack, 1) - below(m.stack, 0), step_spec(m, t, late).0.stack.last() as int),
        c == '*' ==> wraps_to(below(m.stack, 1) * below(m.stack, 0), step_spec(m, t, late).0.stack.last() as int),
{
    lemma_command_step(m, t, late, c);
    let a = below(m.stack, 1);
    let b = below(m.stack, 0);
    let r = step_spec(m, t, late).0.stack.last() as int;
    let s2 = step_spec(m, t, late).0.stack;
    assert(s2.drop_last() =~= drop_top(m.stack, 2));
    if c == '+' {
        if a + b > i64::MAX {
            assert(a + b - r == word_multiple(1));
        } else if a + b < i64::MIN {
            assert(a + b - r == word_multiple(-1));
        } else {
            assert(a + b - r == word_multiple(0));
        }
    } else if c == '-' {
        if a - b > i64::MAX {
            assert(a - b - r == word_multiple(1));
        } else if a - b < i64::MIN {
            assert(a - b - r == word_multiple(-1));
        } else {
            assert(a - b - r == word_multiple(0));
        }
    } else {
        let p = a * b;
        lemma_fundamental_div_mod(p, 0x1_0000_0000_0000_0000int);
        lemma_mod_pos_bound_int(p, 0x1_0000_0000_0000_0000int);
        let q = p / 0x1_0000_0000_0000_0000int;
        if p % 0x1_0000_0000_0000_0000int > i64::MAX {
            assert(p - r == word_multiple(q + 1));
        } else {
            assert(p - r == word_multiple(q));
        }
    }
}

proof fn lemma_mod_pos_bound_int(x: int, m: int)
    requires
        0 < m,
    ensures
        0 <= x % m < m,
{
    vstd::arithmetic::div_mod::lemma_mod_bound(x, m);
}

// ---------------------------------------------------------------------------------------
// Stack manipulation

/// `:` pushes a copy of the top; `;` removes the top; `x` exchanges the two top values;
/// `@` moves the third value from the top to the top (`a b c` becomes `b c a`). Values
/// further down are untouched.
pub proof fn law_stack_commands(m: Machine, t: Seq<Token>, late: bool, c: char)
    requires
        c == ':' || c == ';' || c == 'x' || c == '@',
        runs_token(m, t, late),
        is_command(t[m.pc as int], c),
        m.stack.len() >= (if c == 'x' { 2int } else if c == '@' { 3int } else { 1int }),
        m.stack.len() < m.max_stack_size,
    ensures
        step_spec(m, t, late).1 is Running || step_spec(m, t, late).1 is Success,
        ({
            let s = m.stack;
            let n = s.len() as int;
            let s2 = step_spec(m, t, late).0.stack;
            &&& c == ':' ==> s2 == s.push(s[n - 1])
            &&& c == ';' ==> s2 == s.subrange(0, n - 1)
            &&& c == 'x' ==> s2.len() == n && s2[n - 1] == s[n - 2] && s2[n - 2] == s[n - 1]
                && s2.subrange(0, n - 2) == s.subrange(0, n - 2)
            &&& c == '@' ==> s2.len() == n && s2[n - 1] == s[n - 3] && s2[n - 2] == s[n - 1]
                && s2[n - 3] == s[n - 2] && s2.subrange(0, n - 3) == s.subrange(0, n - 3)
        }),
{
    lemma_command_step(m, t, late, c);
    let s = m.stack;
    let n = s.len() as int;
    let s2 = step_spec(m, t, late).0.stack;
    if c == 'x' {
        assert(s2.subrange(0, n - 2) =~= s.subrange(0, n - 2));
    } else if c == '@' {
        assert(s2.subrange(0, n - 3) =~= s.subrange(0, n - 3));
    } else if c == ';' {
        assert(s2 =~= s.subrange(0, n - 1));
    }
}

// ---------------------------------------------------------------------------------------
// Byte input

/// `t` pushes the next input byte's value and consumes it; at the end of the input it
/// pushes 0.
pub proof fn law_read_byte(m: Machine, t: Seq<Token>, late: bool)
    requires
        runs_token(m, t, late),
        is_command(t[m.pc as int], 't'),
        m.stack.len() < m.max_stack_size,
        m.input.len() > 0 || m.input_end == InputEnd::Closed,
    ensures
        step_spec(m, t, late).1 is Running || step_spec(m, t, late).1 is Success,
        m.input.len() > 0 ==> step_spec(m, t, late).0.stack == m.stack.push(m.input[0] as i64)
            && step_spec(m, t, late).0.input == m.input.subrange(1, m.input.len() as int),
        m.input.len() == 0 ==> step_spec(m, t, late).0.stack == m.stack.push(0),
{
    lemma_command_step(m, t, late, 't');
    if m.input.len() > 0 {
        assert(m.input.drop_first() =~= m.input.subrange(1, m.input.len() as int));
    }
}

proof fn lemma_find_newline(s: Seq<u8>, line: Seq<u8>, k: int)
    requires
        line.len() < s.len(),
        s[line.len() as int] == 10u8,
        forall|i: int| 0 <= i < line.len() ==> s[i] == line[i] && line[i] != 10u8,
        0 <= k <= line.len(),
    ensures
        find_newline(s, k) == line.len(),
    decreases line.len() - k,
{
    if k < line.len() {
        lemma_find_newline(s, line, k + 1);
    }
}

/// `T` on the input `line`, a line feed, then `rest` pushes the bytes of `line` in order,
/// its last byte on top, leaving out a carriage return that ends it, and leaves `rest` to
/// read.
pub proof fn law_read_line(m: Machine, t: Seq<Token>, late: bool, line: Seq<u8>, rest: Seq<u8>)
    requires
        runs_token(m, t, late),
        is_command(t[m.pc as int], 'T'),
        m.input == line + seq![10u8] + rest,
        forall|i: int| 0 <= i < line.len() ==> #[trigger] line[i] != 10u8,
        m.stack.len() + line.len() <= m.max_stack_size,
    ensures
        step_spec(m, t, late).1 is Running || step_spec(m, t, late).1 is Success,
        step_spec(m, t, late).0.input == rest,
        ({
            let n = m.stack.len() as int;
            let kept = if line.len() > 0 && line.last() == 13u8 {
                line.len() - 1
            } else {
                line.len() as int
            };
            let s2 = step_spec(m, t, late).0.stack;
            &&& s2.len() == n + kept
            &&& s2.subrange(0, n) == m.stack
            &&& forall|k: int| 0 <= k < kept ==> #[trigger] s2[n + k] == line[k] as i64
        }),
{
    lemma_command_step(m, t, late, 'T');
    let s = m.input;
    assert forall|i: int| 0 <= i < line.len() implies s[i] == line[i] && line[i] != 10u8 by {}
    lemma_find_newline(s, line, 0);
    assert(s.take(line.len() as int) =~= line);
    assert(s.skip(line.len() + 1int) =~= rest);
    let n = m.stack.len() as int;
    let s2 = step_spec(m, t, late).0.stack;
    assert(s2.subrange(0, n) =~= m.stack);
}

// ---------------------------------------------------------------------------------------
// Reversal

/// `R` reverses the whole stack: the new stack has the old length, and its `k`th value is
/// the old stack's `k`th value from the top.
pub proof fn law_reverse_reverses(m: Machine, t: Seq<Token>, late: bool)
    requires
        runs_token(m, t, late),
        is_command(t[m.pc as int], 'R'),
        m.stack.len() <= m.max_stack_size,
    ensures
        step_spec(m, t, late).1 is Running || step_spec(m, t, late).1 is Success,
        step_spec(m, t, late).0.stack.len() == m.stack.len(),
        forall|k: int| 0 <= k < m.stack.len() ==> #[trigger] step_spec(m, t, late).0.stack[k]
            == m.stack[m.stack.len() - 1 - k],
{
    lemma_command_step(m, t, late, 'R');
}

// ---------------------------------------------------------------------------------------
// Character output

/// `P` with a top value `v` from 0 to 127 pops it and appends exactly the one byte `v` to
/// the output, control characters included; with `v` from 128 to 255 it appends the two
/// bytes of the UTF-8 encoding of the character `v`.
pub proof fn law_print_char_bytes(m: Machine, t: Seq<Token>, late: bool)
    requires
        runs_token(m, t, late),
        is_command(t[m.pc as int], 'P'),
        m.stack.len() > 0,
        0 <= m.stack.last() < 256,
        m.bytes_written + 2 <= m.max_output_size,
        m.stack.len() <= m.max_stack_size + 1,
    ensures
        step_spec(m, t, late).1 is Running || step_spec(m, t, late).1 is Success,
        step_spec(m, t, late).0.stack == m.stack.drop_last(),
        m.stack.last() < 128 ==> step_spec(m, t, late).0.output == m.output.push(
            m.stack.last() as u8,
        ),
        m.stack.last() >= 128 ==> ({
            let out = step_spec(m, t, late).0.output;
            &&& out.len() == m.output.len() + 2
            &&& out.subrange(0, m.output.len() as int) == m.output
            &&& 0xC2 <= out[m.output.len() as int] <= 0xC3
            &&& 0x80 <= out[m.output.len() + 1int] <= 0xBF
            &&& (out[m.output.len() as int] - 0xC0) * 64 + (out[m.output.len() + 1int] - 0x80)
                == m.stack.last()
        }),
{
    lemma_command_step(m, t, late, 'P');
    let v = m.stack.last();
    assert((v as u8) as int == v);
    if v >= 128 {
        let b = v as u8;
        assert(b / 64 == 2 || b / 64 == 3);
        assert(b == 64 * (b / 64) + b % 64);
        let out = step_spec(m, t, late).0.output;
        assert(out.subrange(0, m.output.len() as int) =~= m.output);
    }
}

// ---------------------------------------------------------------------------------------
// Number input

/// The byte `w` is one that `u8::is_ascii_whitespace` accepts: space, tab, line feed, form
/// feed or carriage return.
pub open spec fn ascii_whitespace(w: u8) -> bool {
    w == 32u8 || w == 9u8 || w == 10u8 || w == 12u8 || w == 13u8
}

proof fn lemma_find_space_in_numeral(s: Seq<u8>, x: Seq<u8>, k: int)
    requires
        is_numeral(x),
        x.len() < s.len(),
        ascii_whitespace(s[x.len() as int]),
        forall|i: int| 0 <= i < x.len() ==> s[i] == x[i],
        0 <= k <= x.len(),
    ensures
        find_space(s, k) == x.len(),
    decreases x.len() - k,
{
    if k < x.len() {
        assert(s[k] == x[k]);
        lemma_find_space_in_numeral(s, x, k + 1);
    }
}

proof fn lemma_numeral_parses(x: Seq<u8>)
    requires
        is_numeral(x),
        numeral_value(x) <= i64::MAX,
    ensures
        parse_i64_spec(x) == Some(numeral_value(x) as i64),
{
    assert(x[0] != 45u8 && x[0] != 43u8);
}

/// Two `r` in a row on the input `x w y`, where `x` and `y` are numerals and `w` is any
/// byte that `u8::is_ascii_whitespace` accepts, push the value of `x` and then the value of
/// `y`: every such byte ends a word.
pub proof fn law_read_numbers_split_at_whitespace(
    m: Machine,
    t: Seq<Token>,
    late: bool,
    x: Seq<u8>,
    w: u8,
    y: Seq<u8>,
)
    requires
        runs_token(m, t, late),
        m.pc + 1 < t.len(),
        m.steps + 2 < u64::MAX,
        is_command(t[m.pc as int], 'r'),
        is_command(t[m.pc + 1int], 'r'),
        m.input == x + seq![w] + y,
        m.input_end == InputEnd::Closed,
        ascii_whitespace(w),
        is_numeral(x),
        is_numeral(y),
        numeral_value(x) <= i64::MAX,
        numeral_value(y) <= i64::MAX,
        m.stack.len() + 2 <= m.max_stack_size,
    ensures
        step_spec(m, t, late).1 is Running,
        step_spec(step_spec(m, t, late).0, t, false).0.stack == m.stack.push(
            numeral_value(x) as i64,
        ).push(numeral_value(y) as i64),
{
    let s = m.input;
    lemma_command_step(m, t, late, 'r');
    let m0 = token_state(m);
    assert(s[x.len() as int] == w);
    assert(skip_spaces(s, 0) == 0) by {
        assert(s[0] == x[0]);
    }
    lemma_find_space_in_numeral(s, x, 0);
    assert(s.subrange(0, x.len() as int) =~= x);
    assert(s.skip(x.len() + 1int) =~= y);
    if w == 13u8 {
        assert(s[x.len() + 1int] == y[0]);
    }
    lemma_numeral_parses(x);
    let m1 = step_spec(m, t, late).0;
    assert(m1.input == y);
    lemma_command_step(m1, t, false, 'r');
    assert(skip_spaces(y, 0) == 0);
    assert(find_space(y, 0) == y.len()) by {
        lemma_find_space_in_numeral(y.push(32u8), y, 0);
        lemma_find_space_to_end(y, 0);
    }
    assert(y.subrange(0, y.len() as int) =~= y);
    lemma_numeral_parses(y);
}

proof fn lemma_find_space_to_end(y: Seq<u8>, k: int)
    requires
        is_numeral(y),
        0 <= k <= y.len(),
    ensures
        find_space(y, k) == y.len(),
    decreases y.len() - k,
{
    if k < y.len() {
        lemma_find_space_to_end(y, k + 1);
    }
}

} // verus!
