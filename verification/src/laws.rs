//! Properties of Flap that hold across commands, steps and whole runs.
use vstd::prelude::*;
use crate::lexer::{
    Token, Span, lex_from, lex_spec, digit_run_end, digits_value, next_equals, comment_resume,
    command_at, lemma_digit_run_end_bounds, lemma_next_equals_bounds,
};
use crate::semantics::{
    Machine, Outcome, command, step_spec, run, set_awaiting, lemma_command_frame, lemma_command_pc,
    drop_top, decimal_text_of, magnitude, clock_due, lemma_step_frame, char_bytes,
    set_stack, deepen,
};
use crate::interpreter::{ExecutionResult, RuntimeError, fresh};
use std::time::Duration;
use crate::text::{parse_i64_spec, decimal_digits, numeral_value, is_numeral, is_digit, is_space};

verus! {

/// The clock matters only at the steps where it is read.
pub proof fn law_clock_only_at_checkpoints(m: Machine, t: Seq<Token>)
    requires
        !clock_due(m, t),
    ensures
        step_spec(m, t, true) == step_spec(m, t, false),
{
}

/// Two `R` in a row leave the stack as it was.
pub proof fn law_reverse_twice(m: Machine, t: Seq<Token>)
    ensures
        command(m, 'R', t) matches Outcome::Done(m1) && command(m1, 'R', t) matches Outcome::Done(
            m2,
        ) && m2.stack == m.stack,
{
    assert(m.stack.reverse().reverse() =~= m.stack);
}

/// Two `x` in a row leave the stack as it was.
pub proof fn law_swap_twice(m: Machine, t: Seq<Token>)
    requires
        m.stack.len() >= 2,
    ensures
        command(m, 'x', t) matches Outcome::Done(m1) && command(m1, 'x', t) matches Outcome::Done(
            m2,
        ) && m2.stack == m.stack,
{
    let s = m.stack;
    let s1 = drop_top(s, 2).push(s[s.len() - 1]).push(s[s.len() - 2]);
    assert(drop_top(s1, 2) =~= drop_top(s, 2));
    assert(drop_top(s1, 2).push(s1[s1.len() - 1]).push(s1[s1.len() - 2]) =~= s);
}

/// Three `@` in a row leave the stack as it was.
pub proof fn law_rotate_thrice(m: Machine, t: Seq<Token>)
    requires
        m.stack.len() >= 3,
    ensures
        command(m, '@', t) matches Outcome::Done(m1) && command(m1, '@', t) matches Outcome::Done(
            m2,
        ) && command(m2, '@', t) matches Outcome::Done(m3) && m3.stack == m.stack,
{
    let s = m.stack;
    let n = s.len();
    let base = drop_top(s, 3);
    let s1 = base.push(s[n - 2]).push(s[n - 1]).push(s[n - 3]);
    assert(drop_top(s1, 3) =~= base);
    let s2 = base.push(s1[n - 2]).push(s1[n - 1]).push(s1[n - 3]);
    assert(drop_top(s2, 3) =~= base);
    let s3 = base.push(s2[n - 2]).push(s2[n - 1]).push(s2[n - 3]);
    assert(s3 =~= s);
}

/// `:` then `;` leave the stack as it was.
pub proof fn law_dup_then_pop(m: Machine, t: Seq<Token>)
    requires
        m.stack.len() >= 1,
    ensures
        command(m, ':', t) matches Outcome::Done(m1) && command(m1, ';', t) matches Outcome::Done(
            m2,
        ) && m2.stack == m.stack,
{
    assert(m.stack.push(m.stack.last()).drop_last() =~= m.stack);
}

/// `(` pops its condition whether the block runs or not, and even when its `)` is missing.
pub proof fn law_condition_is_popped(m: Machine, t: Seq<Token>)
    requires
        m.stack.len() >= 1,
    ensures
        match command(m, '(', t) {
            Outcome::Done(m1) => m1.stack == m.stack.drop_last(),
            Outcome::Fail(m1, _) => m1.stack == m.stack.drop_last(),
            Outcome::Wait => false,
        },
{
}

/// `[` and `]` never pop or push.
pub proof fn law_loop_brackets_keep_stack(m: Machine, t: Seq<Token>, c: char)
    requires
        c == '[' || c == ']',
    ensures
        match command(m, c, t) {
            Outcome::Done(m1) => m1.stack == m.stack,
            Outcome::Fail(m1, _) => m1.stack == m.stack,
            Outcome::Wait => false,
        },
{
}

/// Dividing or taking the remainder by zero pushes 0.
pub proof fn law_division_by_zero_pushes_zero(m: Machine, t: Seq<Token>, c: char)
    requires
        c == '/' || c == '%',
        m.stack.len() >= 2,
        m.stack.last() == 0,
    ensures
        command(m, c, t) matches Outcome::Done(m1) && m1.stack == drop_top(m.stack, 2).push(0),
{
}

/// The printed bytes only grow: the step adds to the end of the output exactly the bytes
/// it counts as written.
pub open spec fn output_appended(a: Machine, b: Machine) -> bool {
    &&& a.output.len() <= b.output.len()
    &&& b.output.subrange(0, a.output.len() as int) == a.output
    &&& b.output.len() - a.output.len() == b.bytes_written - a.bytes_written
}

proof fn lemma_command_output(m: Machine, c: char, t: Seq<Token>)
    ensures
        match command(m, c, t) {
            Outcome::Done(m1) => output_appended(m, m1),
            Outcome::Fail(m1, _) => output_appended(m, m1),
            Outcome::Wait => true,
        },
{
    assert(m.output.subrange(0, m.output.len() as int) =~= m.output);
    if c == 'p' || c == 'P' {
        if m.stack.len() > 0 {
            let v = m.stack.last();
            assert forall|b: Seq<u8>| #[trigger] (m.output + b).subrange(0, m.output.len() as int)
                == m.output by {
                assert((m.output + b).subrange(0, m.output.len() as int) =~= m.output);
            }
            assert forall|b1: Seq<u8>, b2: Seq<u8>| #[trigger] (m.output + b1 + b2).subrange(
                0,
                m.output.len() as int,
            ) == m.output by {
                assert((m.output + b1 + b2).subrange(0, m.output.len() as int) =~= m.output);
            }
        }
    }
}

/// A step never prints past the output limit, and it only appends to the output.
pub proof fn law_step_output(m: Machine, t: Seq<Token>, late: bool)
    requires
        m.bytes_written <= m.max_output_size,
    ensures
        step_spec(m, t, late).0.bytes_written <= step_spec(m, t, late).0.max_output_size,
        output_appended(m, step_spec(m, t, late).0),
{
    assert(m.output.subrange(0, m.output.len() as int) =~= m.output);
    if m.pc < t.len() {
        let m1 = if m.awaiting_input {
            m
        } else {
            Machine { steps: m.steps + 1, ..m }
        };
        let m0 = set_awaiting(m1, false);
        match t[m0.pc as int] {
            Token::Command(c, _) => {
                lemma_command_frame(m0, c, t);
                lemma_command_output(m0, c, t);
            },
            _ => {},
        }
    }
}

/// A whole run never prints past the output limit.
pub proof fn law_run_output(m: Machine, t: Seq<Token>, clock: Seq<bool>)
    requires
        m.bytes_written <= m.max_output_size,
    ensures
        run(m, t, clock).0.bytes_written <= run(m, t, clock).0.max_output_size,
        output_appended(m, run(m, t, clock).0),
    decreases clock.len(),
{
    assert(m.output.subrange(0, m.output.len() as int) =~= m.output);
    if clock.len() > 0 {
        law_run_output(m, t, clock.drop_last());
        let (m1, r1) = run(m, t, clock.drop_last());
        if r1 is Running {
            law_step_output(m1, t, clock.last());
            let m2 = step_spec(m1, t, clock.last()).0;
            assert(m2.output.subrange(0, m.output.len() as int) =~= m2.output.subrange(
                0,
                m1.output.len() as int,
            ).subrange(0, m.output.len() as int));
        }
    }
}

/// The state after a sequence of steps, each on a program of its own and with its own
/// answer from the clock, as successive `step` calls make them.
pub open spec fn after_steps(m: Machine, calls: Seq<(Seq<Token>, bool)>) -> Machine
    decreases calls.len(),
{
    if calls.len() == 0 {
        m
    } else {
        step_spec(after_steps(m, calls.drop_last()), calls.last().0, calls.last().1).0
    }
}

/// However many steps are taken, on whatever programs, the bytes printed in all never pass
/// the output limit, and the recorded stack depth never goes down.
pub proof fn law_steps_output_and_depth(m: Machine, calls: Seq<(Seq<Token>, bool)>)
    requires
        m.bytes_written <= m.max_output_size,
    ensures
        after_steps(m, calls).bytes_written <= m.max_output_size,
        after_steps(m, calls).max_output_size == m.max_output_size,
        after_steps(m, calls).max_stack_depth >= m.max_stack_depth,
    decreases calls.len(),
{
    if calls.len() > 0 {
        law_steps_output_and_depth(m, calls.drop_last());
        lemma_step_frame(after_steps(m, calls.drop_last()), calls.last().0, calls.last().1);
    }
}

/// From a freshly built interpreter, no sequence of steps prints more bytes in all than
/// its output limit.
pub proof fn law_fresh_output_limit(
    time_limit: Duration,
    max_stack_size: nat,
    max_output_size: nat,
    time_check_interval: nat,
    calls: Seq<(Seq<Token>, bool)>,
)
    ensures
        after_steps(fresh(time_limit, max_stack_size, max_output_size, time_check_interval), calls).bytes_written
            <= max_output_size,
{
    law_steps_output_and_depth(fresh(time_limit, max_stack_size, max_output_size, time_check_interval), calls);
}

/// The step from `m` runs the token at the program counter: the program has not ended and
/// neither the step counter nor the clock stops it.
pub open spec fn runs_token(m: Machine, t: Seq<Token>, late: bool) -> bool {
    &&& m.pc < t.len()
    &&& m.awaiting_input || (m.steps < u64::MAX && !(late && (m.steps + 1) % m.time_check_interval == 0))
}

/// The state in which a step runs its token: the step counted, unless it resumes a command
/// that waited for input, and the waiting flag cleared.
pub open spec fn token_state(m: Machine) -> Machine {
    set_awaiting(
        if m.awaiting_input {
            m
        } else {
            Machine { steps: m.steps + 1, ..m }
        },
        false,
    )
}

/// A step that would make the stack longer than its limit fails with `MemoryLimitExceeded`:
/// a number pushed onto a full stack, or a command that would leave more values than the
/// limit allows.
pub proof fn law_stack_growth_past_limit(m: Machine, t: Seq<Token>, late: bool)
    requires
        runs_token(m, t, late),
        match t[m.pc as int] {
            Token::Integer(_, _) => m.stack.len() >= m.max_stack_size,
            Token::Command(c, _) => command(token_state(m), c, t) matches Outcome::Done(m2)
                && m2.stack.len() > m2.max_stack_size,
        },
    ensures
        step_spec(m, t, late).1 == ExecutionResult::MemoryLimitExceeded,
{
}

/// The deepest the stack has been in a run: the recorded depth it started from, raised to
/// the stack's height after each step that ended with `Success` or `Running`.
pub open spec fn deepest(m: Machine, t: Seq<Token>, clock: Seq<bool>) -> nat
    decreases clock.len(),
{
    if clock.len() == 0 {
        m.max_stack_depth
    } else {
        let before = deepest(m, t, clock.drop_last());
        let (m1, r1) = run(m, t, clock.drop_last());
        if r1 is Running {
            let (m2, r2) = step_spec(m1, t, clock.last());
            if (r2 is Success || r2 is Running) && m2.stack.len() > before {
                m2.stack.len()
            } else {
                before
            }
        } else {
            before
        }
    }
}

proof fn lemma_step_depth(m: Machine, t: Seq<Token>, late: bool)
    requires
        m.stack.len() <= m.max_stack_depth,
    ensures
        ({
            let (m2, r2) = step_spec(m, t, late);
            if r2 is Success || r2 is Running {
                &&& m2.stack.len() <= m2.max_stack_depth
                &&& m2.max_stack_depth == if m2.stack.len() > m.max_stack_depth {
                    m2.stack.len()
                } else {
                    m.max_stack_depth
                }
            } else {
                m2.max_stack_depth == m.max_stack_depth
            }
        }),
{
    if m.pc < t.len() {
        let m0 = token_state(m);
        match t[m0.pc as int] {
            Token::Command(c, _) => {
                lemma_command_frame(m0, c, t);
            },
            _ => {},
        }
    }
}

/// The depth a run reports is the deepest the stack has been: the depth recorded before
/// it (a loaded stack's height among it) and the height after each step that ended with
/// `Success` or `Running`. A run still going has its stack within that depth.
pub proof fn law_run_depth_is_deepest(m: Machine, t: Seq<Token>, clock: Seq<bool>)
    requires
        m.stack.len() <= m.max_stack_depth,
    ensures
        run(m, t, clock).0.max_stack_depth == deepest(m, t, clock),
        run(m, t, clock).1 is Running ==> run(m, t, clock).0.stack.len() <= run(
            m,
            t,
            clock,
        ).0.max_stack_depth,
    decreases clock.len(),
{
    if clock.len() > 0 {
        law_run_depth_is_deepest(m, t, clock.drop_last());
        let (m1, r1) = run(m, t, clock.drop_last());
        if r1 is Running {
            lemma_step_depth(m1, t, clock.last());
        }
    }
}

/// A `p` whose number text, or a `P` whose character, would take the bytes printed past
/// the output limit fails with `OutputLimitExceeded`.
pub proof fn law_print_past_limit(m: Machine, t: Seq<Token>, late: bool)
    requires
        runs_token(m, t, late),
        t[m.pc as int] matches Token::Command(c, _) && (c == 'p' || c == 'P'),
        m.stack.len() > 0,
        t[m.pc as int] matches Token::Command(c, _) && m.bytes_written + (if c == 'p' {
            decimal_text_of(m.stack.last()).len()
        } else {
            char_bytes(#[verifier::truncate] (m.stack.last() as u8)).len()
        }) > m.max_output_size,
    ensures
        step_spec(m, t, late).1 == ExecutionResult::RuntimeError(RuntimeError::OutputLimitExceeded),
{
    let v = m.stack.last();
    if v < 0 {
        assert(decimal_text_of(v).len() == 1 + decimal_digits(magnitude(v)).len());
    }
}

/// A run with one more clock reading is the run so far followed by one more step, if the
/// run so far is still going; a run that stopped stays as it is.
pub proof fn law_run_is_repeated_steps(m: Machine, t: Seq<Token>, clock: Seq<bool>, late: bool)
    ensures
        run(m, t, clock.push(late)) == if run(m, t, clock).1 is Running {
            step_spec(run(m, t, clock).0, t, late)
        } else {
            run(m, t, clock)
        },
{
    assert(clock.push(late).drop_last() =~= clock);
}

/// Once a run has stopped, further clock readings change nothing.
pub proof fn law_stopped_run_stays(m: Machine, t: Seq<Token>, clock: Seq<bool>, more: Seq<bool>)
    requires
        !(run(m, t, clock).1 is Running),
    ensures
        run(m, t, clock + more) == run(m, t, clock),
    decreases more.len(),
{
    if more.len() > 0 {
        law_stopped_run_stays(m, t, clock, more.drop_last());
        assert((clock + more).drop_last() =~= clock + more.drop_last());
    }
}

/// A run never lowers the recorded stack depth.
pub proof fn law_run_keeps_depth(m: Machine, t: Seq<Token>, clock: Seq<bool>)
    ensures
        run(m, t, clock).0.max_stack_depth >= m.max_stack_depth,
    decreases clock.len(),
{
    if clock.len() > 0 {
        law_run_keeps_depth(m, t, clock.drop_last());
        let (m1, r1) = run(m, t, clock.drop_last());
        if r1 is Running {
            lemma_step_frame(m1, t, clock.last());
        }
    }
}

/// After a stack is loaded, every later run reports a depth at least that stack's height.
pub proof fn law_loaded_depth_kept(m: Machine, stack: Seq<i64>, t: Seq<Token>, clock: Seq<bool>)
    ensures
        run(deepen(set_stack(m, stack)), t, clock).0.max_stack_depth >= stack.len(),
{
    law_run_keeps_depth(deepen(set_stack(m, stack)), t, clock);
}

proof fn lemma_command_fail(m: Machine, c: char, t: Seq<Token>)
    ensures
        command(m, c, t) matches Outcome::Fail(m1, _) ==> m1.stack.len() <= m.stack.len() && m1.pc
            == m.pc,
{
}

/// A step that does not end with `MemoryLimitExceeded` keeps the stack within its limit
/// and its recorded depth at least the stack's height; every step keeps the program
/// counter within the program.
pub proof fn law_step_limits(m: Machine, t: Seq<Token>, late: bool)
    requires
        m.stack.len() <= m.max_stack_size,
        m.stack.len() <= m.max_stack_depth,
        m.pc <= t.len(),
    ensures
        !(step_spec(m, t, late).1 is MemoryLimitExceeded) ==> step_spec(m, t, late).0.stack.len()
            <= step_spec(m, t, late).0.max_stack_size,
        !(step_spec(m, t, late).1 is MemoryLimitExceeded) ==> step_spec(m, t, late).0.stack.len()
            <= step_spec(m, t, late).0.max_stack_depth,
        step_spec(m, t, late).0.pc <= t.len(),
{
    if m.pc < t.len() {
        let m1 = if m.awaiting_input {
            m
        } else {
            Machine { steps: m.steps + 1, ..m }
        };
        let m0 = set_awaiting(m1, false);
        match t[m0.pc as int] {
            Token::Command(c, _) => {
                lemma_command_frame(m0, c, t);
                lemma_command_fail(m0, c, t);
                lemma_command_pc(m0, c, t);
            },
            _ => {},
        }
    }
}

/// A step that waits for input changes nothing but the step count and the waiting flag:
/// the command is resumed, not repeated, once input is supplied.
pub proof fn law_waiting_changes_nothing(m: Machine, t: Seq<Token>, late: bool)
    ensures
        step_spec(m, t, late).1 is AwaitingInput ==> step_spec(m, t, late).0 == set_awaiting(
            Machine { steps: step_spec(m, t, late).0.steps, ..m },
            true,
        ),
{
}

proof fn lemma_numeral_of_digits(n: nat)
    ensures
        numeral_value(decimal_digits(n)) == n,
        is_numeral(decimal_digits(n)),
    decreases n,
{
    if n < 10 {
        assert(decimal_digits(n).drop_last() =~= Seq::<u8>::empty());
        assert(numeral_value(decimal_digits(n)) == numeral_value(Seq::<u8>::empty()) * 10 + (
        decimal_digits(n).last() as int - 48));
    } else {
        lemma_numeral_of_digits(n / 10);
        assert(decimal_digits(n).drop_last() =~= decimal_digits(n / 10));
        assert(decimal_digits(n).last() as int == 48 + n % 10);
        assert(n == (n / 10) * 10 + n % 10);
        assert forall|i: int| 0 <= i < decimal_digits(n).len() implies 48
            <= #[trigger] decimal_digits(n)[i] <= 57 by {
            if i < decimal_digits(n).len() - 1 {
                assert(decimal_digits(n)[i] == decimal_digits(n / 10)[i]);
            }
        }
    }
}

/// With room below the output limit, `p` prints the decimal text of the top value.
pub proof fn law_print_number_text(m: Machine, t: Seq<Token>)
    requires
        m.stack.len() >= 1,
        m.bytes_written + decimal_text_of(m.stack.last()).len() <= m.max_output_size,
    ensures
        command(m, 'p', t) matches Outcome::Done(m1) && m1.output == m.output + decimal_text_of(
            m.stack.last(),
        ) && m1.stack == m.stack.drop_last(),
{
    let v = m.stack.last();
    if v < 0 {
        assert(m.output + seq![45u8] + decimal_digits(magnitude(v)) =~= m.output + decimal_text_of(v));
    }
}

/// What `p` reads back through `r`: the text that `p` prints for any value parses as that
/// value.
pub proof fn law_printed_number_reads_back(v: i64)
    ensures
        parse_i64_spec(decimal_text_of(v)) == Some(v),
{
    lemma_numeral_of_digits(magnitude(v));
    let d = decimal_digits(magnitude(v));
    if v < 0 {
        assert(decimal_text_of(v).skip(1) =~= d);
    } else {
        assert(d[0] != 45u8 && d[0] != 43u8);
    }
}

} // verus!

verus! {

/// A token without its place in the text.
pub open spec fn strip_span(t: Token) -> Token {
    match t {
        Token::Integer(v, _) => Token::Integer(v, Span { start: 0, end: 0 }),
        Token::Command(c, _) => Token::Command(c, Span { start: 0, end: 0 }),
    }
}

/// The tokens without their places in the text.
pub open spec fn token_values(ts: Seq<Token>) -> Seq<Token> {
    ts.map_values(|t: Token| strip_span(t))
}

/// Scanning `s` from `i`, every comment that opens is closed before the end of `s`.
pub open spec fn comments_closed_from(s: Seq<char>, i: int) -> bool
    decreases s.len() - i,
    via comments_closed_decreases
{
    if i < 0 || i >= s.len() {
        true
    } else if is_digit(s[i]) {
        comments_closed_from(s, digit_run_end(s, i))
    } else if s[i] == '=' {
        next_equals(s, i + 1) < s.len() && comments_closed_from(s, next_equals(s, i + 1) + 1)
    } else {
        comments_closed_from(s, i + 1)
    }
}

#[via_fn]
proof fn comments_closed_decreases(s: Seq<char>, i: int) {
    if 0 <= i < s.len() {
        lemma_digit_run_end_bounds(s, i + 1);
        lemma_next_equals_bounds(s, i + 1);
    }
}

/// Every comment opened in `s` is closed in `s`.
pub open spec fn comments_closed(s: Seq<char>) -> bool {
    comments_closed_from(s, 0)
}

/// `sep` is a separator: a `,`, a white-space character, or a whole comment.
pub open spec fn is_separator(sep: Seq<char>) -> bool {
    ||| sep.len() == 1 && (sep[0] == ',' || is_space(sep[0]))
    ||| sep.len() >= 2 && sep[0] == '=' && sep[sep.len() - 1] == '=' && forall|k: int|
        1 <= k < sep.len() - 1 ==> #[trigger] sep[k] != '='
}

proof fn lemma_values_concat(a: Seq<Token>, b: Seq<Token>)
    ensures
        token_values(a + b) == token_values(a) + token_values(b),
{
    assert(token_values(a + b) =~= token_values(a) + token_values(b));
}

/// `w[d..]` is `b`.
spec fn shifted(w: Seq<char>, b: Seq<char>, d: int) -> bool {
    &&& 0 <= d
    &&& w.len() == d + b.len()
    &&& forall|k: int| 0 <= k < b.len() ==> #[trigger] w[d + k] == b[k]
}

proof fn lemma_shift_digit_run(w: Seq<char>, b: Seq<char>, d: int, i: int)
    requires
        shifted(w, b, d),
        0 <= i <= b.len(),
    ensures
        digit_run_end(w, d + i) == d + digit_run_end(b, i),
    decreases b.len() - i,
{
    if i < b.len() {
        assert(w[d + i] == b[i]);
        lemma_shift_digit_run(w, b, d, i + 1);
    }
}

proof fn lemma_shift_digits_value(w: Seq<char>, b: Seq<char>, d: int, i: int, j: int)
    requires
        shifted(w, b, d),
        0 <= i <= j <= b.len(),
    ensures
        digits_value(w, d + i, d + j) == digits_value(b, i, j),
    decreases j - i,
{
    if j > i {
        lemma_shift_digits_value(w, b, d, i, j - 1);
        assert(w[d + j - 1] == b[j - 1]);
    }
}

proof fn lemma_shift_next_equals(w: Seq<char>, b: Seq<char>, d: int, i: int)
    requires
        shifted(w, b, d),
        0 <= i <= b.len(),
    ensures
        next_equals(w, d + i) == d + next_equals(b, i),
    decreases b.len() - i,
{
    if i < b.len() {
        assert(w[d + i] == b[i]);
        lemma_shift_next_equals(w, b, d, i + 1);
    }
}

/// Lexing `w` from `d + i` gives the values that lexing `b` from `i` gives, when `w`
/// ends with `b` after `d` characters.
proof fn lemma_lex_shift(w: Seq<char>, b: Seq<char>, d: int, i: int)
    requires
        shifted(w, b, d),
        0 <= i <= b.len(),
    ensures
        token_values(lex_from(w, d + i)) == token_values(lex_from(b, i)),
    decreases b.len() - i,
{
    if i < b.len() {
        let c = b[i];
        assert(w[d + i] == c);
        if is_digit(c) {
            lemma_digit_run_end_bounds(b, i);
            lemma_digit_run_end_bounds(b, i + 1);
            lemma_shift_digit_run(w, b, d, i);
            let j = digit_run_end(b, i);
            lemma_shift_digits_value(w, b, d, i, j);
            lemma_lex_shift(w, b, d, j);
            lemma_values_concat(
                seq![Token::Integer(digits_value(b, i, j) as i64, Span { start: (d + i) as usize, end: (d + j) as usize })],
                lex_from(w, d + j),
            );
            lemma_values_concat(
                seq![Token::Integer(digits_value(b, i, j) as i64, Span { start: i as usize, end: j as usize })],
                lex_from(b, j),
            );
        } else if c == '=' {
            lemma_next_equals_bounds(b, i + 1);
            lemma_shift_next_equals(w, b, d, i + 1);
            lemma_lex_shift(w, b, d, comment_resume(b, i));
        } else if c == ',' || is_space(c) {
            lemma_lex_shift(w, b, d, i + 1);
        } else {
            lemma_lex_shift(w, b, d, i + 1);
            lemma_values_concat(seq![command_at(w, d + i)], lex_from(w, d + i + 1));
            lemma_values_concat(seq![command_at(b, i)], lex_from(b, i + 1));
        }
    }
}

/// `a` ends with a digit.
pub open spec fn ends_with_digit(a: Seq<char>) -> bool {
    a.len() > 0 && is_digit(a[a.len() - 1])
}

/// `b` starts with a digit.
pub open spec fn starts_with_digit(b: Seq<char>) -> bool {
    b.len() > 0 && is_digit(b[0])
}

/// `w` starts with `a`, and a digit run at the end of `a` does not go on in `w`.
spec fn prefixed(w: Seq<char>, a: Seq<char>) -> bool {
    &&& a.len() <= w.len()
    &&& forall|k: int| 0 <= k < a.len() ==> #[trigger] w[k] == a[k]
    &&& ends_with_digit(a) && a.len() < w.len() ==> !is_digit(w[a.len() as int])
}

proof fn lemma_prefix_digit_run(w: Seq<char>, a: Seq<char>, i: int)
    requires
        prefixed(w, a),
        0 <= i < a.len(),
        is_digit(a[i]),
    ensures
        digit_run_end(w, i) == digit_run_end(a, i),
    decreases a.len() - i,
{
    assert(w[i] == a[i]);
    if i + 1 < a.len() {
        assert(w[i + 1] == a[i + 1]);
        if is_digit(a[i + 1]) {
            lemma_prefix_digit_run(w, a, i + 1);
        } else {
            assert(digit_run_end(w, i + 1) == i + 1);
            assert(digit_run_end(a, i + 1) == i + 1);
        }
    } else {
        assert(ends_with_digit(a));
        assert(digit_run_end(w, i + 1) == i + 1);
        assert(digit_run_end(a, i + 1) == i + 1);
    }
}

proof fn lemma_prefix_digits_value(w: Seq<char>, a: Seq<char>, i: int, j: int)
    requires
        prefixed(w, a),
        0 <= i <= j <= a.len(),
    ensures
        digits_value(w, i, j) == digits_value(a, i, j),
    decreases j - i,
{
    if j > i {
        lemma_prefix_digits_value(w, a, i, j - 1);
        assert(w[j - 1] == a[j - 1]);
    }
}

proof fn lemma_prefix_next_equals(w: Seq<char>, a: Seq<char>, i: int)
    requires
        prefixed(w, a),
        0 <= i,
        next_equals(a, i) < a.len(),
    ensures
        next_equals(w, i) == next_equals(a, i),
    decreases a.len() - i,
{
    if i < a.len() {
        assert(w[i] == a[i]);
        if a[i] != '=' {
            lemma_prefix_next_equals(w, a, i + 1);
        }
    }
}

proof fn lemma_lex_prefix(w: Seq<char>, a: Seq<char>, sep: Seq<char>, b: Seq<char>, i: int)
    requires
        w == a + sep + b,
        is_separator(sep) || (sep.len() == 0 && !(ends_with_digit(a) && starts_with_digit(b))),
        0 <= i <= a.len(),
        comments_closed_from(a, i),
    ensures
        token_values(lex_from(w, i)) == token_values(lex_from(a, i)) + token_values(
            lex_from(w, a.len() + sep.len() as int),
        ),
    decreases a.len() - i,
{
    let h = a.len() as int;
    assert(prefixed(w, a)) by {
        assert forall|k: int| 0 <= k < a.len() implies #[trigger] w[k] == a[k] by {}
        if sep.len() > 0 {
            assert(w[h] == sep[0]);
        } else if h < w.len() {
            assert(w[h] == b[0]);
        }
    }
    if i == h {
        assert(lex_from(a, i) =~= Seq::<Token>::empty());
        if sep.len() == 0 {
        } else if sep.len() == 1 && (sep[0] == ',' || is_space(sep[0])) {
            assert(w[h] == sep[0]);
        } else {
            assert(w[h] == sep[0]);
            assert forall|k: int| h + 1 <= k < h + sep.len() - 1 implies #[trigger] w[k] != '=' by {
                assert(w[k] == sep[k - h]);
            }
            assert(w[h + sep.len() - 1] == sep[sep.len() - 1]);
            lemma_next_equals_from(w, h + 1, h + sep.len() - 1);
        }
        assert(token_values(lex_from(a, i)) + token_values(lex_from(w, h + sep.len()))
            =~= token_values(lex_from(w, h + sep.len())));
    } else {
        let c = a[i];
        assert(w[i] == c);
        if is_digit(c) {
            lemma_digit_run_end_bounds(a, i);
            lemma_digit_run_end_bounds(a, i + 1);
            lemma_prefix_digit_run(w, a, i);
            let j = digit_run_end(a, i);
            lemma_prefix_digits_value(w, a, i, j);
            lemma_lex_prefix(w, a, sep, b, j);
            let tok = Token::Integer(digits_value(a, i, j) as i64, Span { start: i as usize, end: j as usize });
            lemma_values_concat(seq![tok], lex_from(w, j));
            lemma_values_concat(seq![tok], lex_from(a, j));
            assert(token_values(seq![tok]) + (token_values(lex_from(a, j)) + token_values(
                lex_from(w, h + sep.len()),
            )) =~= token_values(seq![tok]) + token_values(lex_from(a, j)) + token_values(
                lex_from(w, h + sep.len()),
            ));
        } else if c == '=' {
            lemma_next_equals_bounds(a, i + 1);
            lemma_prefix_next_equals(w, a, i + 1);
            lemma_lex_prefix(w, a, sep, b, next_equals(a, i + 1) + 1);
        } else if c == ',' || is_space(c) {
            lemma_lex_prefix(w, a, sep, b, i + 1);
        } else {
            lemma_lex_prefix(w, a, sep, b, i + 1);
            assert(command_at(w, i) == command_at(a, i));
            lemma_values_concat(seq![command_at(w, i)], lex_from(w, i + 1));
            lemma_values_concat(seq![command_at(a, i)], lex_from(a, i + 1));
            assert(token_values(seq![command_at(a, i)]) + (token_values(lex_from(a, i + 1))
                + token_values(lex_from(w, h + sep.len()))) =~= token_values(
                seq![command_at(a, i)],
            ) + token_values(lex_from(a, i + 1)) + token_values(lex_from(w, h + sep.len())));
        }
    }
}

proof fn lemma_next_equals_from(s: Seq<char>, i: int, k: int)
    requires
        0 <= i <= k < s.len(),
        s[k] == '=',
        forall|j: int| i <= j < k ==> #[trigger] s[j] != '=',
    ensures
        next_equals(s, i) == k,
    decreases k - i,
{
    if i < k {
        lemma_next_equals_from(s, i + 1, k);
    }
}

/// White space, `,` and comments only separate tokens: lexing a text with a separator
/// between two parts gives the tokens of the first part, then those of the second,
/// provided the first part leaves no comment open.
pub proof fn law_separators_only_separate(a: Seq<char>, sep: Seq<char>, b: Seq<char>)
    requires
        is_separator(sep),
        comments_closed(a),
    ensures
        token_values(lex_spec(a + sep + b)) == token_values(lex_spec(a)) + token_values(
            lex_spec(b),
        ),
{
    let w = a + sep + b;
    lemma_lex_prefix(w, a, sep, b, 0);
    assert(shifted(w, b, a.len() + sep.len() as int)) by {
        assert forall|k: int| 0 <= k < b.len() implies #[trigger] w[a.len() + sep.len() + k] == b[k] by {}
    }
    lemma_lex_shift(w, b, a.len() + sep.len() as int, 0);
}

/// Lexing two texts one after the other gives the tokens of the first, then those of the
/// second, provided the first leaves no comment open and no run of digits is joined at the
/// seam.
pub proof fn law_lex_concat(a: Seq<char>, b: Seq<char>)
    requires
        comments_closed(a),
        !(ends_with_digit(a) && starts_with_digit(b)),
    ensures
        token_values(lex_spec(a + b)) == token_values(lex_spec(a)) + token_values(lex_spec(b)),
{
    let e = Seq::<char>::empty();
    let w = a + e + b;
    assert(w =~= a + b);
    lemma_lex_prefix(w, a, e, b, 0);
    assert(shifted(w, b, a.len() as int)) by {
        assert forall|k: int| 0 <= k < b.len() implies #[trigger] w[a.len() + k] == b[k] by {}
    }
    lemma_lex_shift(w, b, a.len() as int, 0);
}

/// Putting a `,` or a white-space character between two parts of a program, or taking it
/// out, changes no token's kind or value, provided the first part leaves no comment open and
/// the parts do not join two runs of digits.
pub proof fn law_separator_insertion(x: Seq<char>, c: char, y: Seq<char>)
    requires
        c == ',' || is_space(c),
        comments_closed(x),
        !(ends_with_digit(x) && starts_with_digit(y)),
    ensures
        token_values(lex_spec(x + seq![c] + y)) == token_values(lex_spec(x + y)),
{
    law_separators_only_separate(x, seq![c], y);
    law_lex_concat(x, y);
}

/// Every character of `seps` is a `,` or white space.
pub open spec fn all_separators(seps: Seq<char>) -> bool {
    forall|i: int| 0 <= i < seps.len() ==> #[trigger] seps[i] == ',' || is_space(seps[i])
}

/// Putting any run of `,` and white-space characters between two parts of a program, or
/// taking it out, changes no token's kind or value, provided the first part leaves no
/// comment open and the parts do not join two runs of digits.
pub proof fn law_separator_run_insertion(x: Seq<char>, seps: Seq<char>, y: Seq<char>)
    requires
        all_separators(seps),
        comments_closed(x),
        !(ends_with_digit(x) && starts_with_digit(y)),
    ensures
        token_values(lex_spec(x + seps + y)) == token_values(lex_spec(x + y)),
    decreases seps.len(),
{
    if seps.len() == 0 {
        assert(x + seps + y =~= x + y);
    } else {
        let c = seps[0];
        let rest = seps.subrange(1, seps.len() as int);
        assert(x + seps + y =~= x + seq![c] + (rest + y));
        if rest.len() > 0 {
            assert((rest + y)[0] == seps[1]);
            assert(!is_digit(seps[1]));
        } else {
            assert(rest + y =~= y);
        }
        law_separator_insertion(x, c, rest + y);
        assert(all_separators(rest)) by {
            assert forall|i: int| 0 <= i < rest.len() implies #[trigger] rest[i] == ',' || is_space(rest[i]) by {
                assert(rest[i] == seps[i + 1]);
            }
        }
        law_separator_run_insertion(x, rest, y);
        assert(x + rest + y =~= x + (rest + y));
    }
}

/// The token `t` stands in `s` where its span says, as the lexer reads it.
pub open spec fn token_in_text(s: Seq<char>, t: Token) -> bool {
    match t {
        Token::Integer(v, sp) => {
            &&& sp.start < sp.end <= s.len()
            &&& forall|k: int| sp.start <= k < sp.end ==> #[trigger] is_digit(s[k])
            &&& v == digits_value(s, sp.start as int, sp.end as int)
        },
        Token::Command(c, sp) => {
            &&& sp.end == sp.start + 1
            &&& sp.end <= s.len()
            &&& c == s[sp.start as int]
            &&& !is_digit(c) && c != ',' && c != '=' && !is_space(c)
        },
    }
}

/// The tokens stand in `s` within `lo..`, each where its span says, in order and without
/// overlapping.
pub open spec fn tokens_in_order(s: Seq<char>, ts: Seq<Token>, lo: int) -> bool {
    &&& forall|k: int| 0 <= k < ts.len() ==> #[trigger] token_in_text(s, ts[k])
    &&& forall|k: int| 0 <= k < ts.len() ==> lo <= (#[trigger] ts[k].spec_span()).start
    &&& forall|k: int, l: int|
        0 <= k < l < ts.len() ==> (#[trigger] ts[k].spec_span()).end <= (
        #[trigger] ts[l].spec_span()).start
}

proof fn lemma_tokens_in_order_from(s: Seq<char>, i: int)
    requires
        0 <= i <= s.len(),
        s.len() <= usize::MAX,
    ensures
        tokens_in_order(s, lex_from(s, i), i),
    decreases s.len() - i,
{
    if i < s.len() {
        let c = s[i];
        if is_digit(c) {
            lemma_digit_run_end_bounds(s, i);
            lemma_digit_run_end_bounds(s, i + 1);
            let j = digit_run_end(s, i);
            lemma_tokens_in_order_from(s, j);
            let rest = lex_from(s, j);
            if digits_value(s, i, j) <= i64::MAX {
                lemma_digits_value_nonneg_law(s, i, j);
                let tok = Token::Integer(digits_value(s, i, j) as i64, Span { start: i as usize, end: j as usize });
                let ts = seq![tok] + rest;
                assert(lex_from(s, i) == ts);
                assert forall|k: int| 0 <= k < ts.len() implies #[trigger] token_in_text(s, ts[k]) by {
                    if k > 0 {
                        assert(ts[k] == rest[k - 1]);
                    }
                }
                assert forall|k: int| 0 <= k < ts.len() implies i <= (#[trigger] ts[k].spec_span()).start by {
                    if k > 0 {
                        assert(ts[k] == rest[k - 1]);
                    }
                }
                assert forall|k: int, l: int| 0 <= k < l < ts.len() implies (#[trigger] ts[k].spec_span()).end
                    <= (#[trigger] ts[l].spec_span()).start by {
                    assert(ts[l] == rest[l - 1]);
                    if k > 0 {
                        assert(ts[k] == rest[k - 1]);
                    }
                }
            }
        } else if c == '=' {
            lemma_next_equals_bounds(s, i + 1);
            lemma_tokens_in_order_from(s, comment_resume(s, i));
        } else if c == ',' || is_space(c) {
            lemma_tokens_in_order_from(s, i + 1);
        } else {
            lemma_tokens_in_order_from(s, i + 1);
            let rest = lex_from(s, i + 1);
            let ts = seq![command_at(s, i)] + rest;
            assert(lex_from(s, i) == ts);
            assert forall|k: int| 0 <= k < ts.len() implies #[trigger] token_in_text(s, ts[k]) by {
                if k > 0 {
                    assert(ts[k] == rest[k - 1]);
                }
            }
            assert forall|k: int| 0 <= k < ts.len() implies i <= (#[trigger] ts[k].spec_span()).start by {
                if k > 0 {
                    assert(ts[k] == rest[k - 1]);
                }
            }
            assert forall|k: int, l: int| 0 <= k < l < ts.len() implies (#[trigger] ts[k].spec_span()).end
                <= (#[trigger] ts[l].spec_span()).start by {
                assert(ts[l] == rest[l - 1]);
                if k > 0 {
                    assert(ts[k] == rest[k - 1]);
                }
            }
        }
    }
}

proof fn lemma_digits_value_nonneg_law(s: Seq<char>, i: int, j: int)
    requires
        forall|k: int| i <= k < j ==> #[trigger] is_digit(s[k]),
    ensures
        digits_value(s, i, j) >= 0,
    decreases j - i,
{
    if j > i {
        lemma_digits_value_nonneg_law(s, i, j - 1);
        assert(is_digit(s[j - 1]));
    }
}

/// Every token stands in the text where its span says, as the lexer read it: a literal
/// over a run of digits with their value, a command over its one character. The tokens
/// come in the order of the text and do not overlap.
pub proof fn law_tokens_in_text(s: Seq<char>)
    requires
        s.len() <= usize::MAX,
    ensures
        tokens_in_order(s, lex_spec(s), 0),
{
    lemma_tokens_in_order_from(s, 0);
}

} // verus!
