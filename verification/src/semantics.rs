//! The meaning of Flap programs: one step of the machine, as a function of its state.
use vstd::prelude::*;
use std::time::Duration;
use crate::lexer::Token;
use crate::interpreter::{ExecutionResult, RuntimeError, InputEnd};
use crate::text::{is_ascii_space, parse_i64_spec, decimal_digits};
use crate::clock::duration_exceeds;

verus! {

/// The state of a Flap machine as the semantics sees it.
#[verifier::ext_equal]
pub struct Machine {
    /// The value stack; its last element is the top.
    pub stack: Seq<i64>,
    /// Input bytes that arrived and were not read yet.
    pub input: Seq<u8>,
    /// What comes after `input`: more bytes later, the end of input, or a read error.
    pub input_end: InputEnd,
    /// Printed bytes not yet taken by the caller.
    pub output: Seq<u8>,
    /// All bytes printed so far.
    pub bytes_written: nat,
    /// Index of the next token to run.
    pub pc: nat,
    /// Steps started so far.
    pub steps: nat,
    /// The deepest the stack has been.
    pub max_stack_depth: nat,
    /// The last step stopped in an input command for want of input.
    pub awaiting_input: bool,
    pub max_stack_size: nat,
    pub max_output_size: nat,
    pub time_check_interval: nat,
    /// How long a run may take before the clock stops it.
    pub time_limit: Duration,
}

/// What a command does to the machine.
pub enum Outcome {
    /// It completed; the machine is now in this state.
    Done(Machine),
    /// It failed with this error, leaving the machine in this state.
    Fail(Machine, RuntimeError),
    /// It needs input that has not arrived; nothing changed.
    Wait,
}

pub open spec fn set_stack(m: Machine, s: Seq<i64>) -> Machine {
    Machine { stack: s, ..m }
}

pub open spec fn set_pc(m: Machine, pc: nat) -> Machine {
    Machine { pc: pc, ..m }
}

pub open spec fn set_input(m: Machine, input: Seq<u8>, end: InputEnd) -> Machine {
    Machine { input: input, input_end: end, ..m }
}

pub open spec fn set_awaiting(m: Machine, awaiting: bool) -> Machine {
    Machine { awaiting_input: awaiting, ..m }
}

/// The stack without its top `n` values.
pub open spec fn drop_top(s: Seq<i64>, n: int) -> Seq<i64> {
    s.subrange(0, s.len() - n)
}

/// The value `k` places below the top (`k == 0` is the top).
pub open spec fn below(s: Seq<i64>, k: int) -> i64 {
    s[s.len() - 1 - k]
}

/// Records a new stack depth.
pub open spec fn deepen(m: Machine) -> Machine {
    Machine {
        max_stack_depth: if m.stack.len() > m.max_stack_depth {
            m.stack.len()
        } else {
            m.max_stack_depth
        },
        ..m
    }
}

/// Division truncated toward zero, on mathematical integers.
pub open spec fn trunc_div(x: int, d: int) -> int {
    if x == 0 {
        0
    } else if x > 0 && d > 0 {
        x / d
    } else if x < 0 && d < 0 {
        (-x) / (-d)
    } else if x < 0 {
        -((-x) / d)
    } else {
        -(x / (-d))
    }
}

/// The remainder of truncated division: it has the sign of `x`.
pub open spec fn trunc_rem(x: int, d: int) -> int {
    if x == 0 {
        0
    } else if x > 0 && d > 0 {
        x % d
    } else if x < 0 && d < 0 {
        -((-x) % (-d))
    } else if x < 0 {
        -((-x) % d)
    } else {
        x % (-d)
    }
}

/// `a / b` on the stack: 0 when `b` is 0, and the wrapped value `i64::MIN` for the one
/// quotient that does not fit (`i64::MIN / -1`).
pub open spec fn flap_div(a: i64, b: i64) -> i64 {
    if b == 0 {
        0
    } else if a == i64::MIN && b == -1 {
        i64::MIN
    } else {
        trunc_div(a as int, b as int) as i64
    }
}

/// `a % b` on the stack: 0 when `b` is 0.
pub open spec fn flap_rem(a: i64, b: i64) -> i64 {
    if b == 0 {
        0
    } else {
        trunc_rem(a as int, b as int) as i64
    }
}

/// The result of an arithmetic command on `a` (below) and `b` (top).
pub open spec fn arith(c: char, a: i64, b: i64) -> i64 {
    if c == '+' {
        vstd::wrapping::i64_specs::wrapping_add(a, b)
    } else if c == '-' {
        vstd::wrapping::i64_specs::wrapping_sub(a, b)
    } else if c == '*' {
        vstd::wrapping::i64_specs::wrapping_mul(a, b)
    } else if c == '/' {
        flap_div(a, b)
    } else {
        flap_rem(a, b)
    }
}

pub open spec fn is_arith(c: char) -> bool {
    c == '+' || c == '-' || c == '*' || c == '/' || c == '%'
}

/// A binary command pops `b` then `a` and pushes the result. With one value on the stack
/// that value is popped before the underflow is noticed.
pub open spec fn binary(m: Machine, c: char) -> Outcome {
    if m.stack.len() == 0 {
        Outcome::Fail(m, RuntimeError::StackUnderflow)
    } else if m.stack.len() == 1 {
        Outcome::Fail(set_stack(m, Seq::empty()), RuntimeError::StackUnderflow)
    } else {
        Outcome::Done(
            set_stack(
                m,
                drop_top(m.stack, 2).push(arith(c, below(m.stack, 1), below(m.stack, 0))),
            ),
        )
    }
}

/// `token` is the command `c`.
pub open spec fn is_command(token: Token, c: char) -> bool {
    token matches Token::Command(d, _) && d == c
}

/// Scanning forward from `i`, the index where the bracket open before `i` (at nesting
/// `depth`) is closed.
pub open spec fn match_forward(t: Seq<Token>, i: int, open: char, close: char, depth: nat) -> Option<
    nat,
>
    decreases t.len() - i,
{
    if i < 0 || i >= t.len() {
        None
    } else if is_command(t[i], open) {
        match_forward(t, i + 1, open, close, depth + 1)
    } else if is_command(t[i], close) {
        if depth <= 1 {
            Some(i as nat)
        } else {
            match_forward(t, i + 1, open, close, (depth - 1) as nat)
        }
    } else {
        match_forward(t, i + 1, open, close, depth)
    }
}

/// Scanning backward from `i`, the index of the bracket that opens the block closed after
/// `i` (at nesting `depth`).
pub open spec fn match_backward(t: Seq<Token>, i: int, close: char, open: char, depth: nat) -> Option<
    nat,
>
    decreases i + 1,
{
    if i < 0 || i >= t.len() {
        None
    } else if is_command(t[i], close) {
        match_backward(t, i - 1, close, open, depth + 1)
    } else if is_command(t[i], open) {
        if depth <= 1 {
            Some(i as nat)
        } else {
            match_backward(t, i - 1, close, open, (depth - 1) as nat)
        }
    } else {
        match_backward(t, i - 1, close, open, depth)
    }
}

/// Appends printed bytes, unless that would pass the output limit.
pub open spec fn emit(m: Machine, bytes: Seq<u8>) -> Option<Machine> {
    if m.bytes_written + bytes.len() > m.max_output_size {
        None
    } else {
        Some(
            Machine {
                output: m.output + bytes,
                bytes_written: m.bytes_written + bytes.len(),
                ..m
            },
        )
    }
}

/// The magnitude of `v`.
pub open spec fn magnitude(v: i64) -> nat {
    if v < 0 {
        (-v) as nat
    } else {
        v as nat
    }
}

/// The decimal text of `v`: a `-` for a negative number, then the digits of its magnitude.
pub open spec fn decimal_text_of(v: i64) -> Seq<u8> {
    if v < 0 {
        seq![45u8] + decimal_digits(magnitude(v))
    } else {
        decimal_digits(magnitude(v))
    }
}

/// Prints `v` in decimal: a negative number's `-` is written first, then its digits, each
/// part held to the output limit on its own.
pub open spec fn print_number(m: Machine, v: i64) -> Outcome {
    if v < 0 {
        match emit(m, seq![45u8]) {
            None => Outcome::Fail(m, RuntimeError::OutputLimitExceeded),
            Some(m1) => match emit(m1, decimal_digits(magnitude(v))) {
                None => Outcome::Fail(m1, RuntimeError::OutputLimitExceeded),
                Some(m2) => Outcome::Done(m2),
            },
        }
    } else {
        match emit(m, decimal_digits(magnitude(v))) {
            None => Outcome::Fail(m, RuntimeError::OutputLimitExceeded),
            Some(m1) => Outcome::Done(m1),
        }
    }
}

/// The UTF-8 encoding of the character whose code is the byte `b`.
pub open spec fn char_bytes(b: u8) -> Seq<u8> {
    if b < 128 {
        seq![b]
    } else {
        seq![(192 + b / 64) as u8, (128 + b % 64) as u8]
    }
}

/// Prints the character whose code is the low byte of `v`.
pub open spec fn print_char(m: Machine, v: i64) -> Outcome {
    match emit(m, char_bytes(#[verifier::truncate] (v as u8))) {
        None => Outcome::Fail(m, RuntimeError::OutputLimitExceeded),
        Some(m1) => Outcome::Done(m1),
    }
}

/// The first index at or after `i` whose byte is not white space, or `s.len()`.
pub open spec fn skip_spaces(s: Seq<u8>, i: int) -> int
    decreases s.len() - i,
{
    if i < 0 || i >= s.len() {
        s.len() as int
    } else if is_ascii_space(s[i]) {
        skip_spaces(s, i + 1)
    } else {
        i
    }
}

/// The first index at or after `i` whose byte is white space, or `s.len()`.
pub open spec fn find_space(s: Seq<u8>, i: int) -> int
    decreases s.len() - i,
{
    if i < 0 || i >= s.len() {
        s.len() as int
    } else if is_ascii_space(s[i]) {
        i
    } else {
        find_space(s, i + 1)
    }
}

/// The first index at or after `i` holding a line feed, or `s.len()`.
pub open spec fn find_newline(s: Seq<u8>, i: int) -> int
    decreases s.len() - i,
{
    if i < 0 || i >= s.len() {
        s.len() as int
    } else if s[i] == 10u8 {
        i
    } else {
        find_newline(s, i + 1)
    }
}

/// Pushes one value.
pub open spec fn push_value(m: Machine, v: i64) -> Machine {
    set_stack(m, m.stack.push(v))
}

/// The end of the input after a read reached it: a read error is reported once.
pub open spec fn after_end(e: InputEnd) -> InputEnd {
    match e {
        InputEnd::Failed(_) => InputEnd::Open,
        _ => e,
    }
}

/// Ends the `r` command once the word and the input left are known: an empty word reads
/// as 0, any other word must be a number.
pub open spec fn finish_number(m: Machine, word: Seq<u8>, rest: Seq<u8>, end: InputEnd) -> Outcome {
    let m1 = set_input(m, rest, end);
    if word.len() == 0 {
        Outcome::Done(push_value(m1, 0))
    } else {
        match parse_i64_spec(word) {
            Some(v) => Outcome::Done(push_value(m1, v)),
            None => Outcome::Fail(m1, RuntimeError::InvalidInput),
        }
    }
}

/// `r`: skips white space, reads the following word up to white space or the end of the
/// input, and pushes its value. A carriage return that ends the word takes a line feed
/// right after it along.
pub open spec fn read_number(m: Machine) -> Outcome {
    let s = m.input;
    let i0 = skip_spaces(s, 0);
    let j = find_space(s, i0);
    let word = s.subrange(i0, j);
    if j >= s.len() {
        match m.input_end {
            InputEnd::Open => Outcome::Wait,
            _ => finish_number(m, word, Seq::empty(), after_end(m.input_end)),
        }
    } else if s[j] == 13u8 {
        if j + 1 < s.len() {
            let next = if s[j + 1] == 10u8 {
                j + 2
            } else {
                j + 1
            };
            finish_number(m, word, s.skip(next), m.input_end)
        } else {
            match m.input_end {
                InputEnd::Open => Outcome::Wait,
                InputEnd::Closed => finish_number(m, word, Seq::empty(), InputEnd::Closed),
                InputEnd::Failed(msg) => Outcome::Fail(
                    set_input(m, Seq::empty(), InputEnd::Open),
                    RuntimeError::IoError(msg),
                ),
            }
        }
    } else {
        finish_number(m, word, s.skip(j + 1), m.input_end)
    }
}

/// `t`: pushes the next input byte, or 0 at the end of the input.
pub open spec fn read_byte(m: Machine) -> Outcome {
    if m.input.len() > 0 {
        Outcome::Done(push_value(set_input(m, m.input.drop_first(), m.input_end), m.input[0] as i64))
    } else {
        match m.input_end {
            InputEnd::Open => Outcome::Wait,
            InputEnd::Closed => Outcome::Done(push_value(m, 0)),
            InputEnd::Failed(msg) => Outcome::Fail(
                set_input(m, m.input, InputEnd::Open),
                RuntimeError::IoError(msg),
            ),
        }
    }
}

/// The bytes of a line as values.
pub open spec fn byte_values(b: Seq<u8>) -> Seq<i64> {
    b.map_values(|x: u8| x as i64)
}

/// A line without the carriage return that ends it, if any.
pub open spec fn strip_cr(b: Seq<u8>) -> Seq<u8> {
    if b.len() > 0 && b.last() == 13u8 {
        b.drop_last()
    } else {
        b
    }
}

/// `T`: reads one line and pushes its bytes in order, so that its last character ends
/// on top. The line feed that ends the line (and a carriage return before it) is not
/// pushed; at the end of the input the rest of the input is the line.
pub open spec fn read_line(m: Machine) -> Outcome {
    let s = m.input;
    let j = find_newline(s, 0);
    if j < s.len() {
        Outcome::Done(
            set_stack(
                set_input(m, s.skip(j + 1), m.input_end),
                m.stack + byte_values(strip_cr(s.take(j))),
            ),
        )
    } else {
        match m.input_end {
            InputEnd::Open => Outcome::Wait,
            InputEnd::Closed => Outcome::Done(
                set_stack(set_input(m, Seq::empty(), InputEnd::Closed), m.stack + byte_values(s)),
            ),
            InputEnd::Failed(msg) => Outcome::Fail(
                set_input(m, Seq::empty(), InputEnd::Open),
                RuntimeError::IoError(msg),
            ),
        }
    }
}

/// `p` and `P`: pops the top value and prints it as a number or as a character; fails on
/// an empty stack.
pub open spec fn print_top(m: Machine, as_char: bool) -> Outcome {
    if m.stack.len() == 0 {
        Outcome::Fail(m, RuntimeError::StackUnderflow)
    } else {
        let m1 = set_stack(m, m.stack.drop_last());
        if as_char {
            print_char(m1, m.stack.last())
        } else {
            print_number(m1, m.stack.last())
        }
    }
}

/// The stack with its two top values exchanged.
pub open spec fn swap_top(s: Seq<i64>) -> Seq<i64> {
    drop_top(s, 2).push(below(s, 0)).push(below(s, 1))
}

/// The stack with its third value moved to the top: `a, b, c -> b, c, a`.
pub open spec fn rotate_top(s: Seq<i64>) -> Seq<i64> {
    drop_top(s, 3).push(below(s, 1)).push(below(s, 0)).push(below(s, 2))
}

/// `[`: enters the loop when the top is non-zero; otherwise goes to the matching `]`.
/// The top is not popped.
pub open spec fn loop_start(m: Machine, t: Seq<Token>) -> Outcome {
    if m.stack.len() == 0 {
        Outcome::Fail(m, RuntimeError::StackUnderflow)
    } else if m.stack.last() != 0 {
        Outcome::Done(m)
    } else {
        match match_forward(t, m.pc + 1int, '[', ']', 1) {
            None => Outcome::Fail(m, RuntimeError::UnmatchedBracket),
            Some(k) => Outcome::Done(set_pc(m, k)),
        }
    }
}

/// `]`: goes back to just after the matching `[` when the top is non-zero; otherwise
/// leaves the loop. The top is not popped.
pub open spec fn loop_end(m: Machine, t: Seq<Token>) -> Outcome {
    if m.stack.len() == 0 {
        Outcome::Fail(m, RuntimeError::StackUnderflow)
    } else if m.stack.last() == 0 {
        Outcome::Done(m)
    } else {
        match match_backward(t, m.pc - 1, ']', '[', 1) {
            None => Outcome::Fail(m, RuntimeError::UnmatchedBracket),
            Some(k) => Outcome::Done(set_pc(m, k)),
        }
    }
}

/// `(`: pops the condition; when it is zero, goes to the matching `)`.
pub open spec fn if_start(m: Machine, t: Seq<Token>) -> Outcome {
    if m.stack.len() == 0 {
        Outcome::Fail(m, RuntimeError::StackUnderflow)
    } else {
        let m1 = set_stack(m, m.stack.drop_last());
        if m.stack.last() != 0 {
            Outcome::Done(m1)
        } else {
            match match_forward(t, m.pc + 1int, '(', ')', 1) {
                None => Outcome::Fail(m1, RuntimeError::UnmatchedBracket),
                Some(k) => Outcome::Done(set_pc(m1, k)),
            }
        }
    }
}

/// What the command `c` at `m.pc` does.
pub open spec fn command(m: Machine, c: char, t: Seq<Token>) -> Outcome {
    if is_arith(c) {
        binary(m, c)
    } else if c == ':' {
        if m.stack.len() == 0 {
            Outcome::Fail(m, RuntimeError::StackUnderflow)
        } else {
            Outcome::Done(push_value(m, m.stack.last()))
        }
    } else if c == ';' {
        if m.stack.len() == 0 {
            Outcome::Fail(m, RuntimeError::StackUnderflow)
        } else {
            Outcome::Done(set_stack(m, m.stack.drop_last()))
        }
    } else if c == 'x' {
        if m.stack.len() < 2 {
            Outcome::Fail(m, RuntimeError::StackUnderflow)
        } else {
            Outcome::Done(set_stack(m, swap_top(m.stack)))
        }
    } else if c == '@' {
        if m.stack.len() < 3 {
            Outcome::Fail(m, RuntimeError::StackUnderflow)
        } else {
            Outcome::Done(set_stack(m, rotate_top(m.stack)))
        }
    } else if c == 'R' {
        Outcome::Done(set_stack(m, m.stack.reverse()))
    } else if c == 'r' {
        read_number(m)
    } else if c == 't' {
        read_byte(m)
    } else if c == 'T' {
        read_line(m)
    } else if c == 'p' {
        print_top(m, false)
    } else if c == 'P' {
        print_top(m, true)
    } else if c == '[' {
        loop_start(m, t)
    } else if c == ']' {
        loop_end(m, t)
    } else if c == '(' {
        if_start(m, t)
    } else if c == ')' {
        Outcome::Done(m)
    } else {
        Outcome::Fail(m, RuntimeError::UnknownCommand(c))
    }
}

/// Moves past the token just run.
pub open spec fn finish_step(m: Machine, t: Seq<Token>) -> (Machine, ExecutionResult) {
    let m1 = set_pc(m, m.pc + 1);
    (m1, if m1.pc >= t.len() { ExecutionResult::Success } else { ExecutionResult::Running })
}

/// Runs the token at `m.pc` (which is in range).
pub open spec fn run_token(m0: Machine, t: Seq<Token>) -> (Machine, ExecutionResult) {
    let m = set_awaiting(m0, false);
    match t[m.pc as int] {
        Token::Integer(v, _) => if m.stack.len() >= m.max_stack_size {
            (m, ExecutionResult::MemoryLimitExceeded)
        } else {
            finish_step(deepen(push_value(m, v)), t)
        },
        Token::Command(c, _) => match command(m, c, t) {
            Outcome::Wait => (set_awaiting(m, true), ExecutionResult::AwaitingInput),
            Outcome::Fail(m2, e) => (m2, ExecutionResult::RuntimeError(e)),
            Outcome::Done(m2) => if m2.stack.len() > m2.max_stack_size {
                (m2, ExecutionResult::MemoryLimitExceeded)
            } else {
                finish_step(deepen(m2), t)
            },
        },
    }
}

/// One step of the machine on the program `t`. `late` says whether the clock, if it is
/// read in this step, shows the time limit passed; it is read every `time_check_interval`
/// steps. A step that resumes an input command after waiting is not counted again.
/// When the step counter is exhausted the run counts as out of time.
pub open spec fn step_spec(m: Machine, t: Seq<Token>, late: bool) -> (Machine, ExecutionResult) {
    if m.pc >= t.len() {
        (m, ExecutionResult::Success)
    } else if m.awaiting_input {
        run_token(m, t)
    } else if m.steps >= u64::MAX {
        (m, ExecutionResult::TimeLimitExceeded)
    } else {
        let m1 = Machine { steps: m.steps + 1, ..m };
        if m1.steps % m.time_check_interval == 0 && late {
            (m1, ExecutionResult::TimeLimitExceeded)
        } else {
            run_token(m1, t)
        }
    }
}

/// The step from `m` is one at which the clock is read.
pub open spec fn clock_due(m: Machine, t: Seq<Token>) -> bool {
    &&& m.pc < t.len()
    &&& !m.awaiting_input
    &&& m.steps < u64::MAX
    &&& (m.steps + 1) % m.time_check_interval == 0
}

/// Runs steps with the clock readings `clock` (one per step) until a step ends with
/// anything but `Running`; with no readings left the run is still `Running`.
pub open spec fn run(m: Machine, t: Seq<Token>, clock: Seq<bool>) -> (Machine, ExecutionResult)
    decreases clock.len(),
{
    if clock.len() == 0 {
        (m, ExecutionResult::Running)
    } else {
        let (m1, r1) = run(m, t, clock.drop_last());
        if r1 is Running {
            step_spec(m1, t, clock.last())
        } else {
            (m1, r1)
        }
    }
}

/// For clock readings taken at successive checks, whether each shows the time limit
/// `limit` passed.
pub open spec fn lateness(readings: Seq<Duration>, limit: Duration) -> Seq<bool> {
    Seq::new(readings.len(), |i: int| duration_exceeds(readings[i], limit))
}

/// A step at which the clock is not due does not depend on what the clock would say.
pub proof fn lemma_clock_not_read(m: Machine, t: Seq<Token>, a: bool, b: bool)
    requires
        !clock_due(m, t),
    ensures
        step_spec(m, t, a) == step_spec(m, t, b),
{
}

/// The two states have the same limits.
pub open spec fn same_limits(a: Machine, b: Machine) -> bool {
    &&& a.max_stack_size == b.max_stack_size
    &&& a.max_output_size == b.max_output_size
    &&& a.time_check_interval == b.time_check_interval
    &&& a.time_limit == b.time_limit
}

/// A command keeps the limits, the step counter, the recorded depth and the waiting flag,
/// and never prints past the output limit.
pub open spec fn command_frame(a: Machine, b: Machine) -> bool {
    &&& same_limits(a, b)
    &&& a.steps == b.steps
    &&& a.max_stack_depth == b.max_stack_depth
    &&& a.awaiting_input == b.awaiting_input
    &&& (a.bytes_written <= a.max_output_size ==> b.bytes_written <= b.max_output_size)
    &&& a.bytes_written <= b.bytes_written
}

pub proof fn lemma_emit_frame(m: Machine, bytes: Seq<u8>)
    ensures
        emit(m, bytes) matches Some(m2) ==> command_frame(m, m2) && m2.bytes_written
            <= m2.max_output_size,
{
}

pub proof fn lemma_command_frame(m: Machine, c: char, t: Seq<Token>)
    ensures
        match command(m, c, t) {
            Outcome::Done(m2) => command_frame(m, m2),
            Outcome::Fail(m2, _) => command_frame(m, m2),
            Outcome::Wait => true,
        },
{
    if c == 'p' || c == 'P' {
        if m.stack.len() > 0 {
            let m1 = set_stack(m, m.stack.drop_last());
            let v = m.stack.last();
            lemma_emit_frame(m1, seq![45u8]);
            lemma_emit_frame(m1, decimal_digits(magnitude(v)));
            lemma_emit_frame(m1, char_bytes(#[verifier::truncate] (v as u8)));
            if let Some(m2) = emit(m1, seq![45u8]) {
                lemma_emit_frame(m2, decimal_digits(magnitude(v)));
            }
        }
    }
}

/// A step keeps the limits; a step that ends `Running` moves the run forward.
pub proof fn lemma_step_frame(m: Machine, t: Seq<Token>, late: bool)
    ensures
        same_limits(m, step_spec(m, t, late).0),
        step_spec(m, t, late).1 is Running ==> progress_measure(step_spec(m, t, late).0)
            < progress_measure(m),
        step_spec(m, t, late).0.steps >= m.steps,
        step_spec(m, t, late).0.max_stack_depth >= m.max_stack_depth,
        m.bytes_written <= m.max_output_size ==> step_spec(m, t, late).0.bytes_written
            <= step_spec(m, t, late).0.max_output_size,
{
    if m.pc < t.len() {
        let m1 = if m.awaiting_input {
            m
        } else {
            Machine { steps: m.steps + 1, ..m }
        };
        let m0 = set_awaiting(m1, false);
        match t[m0.pc as int] {
            Token::Command(c, _) => {
                lemma_command_frame(m0, c, t);
            },
            _ => {},
        }
    }
}

/// The measure that every `Running` step decreases.
pub open spec fn progress_measure(m: Machine) -> int {
    (u64::MAX - m.steps) * 2 + if m.awaiting_input { 1int } else { 0int }
}

pub proof fn lemma_match_forward_bound(t: Seq<Token>, i: int, open: char, close: char, depth: nat)
    ensures
        match_forward(t, i, open, close, depth) matches Some(k) ==> i <= k < t.len(),
    decreases t.len() - i,
{
    if 0 <= i < t.len() {
        lemma_match_forward_bound(t, i + 1, open, close, depth + 1);
        lemma_match_forward_bound(t, i + 1, open, close, depth);
        if depth > 1 {
            lemma_match_forward_bound(t, i + 1, open, close, (depth - 1) as nat);
        }
    }
}

pub proof fn lemma_match_backward_bound(t: Seq<Token>, i: int, close: char, open: char, depth: nat)
    ensures
        match_backward(t, i, close, open, depth) matches Some(k) ==> 0 <= k <= i < t.len(),
    decreases i + 1,
{
    if 0 <= i < t.len() {
        lemma_match_backward_bound(t, i - 1, close, open, depth + 1);
        lemma_match_backward_bound(t, i - 1, close, open, depth);
        if depth > 1 {
            lemma_match_backward_bound(t, i - 1, close, open, (depth - 1) as nat);
        }
    }
}

/// A command leaves the program counter on a token of the program.
pub proof fn lemma_command_pc(m: Machine, c: char, t: Seq<Token>)
    requires
        m.pc < t.len(),
    ensures
        command(m, c, t) matches Outcome::Done(m2) ==> m2.pc < t.len(),
{
    lemma_match_forward_bound(t, m.pc + 1int, '[', ']', 1);
    lemma_match_forward_bound(t, m.pc + 1int, '(', ')', 1);
    lemma_match_backward_bound(t, m.pc - 1, ']', '[', 1);
}

} // verus!
