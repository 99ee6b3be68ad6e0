//! The Flap interpreter: a stack machine that runs a token list step by step.
//!
//! The machine does no I/O itself. Printed bytes collect in its output buffer, and input
//! bytes are handed to it by the caller; when a reading command finds no input yet, the
//! step stops with `ExecutionResult::AwaitingInput` and the same command is resumed by the
//! next step once input (or its end) has been supplied.
use vstd::prelude::*;
use vstd::string::StringExecFns;
use std::collections::VecDeque;
use std::time::{Duration, Instant};
use crate::lexer::Token;
use crate::semantics::{
    Machine, Outcome, set_stack, set_input, deepen, binary, is_arith, arith, flap_div, flap_rem,
    trunc_rem, emit, char_bytes, magnitude, print_top, read_number, read_byte, read_line,
    finish_number, skip_spaces, find_space, find_newline, after_end, byte_values, strip_cr,
    swap_top, rotate_top, drop_top, below, match_forward, match_backward, is_command, command,
    finish_step, run_token, step_spec, run, clock_due, progress_measure, same_limits, lateness,
    lemma_clock_not_read,
    lemma_command_pc, lemma_step_frame,
};
use crate::text::{byte_is_space, parse_i64, decimal_of};
use crate::clock::{clock_now, clock_elapsed, duration_longer, duration_from_millis, millis_duration, duration_exceeds};
use crate::config::default_time_limit;

verus! {

/// Why a command failed.
#[derive(Debug, PartialEq)]
pub enum RuntimeError {
    StackUnderflow,
    DivisionByZero,
    IoError(String),
    InvalidInput,
    UnmatchedBracket,
    UnknownCommand(char),
    OutputLimitExceeded,
}

/// How a step or a run ended.
#[derive(Debug, PartialEq)]
pub enum ExecutionResult {
    /// The program ran to its end.
    Success,
    /// The step completed and more tokens remain.
    Running,
    RuntimeError(RuntimeError),
    TimeLimitExceeded,
    MemoryLimitExceeded,
    /// An input command needs bytes that have not been supplied yet.
    AwaitingInput,
}

/// What follows the input bytes supplied so far.
#[derive(Debug, PartialEq)]
pub enum InputEnd {
    /// More bytes may be supplied.
    Open,
    /// The input has ended.
    Closed,
    /// The next read fails with this message (once).
    Failed(String),
}

/// The default limit on printed bytes: 1 MiB.
pub const MAX_OUTPUT_SIZE: usize = 1024 * 1024;

/// The default limit on stack values: 128 Ki values (1 MiB of `i64`).
pub const MAX_STACK_SIZE: usize = 1024 * 1024 / 8;

/// The default number of steps between two readings of the clock.
pub const DEFAULT_TIME_CHECK_INTERVAL: u64 = 1_000;

impl RuntimeError {
    /// The message that describes the error.
    pub open spec fn spec_message(&self) -> Seq<char> {
        match self {
            RuntimeError::StackUnderflow => "Stack underflow"@,
            RuntimeError::DivisionByZero => "Division by zero"@,
            RuntimeError::IoError(msg) => "I/O error: "@ + msg@,
            RuntimeError::InvalidInput => "Invalid input"@,
            RuntimeError::UnmatchedBracket => "Unmatched bracket"@,
            RuntimeError::UnknownCommand(c) => "Unknown command: '"@ + seq![*c] + "'"@,
            RuntimeError::OutputLimitExceeded => "Output limit exceeded (max 1MB)"@,
        }
    }
}

/// The outcome of one command, the machine state aside.
enum CmdResult {
    Done,
    Fail(RuntimeError),
    Wait,
}

/// `r` reports `o`, and the machine went from `before` to `after` as `o` says.
spec fn reports(o: Outcome, before: Machine, after: Machine, r: CmdResult) -> bool {
    match o {
        Outcome::Done(m) => r is Done && after == m,
        Outcome::Fail(m, e) => r == CmdResult::Fail(e) && after == m,
        Outcome::Wait => r is Wait && after == before,
    }
}

/// A Flap interpreter with its limits.
pub struct Interpreter {
    stack: Vec<i64>,
    input: VecDeque<u8>,
    input_end: InputEnd,
    output: Vec<u8>,
    time_limit: Duration,
    max_stack_depth: usize,
    pc: usize,
    steps: u64,
    bytes_written: usize,
    start_time: Option<Instant>,
    max_stack_size: usize,
    max_output_size: usize,
    time_check_interval: u64,
    awaiting_input: bool,
}

impl View for Interpreter {
    type V = Machine;

    closed spec fn view(&self) -> Machine {
        Machine {
            stack: self.stack@,
            input: self.input@,
            input_end: self.input_end,
            output: self.output@,
            bytes_written: self.bytes_written as nat,
            pc: self.pc as nat,
            steps: self.steps as nat,
            max_stack_depth: self.max_stack_depth as nat,
            awaiting_input: self.awaiting_input,
            max_stack_size: self.max_stack_size as nat,
            max_output_size: self.max_output_size as nat,
            time_check_interval: self.time_check_interval as nat,
            time_limit: self.time_limit,
        }
    }
}

/// A freshly built machine: empty stack, no input yet, nothing printed.
pub open spec fn fresh(
    time_limit: Duration,
    max_stack_size: nat,
    max_output_size: nat,
    time_check_interval: nat,
) -> Machine {
    Machine {
        stack: Seq::empty(),
        input: Seq::empty(),
        input_end: InputEnd::Open,
        output: Seq::empty(),
        bytes_written: 0,
        pc: 0,
        steps: 0,
        max_stack_depth: 0,
        awaiting_input: false,
        max_stack_size,
        max_output_size,
        time_check_interval,
        time_limit,
    }
}

impl Interpreter {
    /// An interpreter with the default limits: 2000 ms, 128 Ki stack values, 1 MiB of
    /// output, the clock read every 1000 steps.
    pub fn new() -> (r: Self)
        ensures
            r@ == fresh(millis_duration(2000), 131072, 1048576, 1000),
    {
        Self::with_options(
            duration_from_millis(default_time_limit()),
            MAX_STACK_SIZE,
            MAX_OUTPUT_SIZE,
            DEFAULT_TIME_CHECK_INTERVAL,
        )
    }

    /// An interpreter with the given limits.
    pub fn with_options(
        time_limit: Duration,
        max_stack_size: usize,
        max_output_size: usize,
        time_check_interval: u64,
    ) -> (r: Self)
        ensures
            r@ == fresh(time_limit, max_stack_size as nat, max_output_size as nat, time_check_interval as nat),
    {
        let r = Interpreter {
            stack: Vec::new(),
            input: VecDeque::new(),
            input_end: InputEnd::Open,
            output: Vec::new(),
            time_limit,
            max_stack_depth: 0,
            pc: 0,
            steps: 0,
            bytes_written: 0,
            start_time: None,
            max_stack_size,
            max_output_size,
            time_check_interval,
            awaiting_input: false,
        };
        r
    }

    /// The value stack; its last element is the top.
    pub fn stack(&self) -> (r: &Vec<i64>)
        ensures
            r@ == self@.stack,
    {
        &self.stack
    }

    /// Replaces the stack, recording its depth.
    pub fn load_stack(&mut self, stack: Vec<i64>)
        ensures
            final(self)@ == deepen(set_stack(old(self)@, stack@)),
    {
        self.stack = stack;
        if self.stack.len() > self.max_stack_depth {
            self.max_stack_depth = self.stack.len();
        }
    }

    /// The index of the next token to run.
    pub fn pc(&self) -> (r: usize)
        ensures
            r == self@.pc,
    {
        self.pc
    }

    /// Bytes printed and not yet taken.
    pub fn output(&self) -> (r: &Vec<u8>)
        ensures
            r@ == self@.output,
    {
        &self.output
    }

    /// Hands over the bytes printed since the last call; they still count toward the
    /// output limit.
    pub fn take_output(&mut self) -> (r: Vec<u8>)
        ensures
            r@ == old(self)@.output,
            final(self)@ == (Machine { output: Seq::empty(), ..old(self)@ }),
    {
        let mut taken: Vec<u8> = Vec::new();
        std::mem::swap(&mut taken, &mut self.output);
        taken
    }

    /// Adds input bytes after those supplied before.
    pub fn supply_input(&mut self, bytes: &[u8])
        ensures
            final(self)@ == set_input(old(self)@, old(self)@.input + bytes@, old(self)@.input_end),
    {
        let ghost before = self@.input;
        let mut i: usize = 0;
        while i < bytes.len()
            invariant
                self@ == set_input(old(self)@, before + bytes@.take(i as int), old(self)@.input_end),
                before == old(self)@.input,
                i <= bytes@.len(),
            decreases bytes@.len() - i,
        {
            self.input.push_back(bytes[i]);
            i = i + 1;
            assert(self.input@ =~= before + bytes@.take(i as int));
        }
        assert(bytes@.take(i as int) =~= bytes@);
    }

    /// Marks the end of the input: reads past the supplied bytes see the end.
    pub fn close_input(&mut self)
        ensures
            final(self)@ == set_input(old(self)@, old(self)@.input, InputEnd::Closed),
    {
        self.input_end = InputEnd::Closed;
    }

    /// Records that reading the input failed: the next read past the supplied bytes
    /// reports this message.
    pub fn fail_input(&mut self, message: String)
        ensures
            final(self)@ == set_input(old(self)@, old(self)@.input, InputEnd::Failed(message)),
    {
        self.input_end = InputEnd::Failed(message);
    }
}

/// `flap_div` computed.
fn divide(a: i64, b: i64) -> (r: i64)
    ensures
        r == flap_div(a, b),
{
    if b == 0 {
        0
    } else if a == i64::MIN && b == -1 {
        i64::MIN
    } else {
        proof {
            let x = a as int;
            let d = b as int;
            if x > 0 && d > 0 {
                assert(0 <= x / d <= x) by (nonlinear_arith)
                    requires
                        x > 0,
                        d > 0,
                ;
            } else if x < 0 && d < 0 {
                assert(0 <= (-x) / (-d) <= -x) by (nonlinear_arith)
                    requires
                        x < 0,
                        d < 0,
                ;
                if x == i64::MIN {
                    assert(d != -1);
                    assert((-x) / (-d) <= (-x) / 2) by (nonlinear_arith)
                        requires
                            -x > 0,
                            -d >= 2,
                    ;
                }
            } else if x < 0 {
                assert(0 <= (-x) / d <= -x) by (nonlinear_arith)
                    requires
                        x < 0,
                        d > 0,
                ;
            } else if x > 0 {
                assert(0 <= x / (-d) <= x) by (nonlinear_arith)
                    requires
                        x > 0,
                        d < 0,
                ;
            }
        }
        match a.checked_div(b) {
            Some(q) => q,
            None => 0,
        }
    }
}

/// `flap_rem` computed.
fn remainder(a: i64, b: i64) -> (r: i64)
    ensures
        r == flap_rem(a, b),
{
    if b == 0 {
        0
    } else if b == -1 {
        assert(trunc_rem(a as int, -1) == 0);
        0
    } else {
        proof {
            let x = a as int;
            let d = b as int;
            if x > 0 && d > 0 {
                assert(0 <= x % d < d) by (nonlinear_arith)
                    requires
                        d > 0,
                ;
            } else if x < 0 && d < 0 {
                assert(0 <= (-x) % (-d) < -d) by (nonlinear_arith)
                    requires
                        d < 0,
                ;
            } else if x < 0 {
                assert(0 <= (-x) % d < d) by (nonlinear_arith)
                    requires
                        d > 0,
                ;
            } else if x > 0 {
                assert(0 <= x % (-d) < -d) by (nonlinear_arith)
                    requires
                        d < 0,
                ;
            }
        }
        match a.checked_rem(b) {
            Some(q) => q,
            None => 0,
        }
    }
}

impl Interpreter {
    /// An arithmetic command.
    fn binary_op(&mut self, c: char) -> (r: CmdResult)
        requires
            is_arith(c),
        ensures
            reports(binary(old(self)@, c), old(self)@, final(self)@, r),
    {
        let ghost s = self.stack@;
        let b = match self.stack.pop() {
            Some(v) => v,
            None => {
                return CmdResult::Fail(RuntimeError::StackUnderflow);
            },
        };
        let a = match self.stack.pop() {
            Some(v) => v,
            None => {
                assert(self.stack@ =~= Seq::<i64>::empty());
                return CmdResult::Fail(RuntimeError::StackUnderflow);
            },
        };
        let v = if c == '+' {
            a.wrapping_add(b)
        } else if c == '-' {
            a.wrapping_sub(b)
        } else if c == '*' {
            a.wrapping_mul(b)
        } else if c == '/' {
            divide(a, b)
        } else {
            remainder(a, b)
        };
        self.stack.push(v);
        assert(self.stack@ =~= drop_top(s, 2).push(arith(c, below(s, 1), below(s, 0))));
        CmdResult::Done
    }

    /// `:`, `;`, `x`, `@` and `R`.
    fn stack_op(&mut self, c: char) -> (r: CmdResult)
        requires
            c == ':' || c == ';' || c == 'x' || c == '@' || c == 'R',
        ensures
            reports(command(old(self)@, c, Seq::empty()), old(self)@, final(self)@, r),
    {
        let ghost s = self.stack@;
        let n = self.stack.len();
        if c == ':' {
            if n == 0 {
                return CmdResult::Fail(RuntimeError::StackUnderflow);
            }
            let v = self.stack[n - 1];
            self.stack.push(v);
            assert(self.stack@ =~= s.push(s.last()));
        } else if c == ';' {
            if n == 0 {
                return CmdResult::Fail(RuntimeError::StackUnderflow);
            }
            self.stack.pop();
            assert(self.stack@ =~= s.drop_last());
        } else if c == 'x' {
            if n < 2 {
                return CmdResult::Fail(RuntimeError::StackUnderflow);
            }
            let top = self.stack[n - 1];
            let second = self.stack[n - 2];
            self.stack.set(n - 1, second);
            self.stack.set(n - 2, top);
            assert(self.stack@ =~= swap_top(s));
        } else if c == '@' {
            if n < 3 {
                return CmdResult::Fail(RuntimeError::StackUnderflow);
            }
            let third = self.stack[n - 3];
            let second = self.stack[n - 2];
            let top = self.stack[n - 1];
            self.stack.set(n - 3, second);
            self.stack.set(n - 2, top);
            self.stack.set(n - 1, third);
            assert(self.stack@ =~= rotate_top(s));
        } else {
            let mut i: usize = 0;
            let ghost before = self@;
            while i < n / 2
                invariant
                    before == old(self)@,
                    self@ == set_stack(before, self.stack@),
                    n == s.len(),
                    self.stack@.len() == n,
                    i <= n / 2,
                    forall|k: int| 0 <= k < i ==> self.stack@[k] == s[n - 1 - k],
                    forall|k: int| 0 <= k < i ==> self.stack@[n - 1 - k] == s[k],
                    forall|k: int| i <= k < n - i ==> self.stack@[k] == s[k],
                decreases n / 2 - i,
            {
                let x = self.stack[i];
                let y = self.stack[n - 1 - i];
                self.stack.set(i, y);
                self.stack.set(n - 1 - i, x);
                i = i + 1;
            }
            assert forall|k: int| 0 <= k < n implies #[trigger] self.stack@[k] == s.reverse()[k] by {
                if k < n / 2 {
                } else if k >= n - n / 2 {
                    assert(self.stack@[n - 1 - (n - 1 - k)] == s[n - 1 - k]);
                } else {
                    assert(k == n - 1 - k);
                }
            }
            assert(self.stack@ =~= s.reverse());
        }
        CmdResult::Done
    }
}

impl Interpreter {
    /// Appends printed bytes unless that would pass the output limit.
    fn emit_bytes(&mut self, bytes: &Vec<u8>) -> (ok: bool)
        ensures
            match emit(old(self)@, bytes@) {
                None => !ok && final(self)@ == old(self)@,
                Some(m) => ok && final(self)@ == m,
            },
    {
        if self.bytes_written > self.max_output_size || bytes.len() > self.max_output_size
            - self.bytes_written {
            return false;
        }
        let ghost before = self@;
        let mut i: usize = 0;
        while i < bytes.len()
            invariant
                i <= bytes@.len(),
                self@ == (Machine { output: before.output + bytes@.take(i as int), ..before }),
            decreases bytes@.len() - i,
        {
            self.output.push(bytes[i]);
            i = i + 1;
            assert(self.output@ =~= before.output + bytes@.take(i as int));
        }
        assert(bytes@.take(i as int) =~= bytes@);
        self.bytes_written = self.bytes_written + bytes.len();
        true
    }

    /// `p` and `P`: pops the top and prints it as a number or as a character.
    fn print_op(&mut self, as_char: bool) -> (r: CmdResult)
        ensures
            reports(print_top(old(self)@, as_char), old(self)@, final(self)@, r),
    {
        let ghost s = self.stack@;
        let v = match self.stack.pop() {
            Some(v) => v,
            None => {
                return CmdResult::Fail(RuntimeError::StackUnderflow);
            },
        };
        assert(self.stack@ =~= s.drop_last());
        if as_char {
            let b = #[verifier::truncate] (v as u8);
            let mut bytes: Vec<u8> = Vec::new();
            if b < 128 {
                bytes.push(b);
                assert(bytes@ =~= char_bytes(b));
            } else {
                bytes.push(192 + b / 64);
                bytes.push(128 + b % 64);
                assert(bytes@ =~= char_bytes(b));
            }
            if self.emit_bytes(&bytes) {
                CmdResult::Done
            } else {
                CmdResult::Fail(RuntimeError::OutputLimitExceeded)
            }
        } else {
            let mag: u64 = if v == i64::MIN {
                9223372036854775808u64
            } else if v < 0 {
                (-v) as u64
            } else {
                v as u64
            };
            assert(mag as nat == magnitude(v));
            let digits = decimal_of(mag);
            if v < 0 {
                let mut minus: Vec<u8> = Vec::new();
                minus.push(45u8);
                assert(minus@ =~= seq![45u8]);
                if !self.emit_bytes(&minus) {
                    return CmdResult::Fail(RuntimeError::OutputLimitExceeded);
                }
            }
            if self.emit_bytes(&digits) {
                CmdResult::Done
            } else {
                CmdResult::Fail(RuntimeError::OutputLimitExceeded)
            }
        }
    }

    /// Takes the pending read error, leaving the input open.
    fn take_failure(&mut self) -> (msg: String)
        requires
            old(self)@.input_end is Failed,
        ensures
            msg == old(self)@.input_end->Failed_0,
            final(self)@ == set_input(old(self)@, old(self)@.input, InputEnd::Open),
    {
        let mut end = InputEnd::Open;
        std::mem::swap(&mut end, &mut self.input_end);
        match end {
            InputEnd::Failed(msg) => msg,
            _ => String::new(),
        }
    }

    /// `t`: reads one byte.
    fn read_byte_op(&mut self) -> (r: CmdResult)
        ensures
            reports(read_byte(old(self)@), old(self)@, final(self)@, r),
    {
        let ghost s = self.input@;
        match self.input.pop_front() {
            Some(b) => {
                self.stack.push(b as i64);
                assert(self.input@ =~= s.drop_first());
                CmdResult::Done
            },
            None => {
                match self.input_end {
                    InputEnd::Open => CmdResult::Wait,
                    InputEnd::Closed => {
                        self.stack.push(0);
                        CmdResult::Done
                    },
                    InputEnd::Failed(_) => {
                        let msg = self.take_failure();
                        CmdResult::Fail(RuntimeError::IoError(msg))
                    },
                }
            },
        }
    }

    /// Drops the first `n` input bytes.
    fn consume_input(&mut self, n: usize)
        requires
            n <= old(self)@.input.len(),
        ensures
            final(self)@ == set_input(old(self)@, old(self)@.input.skip(n as int), old(self)@.input_end),
    {
        let ghost s = self.input@;
        let mut i: usize = 0;
        while i < n
            invariant
                i <= n,
                n <= s.len(),
                s == old(self)@.input,
                self@ == set_input(old(self)@, s.skip(i as int), old(self)@.input_end),
            decreases n - i,
        {
            self.input.pop_front();
            i = i + 1;
            assert(self.input@ =~= s.skip(i as int));
        }
    }
}

impl Interpreter {
    /// Pushes a word's value once the input has been consumed: 0 for an empty word.
    fn push_word(&mut self, word: &Vec<u8>) -> (r: CmdResult)
        ensures
            reports(
                finish_number(old(self)@, word@, old(self)@.input, old(self)@.input_end),
                old(self)@,
                final(self)@,
                r,
            ),
    {
        assert(set_input(old(self)@, old(self)@.input, old(self)@.input_end) =~= old(self)@);
        if word.len() == 0 {
            self.stack.push(0);
            return CmdResult::Done;
        }
        match parse_i64(word) {
            Some(v) => {
                self.stack.push(v);
                CmdResult::Done
            },
            None => CmdResult::Fail(RuntimeError::InvalidInput),
        }
    }

    /// `r`: reads a whitespace-separated number.
    fn read_number_op(&mut self) -> (r: CmdResult)
        ensures
            reports(read_number(old(self)@), old(self)@, final(self)@, r),
    {
        let ghost m0 = self@;
        let ghost s = self.input@;
        let len = self.input.len();
        let mut i0: usize = 0;
        while i0 < len && byte_is_space(self.input[i0])
            invariant
                s == self.input@,
                len == s.len(),
                i0 <= len,
                skip_spaces(s, i0 as int) == skip_spaces(s, 0),
            decreases len - i0,
        {
            i0 = i0 + 1;
        }
        assert(i0 == skip_spaces(s, 0));
        let mut j: usize = i0;
        let mut word: Vec<u8> = Vec::new();
        while j < len && !byte_is_space(self.input[j])
            invariant
                s == self.input@,
                len == s.len(),
                i0 <= j <= len,
                find_space(s, j as int) == find_space(s, i0 as int),
                word@ == s.subrange(i0 as int, j as int),
            decreases len - j,
        {
            word.push(self.input[j]);
            j = j + 1;
            assert(word@ =~= s.subrange(i0 as int, j as int));
        }
        assert(j == find_space(s, i0 as int));
        if j >= len {
            match self.input_end {
                InputEnd::Open => {
                    return CmdResult::Wait;
                },
                InputEnd::Closed => {},
                InputEnd::Failed(_) => {
                    self.take_failure();
                },
            }
            self.consume_input(len);
            assert(s.skip(len as int) =~= Seq::<u8>::empty());
            assert(set_input(self@, Seq::empty(), after_end(m0.input_end)) =~= set_input(
                m0,
                Seq::empty(),
                after_end(m0.input_end),
            ));
            return self.push_word(&word);
        }
        if self.input[j] == 13u8 {
            if j + 1 < len {
                let next = if self.input[j + 1] == 10u8 {
                    j + 2
                } else {
                    j + 1
                };
                self.consume_input(next);
                assert(set_input(self@, s.skip(next as int), m0.input_end) =~= set_input(
                    m0,
                    s.skip(next as int),
                    m0.input_end,
                ));
                return self.push_word(&word);
            }
            match self.input_end {
                InputEnd::Open => {
                    return CmdResult::Wait;
                },
                InputEnd::Closed => {
                    self.consume_input(len);
                    assert(s.skip(len as int) =~= Seq::<u8>::empty());
                    assert(set_input(self@, Seq::empty(), InputEnd::Closed) =~= set_input(
                        m0,
                        Seq::empty(),
                        InputEnd::Closed,
                    ));
                    return self.push_word(&word);
                },
                InputEnd::Failed(_) => {
                    self.consume_input(len);
                    assert(s.skip(len as int) =~= Seq::<u8>::empty());
                    let msg = self.take_failure();
                    return CmdResult::Fail(RuntimeError::IoError(msg));
                },
            }
        }
        self.consume_input(j + 1);
        assert(set_input(self@, s.skip(j + 1), m0.input_end) =~= set_input(
            m0,
            s.skip(j + 1),
            m0.input_end,
        ));
        self.push_word(&word)
    }

    /// Pushes bytes as values, in order.
    fn push_bytes(&mut self, bytes: &Vec<u8>)
        ensures
            final(self)@ == set_stack(old(self)@, old(self)@.stack + byte_values(bytes@)),
    {
        let mut i: usize = 0;
        while i < bytes.len()
            invariant
                i <= bytes@.len(),
                self@ == set_stack(old(self)@, old(self)@.stack + byte_values(bytes@.take(i as int))),
            decreases bytes@.len() - i,
        {
            self.stack.push(bytes[i] as i64);
            i = i + 1;
            assert(self.stack@ =~= old(self)@.stack + byte_values(bytes@.take(i as int)));
        }
        assert(bytes@.take(i as int) =~= bytes@);
    }

    /// `T`: reads one line.
    fn read_line_op(&mut self) -> (r: CmdResult)
        ensures
            reports(read_line(old(self)@), old(self)@, final(self)@, r),
    {
        let ghost m0 = self@;
        let ghost s = self.input@;
        let len = self.input.len();
        let mut j: usize = 0;
        let mut line: Vec<u8> = Vec::new();
        while j < len && self.input[j] != 10u8
            invariant
                s == self.input@,
                len == s.len(),
                j <= len,
                find_newline(s, j as int) == find_newline(s, 0),
                line@ == s.take(j as int),
            decreases len - j,
        {
            line.push(self.input[j]);
            j = j + 1;
            assert(line@ =~= s.take(j as int));
        }
        assert(j == find_newline(s, 0));
        if j < len {
            if line.len() > 0 && line[line.len() - 1] == 13u8 {
                line.pop();
            }
            assert(line@ =~= strip_cr(s.take(j as int)));
            self.consume_input(j + 1);
            self.push_bytes(&line);
            return CmdResult::Done;
        }
        match self.input_end {
            InputEnd::Open => CmdResult::Wait,
            InputEnd::Closed => {
                self.consume_input(len);
                assert(s.skip(len as int) =~= Seq::<u8>::empty());
                assert(line@ =~= s);
                self.push_bytes(&line);
                CmdResult::Done
            },
            InputEnd::Failed(_) => {
                self.consume_input(len);
                assert(s.skip(len as int) =~= Seq::<u8>::empty());
                let msg = self.take_failure();
                CmdResult::Fail(RuntimeError::IoError(msg))
            },
        }
    }
}

/// Whether `token` is the command `c`.
fn token_is(token: &Token, c: char) -> (r: bool)
    ensures
        r == is_command(*token, c),
{
    match token {
        Token::Command(d, _) => *d == c,
        _ => false,
    }
}

/// The index of the bracket `close` that ends the block opened just before `start`.
fn find_forward(tokens: &[Token], start: usize, open: char, close: char) -> (r: Option<usize>)
    requires
        start >= 1,
    ensures
        match match_forward(tokens@, start as int, open, close, 1) {
            Some(k) => r == Some(k as usize) && k < tokens@.len(),
            None => r is None,
        },
{
    let ghost t = tokens@;
    let mut i = start;
    let mut depth: usize = 1;
    while i < tokens.len()
        invariant
            t == tokens@,
            start <= i,
            start >= 1,
            1 <= depth <= 1 + i - start,
            match_forward(t, i as int, open, close, depth as nat) == match_forward(
                t,
                start as int,
                open,
                close,
                1,
            ),
        decreases tokens@.len() - i,
    {
        if token_is(&tokens[i], open) {
            depth = depth + 1;
        } else if token_is(&tokens[i], close) {
            if depth <= 1 {
                return Some(i);
            }
            depth = depth - 1;
        }
        i = i + 1;
    }
    None
}

/// The index of the bracket `open` that starts the block closed just after `start`.
fn find_backward(tokens: &[Token], start: usize, close: char, open: char) -> (r: Option<usize>)
    requires
        start + 1 < tokens@.len(),
    ensures
        match match_backward(tokens@, start as int, close, open, 1) {
            Some(k) => r == Some(k as usize) && k < tokens@.len(),
            None => r is None,
        },
{
    let ghost t = tokens@;
    let n = tokens.len();
    let mut next = start + 1;
    let mut depth: usize = 1;
    while next > 0
        invariant
            t == tokens@,
            next <= start + 1,
            start + 1 < t.len(),
            n == t.len(),
            1 <= depth <= 1 + start + 1 - next,
            match_backward(t, next - 1, close, open, depth as nat) == match_backward(
                t,
                start as int,
                close,
                open,
                1,
            ),
        decreases next,
    {
        let i = next - 1;
        if token_is(&tokens[i], close) {
            depth = depth + 1;
        } else if token_is(&tokens[i], open) {
            if depth <= 1 {
                return Some(i);
            }
            depth = depth - 1;
        }
        next = i;
    }
    None
}

impl Interpreter {
    /// `[`, `]` and `(`.
    fn bracket_op(&mut self, c: char, tokens: &[Token]) -> (r: CmdResult)
        requires
            c == '[' || c == ']' || c == '(',
            old(self)@.pc < tokens@.len(),
        ensures
            reports(command(old(self)@, c, tokens@), old(self)@, final(self)@, r),
    {
        let ghost m0 = self@;
        let n_tokens = tokens.len();
        let n = self.stack.len();
        if n == 0 {
            return CmdResult::Fail(RuntimeError::StackUnderflow);
        }
        let top = self.stack[n - 1];
        if c == '[' {
            if top != 0 {
                return CmdResult::Done;
            }
            match find_forward(tokens, self.pc + 1, '[', ']') {
                Some(k) => {
                    self.pc = k;
                    CmdResult::Done
                },
                None => CmdResult::Fail(RuntimeError::UnmatchedBracket),
            }
        } else if c == ']' {
            if top == 0 {
                return CmdResult::Done;
            }
            if self.pc == 0 {
                assert(match_backward(tokens@, -1, ']', '[', 1) is None);
                return CmdResult::Fail(RuntimeError::UnmatchedBracket);
            }
            match find_backward(tokens, self.pc - 1, ']', '[') {
                Some(k) => {
                    self.pc = k;
                    CmdResult::Done
                },
                None => CmdResult::Fail(RuntimeError::UnmatchedBracket),
            }
        } else {
            self.stack.pop();
            assert(self.stack@ =~= m0.stack.drop_last());
            if top != 0 {
                return CmdResult::Done;
            }
            match find_forward(tokens, self.pc + 1, '(', ')') {
                Some(k) => {
                    self.pc = k;
                    CmdResult::Done
                },
                None => CmdResult::Fail(RuntimeError::UnmatchedBracket),
            }
        }
    }

    /// Runs the command `c`.
    fn run_command(&mut self, c: char, tokens: &[Token]) -> (r: CmdResult)
        requires
            old(self)@.pc < tokens@.len(),
        ensures
            reports(command(old(self)@, c, tokens@), old(self)@, final(self)@, r),
    {
        if c == '+' || c == '-' || c == '*' || c == '/' || c == '%' {
            self.binary_op(c)
        } else if c == ':' || c == ';' || c == 'x' || c == '@' || c == 'R' {
            self.stack_op(c)
        } else if c == 'r' {
            self.read_number_op()
        } else if c == 't' {
            self.read_byte_op()
        } else if c == 'T' {
            self.read_line_op()
        } else if c == 'p' {
            self.print_op(false)
        } else if c == 'P' {
            self.print_op(true)
        } else if c == '[' || c == ']' || c == '(' {
            self.bracket_op(c, tokens)
        } else if c == ')' {
            CmdResult::Done
        } else {
            CmdResult::Fail(RuntimeError::UnknownCommand(c))
        }
    }
}

impl Interpreter {
    /// Records the current stack depth.
    fn record_depth(&mut self)
        ensures
            final(self)@ == deepen(old(self)@),
    {
        if self.stack.len() > self.max_stack_depth {
            self.max_stack_depth = self.stack.len();
        }
    }

    /// Moves past the token just run.
    fn next_token(&mut self, tokens: &[Token]) -> (r: ExecutionResult)
        requires
            old(self)@.pc < tokens@.len(),
        ensures
            (final(self)@, r) == finish_step(old(self)@, tokens@),
    {
        let n = tokens.len();
        self.pc = self.pc + 1;
        if self.pc >= n {
            ExecutionResult::Success
        } else {
            ExecutionResult::Running
        }
    }

    /// Runs the token at the program counter.
    fn run_current(&mut self, tokens: &[Token]) -> (r: ExecutionResult)
        requires
            old(self)@.pc < tokens@.len(),
        ensures
            (final(self)@, r) == run_token(old(self)@, tokens@),
    {
        self.awaiting_input = false;
        let pc = self.pc;
        match &tokens[pc] {
            Token::Integer(v, _) => {
                if self.stack.len() >= self.max_stack_size {
                    return ExecutionResult::MemoryLimitExceeded;
                }
                self.stack.push(*v);
                self.record_depth();
                self.next_token(tokens)
            },
            Token::Command(c, _) => {
                match self.run_command(*c, tokens) {
                    CmdResult::Wait => {
                        self.awaiting_input = true;
                        ExecutionResult::AwaitingInput
                    },
                    CmdResult::Fail(e) => ExecutionResult::RuntimeError(e),
                    CmdResult::Done => {
                        if self.stack.len() > self.max_stack_size {
                            return ExecutionResult::MemoryLimitExceeded;
                        }
                        self.record_depth();
                        proof {
                            lemma_command_pc(old(self)@, *c, tokens@);
                        }
                        self.next_token(tokens)
                    },
                }
            },
        }
    }

    /// One step, with `time_exceeded` standing for the clock's answer: whether the time
    /// limit has passed, taken into account only at a step where the clock is due.
    pub fn advance(&mut self, tokens: &[Token], time_exceeded: bool) -> (r: ExecutionResult)
        requires
            old(self)@.pc < tokens@.len() ==> old(self)@.time_check_interval > 0,
        ensures
            (final(self)@, r) == step_spec(old(self)@, tokens@, time_exceeded),
    {
        if self.pc >= tokens.len() {
            return ExecutionResult::Success;
        }
        if self.awaiting_input {
            return self.run_current(tokens);
        }
        if self.steps == u64::MAX {
            return ExecutionResult::TimeLimitExceeded;
        }
        self.steps = self.steps + 1;
        if self.steps % self.time_check_interval == 0 && time_exceeded {
            return ExecutionResult::TimeLimitExceeded;
        }
        self.run_current(tokens)
    }

    /// One step of the program `tokens`. The clock is read only at the steps where the
    /// time limit is checked, and its reading is held against this interpreter's time
    /// limit; what it answers decides nothing else.
    pub fn step(&mut self, tokens: &[Token]) -> (r: ExecutionResult)
        requires
            old(self)@.pc < tokens@.len() ==> old(self)@.time_check_interval > 0,
        ensures
            exists|reading: Duration| (final(self)@, r) == #[trigger] step_spec(
                old(self)@,
                tokens@,
                duration_exceeds(reading, old(self)@.time_limit),
            ),
            !clock_due(old(self)@, tokens@) ==> (final(self)@, r) == step_spec(
                old(self)@,
                tokens@,
                false,
            ),
            same_limits(old(self)@, final(self)@),
            final(self)@.max_stack_depth >= old(self)@.max_stack_depth,
            old(self)@.bytes_written <= old(self)@.max_output_size ==> final(self)@.bytes_written
                <= final(self)@.max_output_size,
            r is Running ==> progress_measure(final(self)@) < progress_measure(old(self)@),
    {
        if self.start_time.is_none() {
            self.start_time = Some(clock_now());
        }
        assert(self.start_time is Some);
        let ghost mut reading: Duration = self.time_limit;
        let due = self.pc < tokens.len() && !self.awaiting_input && self.steps < u64::MAX && (
        self.steps + 1) % self.time_check_interval == 0;
        let late = if due {
            match &self.start_time {
                Some(start) => {
                    let elapsed = clock_elapsed(start);
                    proof {
                        reading = elapsed;
                    }
                    duration_longer(&elapsed, &self.time_limit)
                },
                None => false,
            }
        } else {
            false
        };
        let ghost before = self@;
        proof {
            if !due {
                lemma_clock_not_read(before, tokens@, late, duration_exceeds(reading, before.time_limit));
                lemma_clock_not_read(before, tokens@, late, false);
            }
        }
        let r = self.advance(tokens, late);
        proof {
            lemma_step_frame(before, tokens@, late);
            if due {
                assert(late == duration_exceeds(reading, before.time_limit));
            }
            assert((self@, r) == step_spec(before, tokens@, duration_exceeds(reading, before.time_limit)));
        }
        r
    }

    /// Runs steps until the program ends, fails, runs out of a limit or waits for input.
    /// Returns how it stopped and the deepest the stack has been.
    pub fn eval(&mut self, tokens: &[Token]) -> (r: (ExecutionResult, usize))
        requires
            old(self)@.pc < tokens@.len() ==> old(self)@.time_check_interval > 0,
        ensures
            exists|readings: Seq<Duration>| (final(self)@, r.0) == #[trigger] run(
                old(self)@,
                tokens@,
                lateness(readings, old(self)@.time_limit),
            ),
            !(r.0 is Running),
            r.1 == final(self)@.max_stack_depth,
            r.1 >= old(self)@.max_stack_depth,
            old(self)@.bytes_written <= old(self)@.max_output_size ==> final(self)@.bytes_written
                <= final(self)@.max_output_size,
            same_limits(old(self)@, final(self)@),
    {
        let ghost mut readings: Seq<Duration> = Seq::empty();
        proof {
            assert(lateness(readings, old(self)@.time_limit) =~= Seq::<bool>::empty());
        }
        loop
            invariant
                run(old(self)@, tokens@, lateness(readings, old(self)@.time_limit)) == (
                    self@,
                    ExecutionResult::Running,
                ),
                self@.pc < tokens@.len() ==> self@.time_check_interval > 0,
                same_limits(old(self)@, self@),
                self@.max_stack_depth >= old(self)@.max_stack_depth,
                old(self)@.bytes_written <= old(self)@.max_output_size ==> self@.bytes_written
                    <= self@.max_output_size,
            decreases progress_measure(self@),
        {
            let ghost before = self@;
            let res = self.step(tokens);
            proof {
                let reading = choose|reading: Duration|
                    (self@, res) == #[trigger] step_spec(
                        before,
                        tokens@,
                        duration_exceeds(reading, before.time_limit),
                    );
                let limit = old(self)@.time_limit;
                let next = readings.push(reading);
                assert(lateness(next, limit).drop_last() =~= lateness(readings, limit));
                assert(lateness(next, limit).last() == duration_exceeds(reading, limit));
                assert(run(old(self)@, tokens@, lateness(next, limit)) == (self@, res));
                readings = next;
            }
            match res {
                ExecutionResult::Running => {
                    proof {
                        if before.time_check_interval == 0 {
                            assert(before.pc >= tokens@.len());
                        }
                    }
                },
                _ => {
                    return (res, self.max_stack_depth);
                },
            }
        }
    }
}

/// Calls `char::to_string`: the one-character string `c`.
#[verifier::external_body]
pub(crate) fn char_text(c: char) -> (r: String)
    ensures
        r@ == seq![c],
{
    c.to_string()
}

impl RuntimeError {
    /// The message that describes the error.
    pub fn message(&self) -> (r: String)
        ensures
            r@ == self.spec_message(),
    {
        match self {
            RuntimeError::StackUnderflow => String::from_str("Stack underflow"),
            RuntimeError::DivisionByZero => String::from_str("Division by zero"),
            RuntimeError::IoError(msg) => {
                let mut r = String::from_str("I/O error: ");
                r.append(msg.as_str());
                r
            },
            RuntimeError::InvalidInput => String::from_str("Invalid input"),
            RuntimeError::UnmatchedBracket => String::from_str("Unmatched bracket"),
            RuntimeError::UnknownCommand(c) => {
                let mut r = String::from_str("Unknown command: '");
                let ch = char_text(*c);
                r.append(ch.as_str());
                r.append("'");
                r
            },
            RuntimeError::OutputLimitExceeded => String::from_str("Output limit exceeded (max 1MB)"),
        }
    }
}

impl ExecutionResult {
    /// The message that describes how a run ended.
    pub open spec fn spec_message(&self) -> Seq<char> {
        match self {
            ExecutionResult::Success => "Success"@,
            ExecutionResult::Running => "Running"@,
            ExecutionResult::RuntimeError(e) => "Runtime Error: "@ + e.spec_message(),
            ExecutionResult::TimeLimitExceeded => "Time Limit Exceeded (TLE)"@,
            ExecutionResult::MemoryLimitExceeded => "Memory Limit Exceeded (MLE)"@,
            ExecutionResult::AwaitingInput => "Awaiting input"@,
        }
    }

    /// The message that describes how a run ended.
    pub fn message(&self) -> (r: String)
        ensures
            r@ == self.spec_message(),
    {
        match self {
            ExecutionResult::Success => String::from_str("Success"),
            ExecutionResult::Running => String::from_str("Running"),
            ExecutionResult::RuntimeError(e) => {
                let mut r = String::from_str("Runtime Error: ");
                let m = e.message();
                r.append(m.as_str());
                r
            },
            ExecutionResult::TimeLimitExceeded => String::from_str("Time Limit Exceeded (TLE)"),
            ExecutionResult::MemoryLimitExceeded => String::from_str("Memory Limit Exceeded (MLE)"),
            ExecutionResult::AwaitingInput => String::from_str("Awaiting input"),
        }
    }
}

} // verus!
