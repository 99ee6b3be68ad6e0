use flap::config::{default_output_size, default_stack_size, default_time_check_interval, default_time_limit, Config};
use flap::diagnostic::{create_diagnostic, get_line_col};
use flap::interpreter::{ExecutionResult, Interpreter, RuntimeError};
use flap::lexer::{lex, Span, Token};
use flap::text::parse_i64;
use std::time::Duration;

fn run_with(code: &str, input: &[u8]) -> (ExecutionResult, Vec<i64>, Vec<u8>) {
    let tokens = lex(code);
    let mut interpreter = Interpreter::new();
    interpreter.supply_input(input);
    interpreter.close_input();
    let (res, _) = interpreter.eval(&tokens);
    (res, interpreter.stack().clone(), interpreter.output().clone())
}

fn run(code: &str) -> (ExecutionResult, Vec<i64>, Vec<u8>) {
    run_with(code, b"")
}

#[test]
fn lex_numbers_commands_and_spans() {
    let tokens = lex("10,20+");
    assert_eq!(
        tokens,
        vec![
            Token::Integer(10, Span { start: 0, end: 2 }),
            Token::Integer(20, Span { start: 3, end: 5 }),
            Token::Command('+', Span { start: 5, end: 6 }),
        ]
    );
    assert_eq!(tokens[2].span(), Span { start: 5, end: 6 });
}

#[test]
fn lex_drops_a_number_too_large_for_i64() {
    assert_eq!(lex("99999999999999999999 1"), vec![Token::Integer(1, Span { start: 21, end: 22 })]);
    assert_eq!(
        lex("9223372036854775807"),
        vec![Token::Integer(i64::MAX, Span { start: 0, end: 19 })]
    );
}

#[test]
fn lex_comments_and_white_space_separate() {
    assert_eq!(lex("1=x=2"), vec![
        Token::Integer(1, Span { start: 0, end: 1 }),
        Token::Integer(2, Span { start: 4, end: 5 }),
    ]);
    assert_eq!(lex("1 = never closed 2"), vec![Token::Integer(1, Span { start: 0, end: 1 })]);
    assert_eq!(lex("1\u{3000}2\t3"), vec![
        Token::Integer(1, Span { start: 0, end: 1 }),
        Token::Integer(2, Span { start: 2, end: 3 }),
        Token::Integer(3, Span { start: 4, end: 5 }),
    ]);
    assert_eq!(lex("é"), vec![Token::Command('é', Span { start: 0, end: 1 })]);
}

#[test]
fn separators_only_separate() {
    let values = |code: &str| -> Vec<i64> {
        lex(code)
            .into_iter()
            .map(|t| match t {
                Token::Integer(v, _) => v,
                Token::Command(c, _) => -(c as i64),
            })
            .collect()
    };
    assert_eq!(values("12 34:"), [values("12"), values("34:")].concat());
    assert_eq!(values("12,34:"), [values("12"), values("34:")].concat());
    assert_eq!(values("1=a comment=2x"), [values("1"), values("2x")].concat());
}

#[test]
fn arithmetic_commands() {
    assert_eq!(run("7,2+").1, vec![9]);
    assert_eq!(run("7,2-").1, vec![5]);
    assert_eq!(run("7,2*").1, vec![14]);
    assert_eq!(run("7,2/").1, vec![3]);
    assert_eq!(run("7,2%").1, vec![1]);
    assert_eq!(run("0,7-,2/").1, vec![-3]);
    assert_eq!(run("0,7-,2%").1, vec![-1]);
    assert_eq!(run("9223372036854775807,1+").1, vec![i64::MIN]);
}

#[test]
fn division_by_zero_pushes_zero() {
    assert_eq!(run("7,0/"), (ExecutionResult::Success, vec![0], vec![]));
    assert_eq!(run("7,0%"), (ExecutionResult::Success, vec![0], vec![]));
}

#[test]
fn stack_underflow() {
    assert_eq!(run("+"), (ExecutionResult::RuntimeError(RuntimeError::StackUnderflow), vec![], vec![]));
    assert_eq!(run("5+"), (ExecutionResult::RuntimeError(RuntimeError::StackUnderflow), vec![], vec![]));
    assert_eq!(run("5x").0, ExecutionResult::RuntimeError(RuntimeError::StackUnderflow));
    assert_eq!(run("5,6@").0, ExecutionResult::RuntimeError(RuntimeError::StackUnderflow));
    assert_eq!(run(";").0, ExecutionResult::RuntimeError(RuntimeError::StackUnderflow));
    assert_eq!(run(":").0, ExecutionResult::RuntimeError(RuntimeError::StackUnderflow));
}

#[test]
fn stack_commands() {
    assert_eq!(run("1,2,3@").1, vec![2, 3, 1]);
    assert_eq!(run("1,2;").1, vec![1]);
    assert_eq!(run("R").1, Vec::<i64>::new());
}

#[test]
fn commands_undo_each_other() {
    assert_eq!(run("1,2,3 R R").1, vec![1, 2, 3]);
    assert_eq!(run("1,2 x x").1, vec![1, 2]);
    assert_eq!(run("1,2,3 @@@").1, vec![1, 2, 3]);
    assert_eq!(run("1,2 :;").1, vec![1, 2]);
}

#[test]
fn printing() {
    assert_eq!(run("42p").2, b"42".to_vec());
    assert_eq!(run("0,5-p").2, b"-5".to_vec());
    assert_eq!(run("0p").2, b"0".to_vec());
    assert_eq!(run("65P").2, b"A".to_vec());
    assert_eq!(run("200P").2, vec![0xC3, 0x88]);
    assert_eq!(run("321P").2, b"A".to_vec());
    assert_eq!(run("p").0, ExecutionResult::RuntimeError(RuntimeError::StackUnderflow));
}

#[test]
fn printed_number_reads_back() {
    for code in ["12345p", "0,9223372036854775807-p", "0,9223372036854775807-,1-p"] {
        let printed = run(code).2;
        let (_, stack, _) = run_with("r", &printed);
        let printed_again = run_with("rp", &printed).2;
        assert_eq!(printed_again, printed);
        assert_eq!(stack.len(), 1);
    }
    assert_eq!(run_with("r", b"-9223372036854775808").1, vec![i64::MIN]);
}

#[test]
fn output_limit() {
    let tokens = lex("123p");
    let mut interpreter = Interpreter::with_options(Duration::from_millis(2000), 100, 2, 1000);
    let (res, _) = interpreter.eval(&tokens);
    assert_eq!(res, ExecutionResult::RuntimeError(RuntimeError::OutputLimitExceeded));
    assert!(interpreter.output().is_empty());

    let tokens = lex("0,12-p");
    let mut interpreter = Interpreter::with_options(Duration::from_millis(2000), 100, 2, 1000);
    let (res, _) = interpreter.eval(&tokens);
    assert_eq!(res, ExecutionResult::RuntimeError(RuntimeError::OutputLimitExceeded));
    assert_eq!(*interpreter.output(), b"-".to_vec());

    let tokens = lex("12p");
    let mut interpreter = Interpreter::with_options(Duration::from_millis(2000), 100, 2, 1000);
    assert_eq!(interpreter.eval(&tokens).0, ExecutionResult::Success);
    assert_eq!(interpreter.take_output(), b"12".to_vec());
    assert!(interpreter.output().is_empty());
    let tokens = lex("1p");
    let mut interpreter2 = Interpreter::with_options(Duration::from_millis(2000), 100, 2, 1000);
    interpreter2.eval(&lex("12p"));
    interpreter2.take_output();
    assert_eq!(
        interpreter2.eval(&tokens).0,
        ExecutionResult::Success,
        "a finished program stays finished"
    );
}

#[test]
fn read_number() {
    assert_eq!(run_with("r", b"  42\n").1, vec![42]);
    assert_eq!(run_with("rr", b"-3 +4").1, vec![-3, 4]);
    assert_eq!(run_with("r", b"").1, vec![0]);
    assert_eq!(run_with("r", b" \n ").1, vec![0]);
    assert_eq!(run_with("r", b"abc ").0, ExecutionResult::RuntimeError(RuntimeError::InvalidInput));
    assert_eq!(run_with("r", b"+").0, ExecutionResult::RuntimeError(RuntimeError::InvalidInput));
    assert_eq!(run_with("r", b"9223372036854775808").0, ExecutionResult::RuntimeError(RuntimeError::InvalidInput));
    assert_eq!(run_with("rt", b"7\r\nx").1, vec![7, 120]);
    assert_eq!(run_with("rt", b"7\rx").1, vec![7, 120]);
}

#[test]
fn read_byte_and_line() {
    assert_eq!(run_with("t", b"A").1, vec![65]);
    assert_eq!(run_with("tt", b"A").1, vec![65, 0]);
    assert_eq!(run_with("T", b"hi\r\nx").1, vec![104, 105]);
    assert_eq!(run_with("Tt", b"hi\nx").1, vec![104, 105, 120]);
    assert_eq!(run_with("T", b"end").1, vec![101, 110, 100]);
}

#[test]
fn waiting_for_input_resumes_the_same_command() {
    let tokens = lex("r1+");
    let mut interpreter = Interpreter::new();
    interpreter.supply_input(b"4");
    assert_eq!(interpreter.eval(&tokens).0, ExecutionResult::AwaitingInput);
    assert_eq!(interpreter.pc(), 0);
    assert!(interpreter.stack().is_empty());
    interpreter.supply_input(b"1 ");
    assert_eq!(interpreter.eval(&tokens).0, ExecutionResult::Success);
    assert_eq!(*interpreter.stack(), vec![42]);

    let mut interpreter = Interpreter::new();
    assert_eq!(interpreter.eval(&lex("t")).0, ExecutionResult::AwaitingInput);
    interpreter.close_input();
    assert_eq!(interpreter.eval(&lex("t")).0, ExecutionResult::Success);
    assert_eq!(*interpreter.stack(), vec![0]);
}

#[test]
fn read_errors() {
    let mut interpreter = Interpreter::new();
    interpreter.fail_input("broken pipe".to_string());
    let (res, _) = interpreter.eval(&lex("t"));
    assert_eq!(res, ExecutionResult::RuntimeError(RuntimeError::IoError("broken pipe".to_string())));

    let mut interpreter = Interpreter::new();
    interpreter.supply_input(b"12");
    interpreter.fail_input("gone".to_string());
    assert_eq!(interpreter.eval(&lex("r")).0, ExecutionResult::Success);
    assert_eq!(*interpreter.stack(), vec![12]);
}

#[test]
fn conditionals_and_loops() {
    assert_eq!(run("0(1)2").1, vec![2]);
    assert_eq!(run("1(7)").1, vec![7]);
    assert_eq!(run("0[5]").1, vec![0]);
    assert_eq!(run("1,0(9(8)7)6").1, vec![1, 6]);
    assert_eq!(run("3[1-:]").1, vec![2, 1, 0, 0]);
    assert_eq!(run("0[").0, ExecutionResult::RuntimeError(RuntimeError::UnmatchedBracket));
    assert_eq!(run("1]").0, ExecutionResult::RuntimeError(RuntimeError::UnmatchedBracket));
    assert_eq!(run("0(").0, ExecutionResult::RuntimeError(RuntimeError::UnmatchedBracket));
    assert_eq!(run("(").0, ExecutionResult::RuntimeError(RuntimeError::StackUnderflow));
    assert_eq!(run("a").0, ExecutionResult::RuntimeError(RuntimeError::UnknownCommand('a')));
}

#[test]
fn condition_is_always_popped() {
    assert_eq!(run("5,1()").1, vec![5]);
    assert_eq!(run("5,0()").1, vec![5]);
    assert_eq!(run("5,0(").1, vec![5]);
}

#[test]
fn memory_limit() {
    let mut interpreter = Interpreter::with_options(Duration::from_millis(2000), 2, 100, 1000);
    let (res, depth) = interpreter.eval(&lex("1,2,3"));
    assert_eq!(res, ExecutionResult::MemoryLimitExceeded);
    assert_eq!(depth, 2);
    assert_eq!(interpreter.pc(), 2);

    let mut interpreter = Interpreter::with_options(Duration::from_millis(2000), 2, 100, 1000);
    let (res, _) = interpreter.eval(&lex("1,2:"));
    assert_eq!(res, ExecutionResult::MemoryLimitExceeded);
    assert_eq!(*interpreter.stack(), vec![1, 2, 2]);
}

#[test]
fn time_limit() {
    let mut interpreter = Interpreter::with_options(Duration::from_millis(0), 100, 100, 1);
    let tokens = lex("1[]");
    let mut res = interpreter.eval(&tokens).0;
    for _ in 0..1000 {
        if res != ExecutionResult::Running && res != ExecutionResult::TimeLimitExceeded {
            break;
        }
        if res == ExecutionResult::TimeLimitExceeded {
            break;
        }
        res = interpreter.eval(&tokens).0;
    }
    assert_eq!(res, ExecutionResult::TimeLimitExceeded);

    let mut interpreter = Interpreter::with_options(Duration::from_millis(2000), 100, 100, 2);
    let tokens = lex("1,2,3");
    assert_eq!(interpreter.advance(&tokens, true), ExecutionResult::Running);
    assert_eq!(interpreter.advance(&tokens, true), ExecutionResult::TimeLimitExceeded);
    assert_eq!(interpreter.pc(), 1);
    assert_eq!(interpreter.advance(&tokens, true), ExecutionResult::Running);
    assert_eq!(interpreter.advance(&tokens, false), ExecutionResult::Success);
    assert_eq!(*interpreter.stack(), vec![1, 2, 3]);
}

#[test]
fn depth_and_loaded_stack() {
    let mut interpreter = Interpreter::new();
    let (res, depth) = interpreter.eval(&lex("1,2;;"));
    assert_eq!((res, depth), (ExecutionResult::Success, 2));
    let mut interpreter = Interpreter::new();
    interpreter.load_stack(vec![4, 5, 6]);
    let (res, depth) = interpreter.eval(&lex("+"));
    assert_eq!((res, depth), (ExecutionResult::Success, 3));
    assert_eq!(*interpreter.stack(), vec![4, 11]);
}

#[test]
fn messages() {
    assert_eq!(RuntimeError::UnknownCommand('a').message(), "Unknown command: 'a'");
    assert_eq!(RuntimeError::IoError("x".to_string()).message(), "I/O error: x");
    assert_eq!(RuntimeError::StackUnderflow.message(), "Stack underflow");
    assert_eq!(
        ExecutionResult::RuntimeError(RuntimeError::OutputLimitExceeded).message(),
        "Runtime Error: Output limit exceeded (max 1MB)"
    );
    assert_eq!(ExecutionResult::TimeLimitExceeded.message(), "Time Limit Exceeded (TLE)");
    assert_eq!(ExecutionResult::Success.message(), "Success");
}

#[test]
fn diagnostics() {
    assert_eq!(get_line_col("ab\ncd", 4), (2, 2));
    assert_eq!(get_line_col("ab\ncd", 10), (2, 3));
    assert_eq!(get_line_col("", 0), (1, 1));
    let d = create_diagnostic("Stack underflow", "1 2\n3 +", Span { start: 6, end: 7 });
    assert_eq!(d.message, "Stack underflow");
    assert_eq!((d.line, d.col), (2, 3));
    assert_eq!(d.line_content, "3 +");
    assert_eq!((d.pointer_padding, d.pointer_len), (2, 1));
    assert_eq!(d.line_content.chars().nth(d.pointer_padding), Some('+'));
    let d = create_diagnostic("m", "12345", Span { start: 1, end: 4 });
    assert_eq!((d.line, d.col, d.pointer_len), (1, 2, 3));
    let d = create_diagnostic("m", "a\n", Span { start: 5, end: 5 });
    assert_eq!((d.line, d.col, d.line_content.as_str(), d.pointer_len), (2, 1, "", 1));
}

#[test]
fn config_defaults() {
    let c = Config::default();
    assert_eq!(c, Config { time_limit: 2000, stack_size: 131072, output_size: 1048576, time_check_interval: 1000 });
    assert_eq!(default_time_limit(), 2000);
    assert_eq!(default_stack_size(), 131072);
    assert_eq!(default_output_size(), 1048576);
    assert_eq!(default_time_check_interval(), 1000);
}

#[test]
fn parse_words() {
    assert_eq!(parse_i64(&b"-12".to_vec()), Some(-12));
    assert_eq!(parse_i64(&b"+7".to_vec()), Some(7));
    assert_eq!(parse_i64(&b"-".to_vec()), None);
    assert_eq!(parse_i64(&b"".to_vec()), None);
    assert_eq!(parse_i64(&b"1a".to_vec()), None);
    assert_eq!(parse_i64(&b"-9223372036854775808".to_vec()), Some(i64::MIN));
    assert_eq!(parse_i64(&b"9223372036854775808".to_vec()), None);
}

#[test]
fn pointer_line() {
    assert_eq!(flap::diagnostic::pointer_text(2, 3), "  ^^^");
    assert_eq!(flap::diagnostic::pointer_text(0, 1), "^");
}

#[test]
fn separator_insertion_and_removal() {
    let values = |code: &str| -> Vec<(bool, i64)> {
        lex(code)
            .into_iter()
            .map(|t| match t {
                Token::Integer(v, _) => (true, v),
                Token::Command(c, _) => (false, c as i64),
            })
            .collect()
    };
    assert_eq!(values("1+2p"), values("1 +2p"));
    assert_eq!(values("1+2p"), values("1+,2p"));
    assert_eq!(values("1,+2p"), values("1+2p"));
    assert_eq!(values("3 4+p"), values("3 4+ p"));
    assert_ne!(values("34+p"), values("3 4+p"));
}

#[test]
fn output_limit_holds_over_many_steps() {
    let mut interpreter = Interpreter::with_options(Duration::from_millis(2000), 100, 4, 1000);
    let tokens = lex("12p 3p 45p");
    let mut results = Vec::new();
    loop {
        let r = interpreter.step(&tokens);
        let running = r == ExecutionResult::Running;
        results.push(r);
        if !running {
            break;
        }
    }
    assert_eq!(results.last(), Some(&ExecutionResult::RuntimeError(RuntimeError::OutputLimitExceeded)));
    assert_eq!(interpreter.take_output(), b"123".to_vec());
}

#[test]
fn zero_check_interval_with_nothing_to_run() {
    let mut interpreter = Interpreter::with_options(Duration::from_millis(2000), 100, 100, 0);
    assert_eq!(interpreter.eval(&lex("")), (ExecutionResult::Success, 0));
    assert_eq!(interpreter.step(&lex("")), ExecutionResult::Success);
}

#[test]
fn loaded_depth_is_never_undercut() {
    let mut interpreter = Interpreter::new();
    interpreter.load_stack(vec![1, 2, 3, 4]);
    let (res, depth) = interpreter.eval(&lex(";;;;"));
    assert_eq!(res, ExecutionResult::Success);
    assert_eq!(depth, 4);
    assert!(interpreter.stack().is_empty());
}

#[test]
fn separator_runs_change_no_token() {
    let values = |code: &str| -> Vec<(bool, i64)> {
        lex(code)
            .into_iter()
            .map(|t| match t {
                Token::Integer(v, _) => (true, v),
                Token::Command(c, _) => (false, c as i64),
            })
            .collect()
    };
    assert_eq!(values("1+2p"), values("1 ,, \t+2p"));
    assert_eq!(values("1+2p"), values("1+ \n,2p"));
    assert_eq!(values("12 3+p"), values("12 ,\t 3+p"));
}

#[test]
fn stack_growth_past_limit() {
    let mut interpreter = Interpreter::with_options(Duration::from_millis(2000), 2, 100, 1000);
    let tokens = lex("1 2 3");
    assert_eq!(interpreter.step(&tokens), ExecutionResult::Running);
    assert_eq!(interpreter.step(&tokens), ExecutionResult::Running);
    assert_eq!(interpreter.step(&tokens), ExecutionResult::MemoryLimitExceeded);
    assert_eq!(*interpreter.stack(), vec![1, 2]);
}

#[test]
fn reported_depth_is_the_deepest() {
    let mut interpreter = Interpreter::new();
    interpreter.load_stack(vec![5]);
    let (res, depth) = interpreter.eval(&lex("1 2 3;;;;"));
    assert_eq!((res, depth), (ExecutionResult::Success, 4));
    let (res, depth) = interpreter.eval(&lex(""));
    assert_eq!((res, depth), (ExecutionResult::Success, 4));
}
