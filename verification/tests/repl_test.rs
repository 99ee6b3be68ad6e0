use flap::interpreter::{ExecutionResult, RuntimeError};
use flap::repl::{repl_action, repl_commit, ReplAction};

fn is_run(a: ReplAction, expected: &str) -> bool {
    match a {
        ReplAction::Run(code) => code == expected,
        _ => false,
    }
}

#[test]
fn repl_line_actions() {
    assert!(matches!(repl_action("exit\n"), ReplAction::Exit));
    assert!(matches!(repl_action("  exit \r\n"), ReplAction::Exit));
    assert!(matches!(repl_action("\n"), ReplAction::Skip));
    assert!(matches!(repl_action(" \t \u{3000}\n"), ReplAction::Skip));
    assert!(matches!(repl_action(""), ReplAction::Skip));
    assert!(is_run(repl_action("  1 2+p \n"), "1 2+p"));
    assert!(is_run(repl_action("exit now\n"), "exit now"));
    assert!(is_run(repl_action("exi\n"), "exi"));
    assert!(is_run(repl_action("x"), "x"));
}

#[test]
fn repl_stack_carried_only_after_success() {
    let (next, shown) = repl_commit(vec![1, 2], &ExecutionResult::Success, &vec![1, 2, 7]);
    assert_eq!(next, vec![1, 2, 7]);
    assert_eq!(shown, Some(7));

    let (next, shown) = repl_commit(vec![1, 2], &ExecutionResult::Success, &vec![]);
    assert_eq!(next, Vec::<i64>::new());
    assert_eq!(shown, None);

    let err = ExecutionResult::RuntimeError(RuntimeError::StackUnderflow);
    let (next, shown) = repl_commit(vec![1, 2], &err, &vec![9]);
    assert_eq!(next, vec![1, 2]);
    assert_eq!(shown, None);

    let (next, shown) = repl_commit(vec![3], &ExecutionResult::TimeLimitExceeded, &vec![]);
    assert_eq!(next, vec![3]);
    assert_eq!(shown, None);
}
