use flap::interpreter::Interpreter;
use flap::lexer::lex;

#[test]
fn test_simple_arithmetic() {
    let code = "10,20+";
    let tokens = lex(code);
    let mut interpreter = Interpreter::new();
    interpreter.eval(&tokens);
    assert_eq!(*interpreter.stack(), vec![30]);
}

#[test]
fn test_stack_ops() {
    let code = "1,2:"; // 1, 2, 2
    let tokens = lex(code);
    let mut interpreter = Interpreter::new();
    interpreter.eval(&tokens);
    assert_eq!(*interpreter.stack(), vec![1, 2, 2]);
}

#[test]
fn test_loop_logic() {
    // 5 [ : 1 - ] leaves 5, 4, 3, 2, 1, 0 on the stack.
    let code = "5[:1-]";
    let tokens = lex(code);
    let mut interpreter = Interpreter::new();
    interpreter.eval(&tokens);
    assert_eq!(*interpreter.stack(), vec![5, 4, 3, 2, 1, 0]);
}
