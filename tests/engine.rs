use code_test_simple_calculator::components::parse_i32;
use code_test_simple_calculator::{
    execute_line, Calculator, EvalError, LineOutcome, OpKind, Operation, ParseError, RegID,
    Register,
};

fn reg(name: &str) -> RegID {
    RegID::new(name.to_string()).unwrap()
}

fn value_of(calc: &mut Calculator, name: &str) -> Result<i32, EvalError> {
    calc.get_register_value(reg(name))
}

#[test]
fn numbers_only_fold_left_to_right() {
    let mut calc = Calculator::new();
    calc.operation("a", "add", "5").unwrap();
    calc.operation("a", "subtract", "2").unwrap();
    calc.operation("a", "multiply", "3").unwrap();
    assert_eq!(value_of(&mut calc, "a"), Ok(9));
}

#[test]
fn unseen_register_is_zero() {
    let mut calc = Calculator::new();
    assert_eq!(value_of(&mut calc, "nothing"), Ok(0));
    calc.operation("a", "add", "4").unwrap();
    assert_eq!(value_of(&mut calc, "other"), Ok(0));
}

#[test]
fn add_then_multiply_respects_order() {
    let mut calc = Calculator::new();
    calc.operation("a", "add", "5").unwrap();
    calc.operation("a", "multiply", "2").unwrap();
    assert_eq!(value_of(&mut calc, "a"), Ok(10));

    let mut calc = Calculator::new();
    calc.operation("a", "multiply", "2").unwrap();
    calc.operation("a", "add", "5").unwrap();
    assert_eq!(value_of(&mut calc, "a"), Ok(5));
}

#[test]
fn forward_reference_is_resolved_first() {
    let mut calc = Calculator::new();
    calc.operation("a", "add", "b").unwrap();
    calc.operation("b", "add", "3").unwrap();
    assert_eq!(value_of(&mut calc, "a"), Ok(3));
    assert_eq!(value_of(&mut calc, "b"), Ok(3));
}

#[test]
fn two_registers_depending_on_each_other_fail() {
    let mut calc = Calculator::new();
    calc.operation("a", "add", "b").unwrap();
    calc.operation("b", "add", "a").unwrap();
    assert_eq!(
        value_of(&mut calc, "a"),
        Err(EvalError::CycleDetected(vec!["a".to_string(), "b".to_string()]))
    );

    let mut calc = Calculator::new();
    calc.operation("a", "add", "b").unwrap();
    calc.operation("b", "add", "a").unwrap();
    assert_eq!(
        value_of(&mut calc, "b"),
        Err(EvalError::CycleDetected(vec!["b".to_string(), "a".to_string()]))
    );
}

#[test]
fn register_reading_itself_fails() {
    let mut calc = Calculator::new();
    calc.operation("a", "add", "1").unwrap();
    calc.operation("a", "add", "a").unwrap();
    assert_eq!(
        value_of(&mut calc, "a"),
        Err(EvalError::CycleDetected(vec!["a".to_string()]))
    );
}

#[test]
fn unrelated_register_after_cycle_is_unaffected() {
    let mut calc = Calculator::new();
    calc.operation("a", "add", "b").unwrap();
    calc.operation("b", "add", "a").unwrap();
    calc.operation("c", "add", "7").unwrap();
    assert!(value_of(&mut calc, "a").is_err());
    assert_eq!(value_of(&mut calc, "c"), Ok(7));
}

#[test]
fn resolving_twice_gives_same_value() {
    let mut calc = Calculator::new();
    calc.operation("x", "add", "y").unwrap();
    calc.operation("y", "subtract", "4").unwrap();
    calc.operation("x", "multiply", "3").unwrap();
    assert_eq!(value_of(&mut calc, "x"), Ok(-12));
    assert_eq!(value_of(&mut calc, "x"), Ok(-12));
}

#[test]
fn shared_dependency_is_applied_once() {
    let mut calc = Calculator::new();
    calc.operation("b", "add", "2").unwrap();
    calc.operation("a", "add", "b").unwrap();
    calc.operation("a", "add", "b").unwrap();
    assert_eq!(value_of(&mut calc, "a"), Ok(4));
    assert_eq!(value_of(&mut calc, "b"), Ok(2));
}

#[test]
fn operations_after_a_resolve_are_queued_anew() {
    let mut calc = Calculator::new();
    calc.operation("a", "add", "2").unwrap();
    assert_eq!(value_of(&mut calc, "a"), Ok(2));
    calc.operation("a", "multiply", "5").unwrap();
    assert_eq!(value_of(&mut calc, "a"), Ok(10));
}

#[test]
fn arithmetic_wraps_around() {
    let mut calc = Calculator::new();
    calc.operation("a", "add", "2147483647").unwrap();
    calc.operation("a", "add", "1").unwrap();
    assert_eq!(value_of(&mut calc, "a"), Ok(-2147483648));
    calc.operation("b", "subtract", "-2147483648").unwrap();
    assert_eq!(value_of(&mut calc, "b"), Ok(-2147483648));
    calc.operation("c", "add", "65536").unwrap();
    calc.operation("c", "multiply", "65536").unwrap();
    assert_eq!(value_of(&mut calc, "c"), Ok(0));
}

#[test]
fn unknown_verb_is_refused() {
    let mut calc = Calculator::new();
    assert_eq!(
        calc.operation("a", "divide", "2"),
        Err(ParseError::UnknownVerb("divide".to_string()))
    );
    assert_eq!(value_of(&mut calc, "a"), Ok(0));
}

#[test]
fn numeric_target_is_refused() {
    let mut calc = Calculator::new();
    assert_eq!(
        calc.operation("12", "add", "2"),
        Err(ParseError::InvalidRegisterName("12".to_string()))
    );
    assert_eq!(
        RegID::new("-7".to_string()).err(),
        Some(ParseError::InvalidRegisterName("-7".to_string()))
    );
    assert!(RegID::new("7a".to_string()).is_ok());
}

#[test]
fn verb_checked_before_target() {
    assert_eq!(
        Operation::new("12", "divide", "2").err(),
        Some(ParseError::UnknownVerb("divide".to_string()))
    );
}

#[test]
fn operation_new_reads_operands() {
    let op = Operation::new("a", "subtract", "-3").unwrap();
    assert_eq!(op.kind(), OpKind::Subtract);
    assert_eq!(op.target().as_str(), "a");
    assert!(matches!(op.operand(), code_test_simple_calculator::Operand::Number(-3)));
    let op = Operation::new("a", "multiply", "b1").unwrap();
    match op.operand() {
        code_test_simple_calculator::Operand::Register(id) => assert_eq!(id.as_str(), "b1"),
        _ => panic!("expected a register operand"),
    }
}

#[test]
fn parse_i32_follows_integer_syntax() {
    assert_eq!(parse_i32("42"), Some(42));
    assert_eq!(parse_i32("+42"), Some(42));
    assert_eq!(parse_i32("-0"), Some(0));
    assert_eq!(parse_i32("-2147483648"), Some(i32::MIN));
    assert_eq!(parse_i32("2147483647"), Some(i32::MAX));
    assert_eq!(parse_i32("2147483648"), None);
    assert_eq!(parse_i32("99999999999999999999"), None);
    assert_eq!(parse_i32(""), None);
    assert_eq!(parse_i32("+"), None);
    assert_eq!(parse_i32("-"), None);
    assert_eq!(parse_i32("1a"), None);
    assert_eq!(parse_i32(" 1"), None);
}

#[test]
fn register_queue_is_first_in_first_out() {
    let mut r = Register::new(reg("a"));
    assert_eq!(r.get_value(), 0);
    r.add_pending_op(Operation::new("a", "add", "1").unwrap());
    r.add_pending_op(Operation::new("a", "multiply", "4").unwrap());
    let first = r.get_pending_op().unwrap();
    assert_eq!(first.kind(), OpKind::Add);
    let second = r.get_pending_op().unwrap();
    assert_eq!(second.kind(), OpKind::Multiply);
    assert!(r.get_pending_op().is_none());
    r.perform(OpKind::Add, 6);
    r.perform(OpKind::Multiply, 2);
    r.perform(OpKind::Subtract, 1);
    assert_eq!(r.get_value(), 11);
}

fn run_lines(lines: &[&str]) -> Vec<i32> {
    let mut calc = Calculator::new();
    let mut printed = Vec::new();
    for line in lines {
        match execute_line(&mut calc, line) {
            LineOutcome::Quit => break,
            LineOutcome::Printed(v) => printed.push(v),
            _ => {}
        }
    }
    printed
}

#[test]
fn session_with_quit() {
    let printed = run_lines(&["a add 5", "a add b", "b add 3", "print a", "quit"]);
    assert_eq!(printed, vec![8]);
}

#[test]
fn session_ending_without_quit() {
    let printed = run_lines(&["a add 1", "a multiply 10", "print a"]);
    assert_eq!(printed, vec![10]);
}

#[test]
fn lines_after_quit_are_ignored() {
    let printed = run_lines(&["a add 2", "print a", "QUIT ", "print a"]);
    assert_eq!(printed, vec![2]);
}

#[test]
fn lines_are_trimmed_and_lowercased() {
    let mut calc = Calculator::new();
    assert_eq!(execute_line(&mut calc, "  Alpha ADD 5\t"), LineOutcome::Queued);
    assert_eq!(execute_line(&mut calc, "PRINT alpha"), LineOutcome::Printed(5));
}

#[test]
fn malformed_lines_are_reported() {
    let mut calc = Calculator::new();
    assert_eq!(execute_line(&mut calc, "show a"), LineOutcome::NotPrint);
    assert_eq!(execute_line(&mut calc, "a add"), LineOutcome::NotPrint);
    assert_eq!(execute_line(&mut calc, "a"), LineOutcome::Unexpected);
    assert_eq!(execute_line(&mut calc, "a  add 1"), LineOutcome::Unexpected);
    assert_eq!(execute_line(&mut calc, ""), LineOutcome::Unexpected);
    assert_eq!(
        execute_line(&mut calc, "print 5"),
        LineOutcome::Rejected(ParseError::InvalidRegisterName("5".to_string()))
    );
    assert_eq!(
        execute_line(&mut calc, "a pow 2"),
        LineOutcome::Rejected(ParseError::UnknownVerb("pow".to_string()))
    );
    assert_eq!(execute_line(&mut calc, "print a"), LineOutcome::Printed(0));
}

#[test]
fn session_reports_cycle() {
    let mut calc = Calculator::new();
    execute_line(&mut calc, "a add b");
    execute_line(&mut calc, "b multiply a");
    assert_eq!(
        execute_line(&mut calc, "print a"),
        LineOutcome::Failed(EvalError::CycleDetected(vec!["a".to_string(), "b".to_string()]))
    );
}
