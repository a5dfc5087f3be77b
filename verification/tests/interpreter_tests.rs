use dmm::ast::{ASTNode, CompareType, Value};
use dmm::humanoid::Mood;
use dmm::interpreter::{calculate, compare, Action, Interpreter, InterpreterError, Machine};
use dmm::lexer::{Lexer, LexerError, Token};
use dmm::parser::Parser;
use std::rc::Rc;

/// What a run did: what it handed out and asked for, and how it ended.
struct Run {
    shouts: Vec<(usize, String)>,
    prompts: Vec<String>,
    moods: Vec<Mood>,
    questions: usize,
    thanks: usize,
    rebukes: Vec<Value>,
    steps: usize,
    outcome: Result<Value, InterpreterError>,
    interpreter: Interpreter,
}

impl Run {
    fn variable(&self, name: &str) -> Option<Value> {
        self.interpreter.scope().symbol_table.get(&name.to_string()).cloned()
    }
}

fn program(body: &str) -> String {
    format!("hallo\n{}\nreicht dann auch mal", body)
}

/// Runs a program to its end. Every step gets the same fatigue and
/// cooldown; the clock moves by one where `ticking` is set.
fn drive(text: &str, strict: bool, lines: &[&str], stress: u32, cooldown: u128, ticking: bool) -> Run {
    let mut interpreter = Interpreter::new(Parser::new(Lexer::new(text)), strict);
    interpreter.interpret().expect("a program");
    let mut run = Run {
        shouts: Vec::new(),
        prompts: Vec::new(),
        moods: Vec::new(),
        questions: 0,
        thanks: 0,
        rebukes: Vec::new(),
        steps: 0,
        outcome: Ok(Value::Nothing),
        interpreter,
    };
    let mut lines = lines.iter();
    let mut line: Option<String> = None;
    let mut now: u128 = 1000;
    loop {
        let action = run.interpreter.step_with(line.as_deref(), now, stress, cooldown);
        line = None;
        run.steps += 1;
        assert!(run.steps < 100000, "the program does not end");
        if ticking {
            now += 1;
        }
        match action {
            Action::Continue => {}
            Action::ShowMood(mood) => run.moods.push(mood),
            Action::Ask { .. } => {
                run.questions += 1;
                line = Some(lines.next().expect("an answer").to_string());
            }
            Action::Thank { .. } => run.thanks += 1,
            Action::Rebuke { expected } => run.rebukes.push(expected),
            Action::Shout { level, text } => run.shouts.push((level, text)),
            Action::Read { prompt } => {
                run.prompts.push(prompt);
                line = Some(lines.next().expect("a line").to_string());
            }
            Action::Finished(outcome) => {
                run.outcome = outcome;
                assert!(run.interpreter.is_done());
                return run;
            }
        }
    }
}

fn strict(body: &str) -> Run {
    drive(&program(body), true, &[], 0, 0, false)
}

fn value(body: &str) -> Value {
    let run = strict(&format!("result = {}", body));
    match &run.outcome {
        Ok(_) => run.variable("result").expect("a result"),
        Err(error) => panic!("{:?}", error),
    }
}

fn error(body: &str) -> InterpreterError {
    match strict(body).outcome {
        Err(error) => error,
        Ok(value) => panic!("{:?}", value),
    }
}

#[test]
fn an_assignment_of_a_sum_assigns_the_sum() {
    let run = drive("hallo\na = 1 + 2\nreicht dann auch mal", true, &[], 0, 0, false);
    assert!(matches!(run.outcome, Ok(Value::Nothing)));
    assert_eq!(run.variable("a"), Some(Value::Integer(3)));
    assert!(run.shouts.is_empty() && run.prompts.is_empty());
}

#[test]
fn arithmetic_is_integer_arithmetic() {
    assert_eq!(value("7 - 10"), Value::Integer(-3));
    assert_eq!(value("6 * 7"), Value::Integer(42));
    assert_eq!(value("7 / 2"), Value::Integer(3));
    assert_eq!(value("(0 - 7) / 2"), Value::Integer(-3));
    assert_eq!(value("7 / (0 - 2)"), Value::Integer(-3));
    assert_eq!(value("(0 - 7) / (0 - 2)"), Value::Integer(3));
    assert_eq!(value("1 + 2 * 3"), Value::Integer(7));
    assert_eq!(value("(1 + 2) * 3"), Value::Integer(9));
    assert_eq!(value("-5"), Value::Integer(-5));
    assert_eq!(value("+5"), Value::Integer(5));
    assert_eq!(value("--5"), Value::Integer(5));
    assert_eq!(value("2147483647"), Value::Integer(i32::MAX));
}

#[test]
fn each_operation_has_its_exact_result() {
    assert!(matches!(calculate(&Token::Plus, 2, 3), Ok(5)));
    assert!(matches!(calculate(&Token::Minus, 2, 3), Ok(-1)));
    assert!(matches!(calculate(&Token::Multiply, -2, 3), Ok(-6)));
    assert!(matches!(calculate(&Token::Divide, -7, 2), Ok(-3)));
    assert!(matches!(calculate(&Token::Divide, i32::MIN, 1), Ok(i32::MIN)));
    assert!(matches!(calculate(&Token::Plus, i32::MAX, 1), Err(InterpreterError::Overflow)));
    assert!(matches!(calculate(&Token::Minus, i32::MIN, 1), Err(InterpreterError::Overflow)));
    assert!(matches!(calculate(&Token::Multiply, 65536, 65536), Err(InterpreterError::Overflow)));
    assert!(matches!(calculate(&Token::Divide, i32::MIN, -1), Err(InterpreterError::Overflow)));
    assert!(matches!(calculate(&Token::Divide, 1, 0), Err(InterpreterError::DivisionByZero)));
    assert!(matches!(calculate(&Token::Comma, 1, 1), Err(InterpreterError::InvalidOperator)));
}

#[test]
fn arithmetic_that_cannot_be_done_is_fatal() {
    assert!(matches!(error("a = 1 / 0"), InterpreterError::DivisionByZero));
    assert!(matches!(error("a = 2147483647 + 1"), InterpreterError::Overflow));
    assert!(matches!(error("a = -2147483648"), InterpreterError::Overflow));
    assert!(matches!(error("a = 65536 * 65536"), InterpreterError::Overflow));
}

#[test]
fn an_operand_that_is_no_integer_is_fatal() {
    assert!(matches!(error("a = 1 + <x>"), InterpreterError::NotANumber));
    assert!(matches!(error("a = :) * 2"), InterpreterError::NotANumber));
    assert!(matches!(error("a = -<x>"), InterpreterError::NotANumber));
    assert!(matches!(error("f(1)\na = f(1) + 1"), InterpreterError::UnknownFunction(_)));
}

#[test]
fn the_left_operand_is_checked_before_the_right_is_evaluated() {
    assert!(matches!(error("a = <x> + missing"), InterpreterError::NotANumber));
    match error("a = 1 + missing") {
        InterpreterError::UnknownVariable(name) => assert_eq!(name, "missing"),
        other => panic!("{:?}", other),
    }
}

#[test]
fn comparisons_give_booleans() {
    assert_eq!(value("1 is 1"), Value::Boolean(true));
    assert_eq!(value("1 is 2"), Value::Boolean(false));
    assert_eq!(value("1 kleina 2"), Value::Boolean(true));
    assert_eq!(value("2 kleina 2"), Value::Boolean(false));
    assert_eq!(value("3 krasser 2"), Value::Boolean(true));
    assert_eq!(value("2 krasser 3"), Value::Boolean(false));
    assert_eq!(value("<a> is <a>"), Value::Boolean(true));
    assert_eq!(value("<a> kleina <b>"), Value::Boolean(true));
    assert_eq!(value(":( kleina :)"), Value::Boolean(true));
}

#[test]
fn values_of_two_kinds_are_never_equal_and_compare_as_their_kinds() {
    assert_eq!(value("1 is <1>"), Value::Boolean(false));
    assert_eq!(value("1 kleina <a>"), Value::Boolean(true));
    assert_eq!(value("<a> kleina 1"), Value::Boolean(false));
    assert_eq!(value("<a> krasser 1"), Value::Boolean(true));
    assert_eq!(value(":) krasser <a>"), Value::Boolean(true));
    assert!(compare(CompareType::Less, &Value::Boolean(true), &Value::Nothing));
    assert!(compare(CompareType::Greater, &Value::Nothing, &Value::Integer(0)));
    assert!(!compare(CompareType::Equals, &Value::Nothing, &Value::Integer(0)));
    assert!(compare(CompareType::Equals, &Value::Nothing, &Value::Nothing));
}

#[test]
fn a_variable_stands_for_what_was_last_assigned() {
    let run = strict("a = 1\nb = a + 1\na = b * 10\nmachma c uf a");
    assert_eq!(run.variable("a"), Some(Value::Integer(20)));
    assert_eq!(run.variable("b"), Some(Value::Integer(2)));
    assert_eq!(run.variable("c"), Some(Value::Integer(20)));
    assert_eq!(run.variable("d"), None);
}

#[test]
fn an_unknown_variable_is_fatal() {
    match error("a = b") {
        InterpreterError::UnknownVariable(name) => assert_eq!(name, "b"),
        other => panic!("{:?}", other),
    }
}

#[test]
fn a_conditional_runs_its_body_only_when_true() {
    assert_eq!(strict("a = 1\nwenn a is 1 avo a = 2 cado").variable("a"), Some(Value::Integer(2)));
    assert_eq!(strict("a = 1\nwenn a is 5 avo a = 2 cado").variable("a"), Some(Value::Integer(1)));
}

#[test]
fn a_condition_that_is_no_boolean_is_fatal() {
    assert!(matches!(error("wenn 1 avo a = 2 cado"), InterpreterError::NotABoolean));
    assert!(matches!(error("schleif <x> avo a = 2 cado"), InterpreterError::NotABoolean));
    assert!(matches!(error("a = 0\nschleif a avo a = 2 cado"), InterpreterError::NotABoolean));
}

#[test]
fn a_loop_runs_while_its_condition_is_true() {
    let run = strict("i = 0\nsum = 0\nschleif i kleina 5 avo\ni = i + 1\nsum = sum + i\ncado");
    assert!(matches!(run.outcome, Ok(Value::Nothing)));
    assert_eq!(run.variable("i"), Some(Value::Integer(5)));
    assert_eq!(run.variable("sum"), Some(Value::Integer(15)));
}

#[test]
fn a_loop_whose_condition_is_false_never_runs_its_body() {
    let run = strict("a = 1\nschleif :( avo a = 2 cado\nschleif a is 7 avo a = 3 cado");
    assert!(matches!(run.outcome, Ok(Value::Nothing)));
    assert_eq!(run.variable("a"), Some(Value::Integer(1)));
}

#[test]
fn a_loop_evaluates_its_condition_before_every_turn() {
    let body = "funny check(n) avo\n:O__(<check >, n)\nwirf n kleina 3\ncado\nturns = 0\nschleif check(turns) avo turns = turns + 1 cado";
    let run = strict(body);
    assert!(matches!(run.outcome, Ok(Value::Nothing)));
    assert_eq!(run.variable("turns"), Some(Value::Integer(3)));
    assert_eq!(
        run.shouts,
        vec![
            (1, "check 0".to_string()),
            (1, "check 1".to_string()),
            (1, "check 2".to_string()),
            (1, "check 3".to_string()),
        ]
    );
}

#[test]
fn a_function_returns_the_value_of_its_return() {
    assert_eq!(
        strict("funny add(a, b) avo wirf a + b cado\nx = add(2, 3)").variable("x"),
        Some(Value::Integer(5))
    );
}

#[test]
fn a_function_without_return_has_no_value() {
    let run = strict("funny f() avo a = 1 cado\nx = f()");
    assert_eq!(run.variable("x"), Some(Value::Nothing));
    assert_eq!(run.variable("a"), None);
}

#[test]
fn a_call_with_too_many_arguments_is_fatal() {
    assert!(matches!(
        error("funny add(a, b) avo wirf a + b cado\nx = add(1, 2, 3)"),
        InterpreterError::InvalidArgumentCount
    ));
}

#[test]
fn a_call_with_too_few_arguments_is_fatal() {
    assert!(matches!(
        error("funny add(a, b) avo wirf a + b cado\nx = add(1)"),
        InterpreterError::InvalidArgumentCount
    ));
    assert!(matches!(
        error("funny f() avo cado\nf(missing)"),
        InterpreterError::InvalidArgumentCount
    ));
}

#[test]
fn a_call_of_what_was_never_declared_is_fatal() {
    match error("x = nothing(1)") {
        InterpreterError::UnknownFunction(name) => assert_eq!(name, "nothing"),
        other => panic!("{:?}", other),
    }
}

#[test]
fn a_second_declaration_under_one_name_is_fatal() {
    match error("funny f() avo cado\nfunny f() avo cado") {
        InterpreterError::AlreadyDeclared(name) => assert_eq!(name, "f"),
        other => panic!("{:?}", other),
    }
}

#[test]
fn a_return_inside_a_conditional_ends_the_function() {
    let body = "reached = 0\nfunny f(a) avo\nwenn a krasser 0 avo\nwenn a krasser 1 avo\nwirf 11\ncado\nwirf 22\ncado\nwirf 33\ncado\nx = f(2)\ny = f(1)\nz = f(0)";
    let run = strict(body);
    assert!(matches!(run.outcome, Ok(Value::Nothing)));
    assert_eq!(run.variable("x"), Some(Value::Integer(11)));
    assert_eq!(run.variable("y"), Some(Value::Integer(22)));
    assert_eq!(run.variable("z"), Some(Value::Integer(33)));
}

#[test]
fn a_return_skips_the_statements_behind_it() {
    let body = "funny f() avo\nwenn :) avo\nwirf 1\ncado\n:O__(<never>)\nwirf 2\ncado\nx = f()";
    let run = strict(body);
    assert_eq!(run.variable("x"), Some(Value::Integer(1)));
    assert!(run.shouts.is_empty());
}

#[test]
fn a_return_inside_a_loop_ends_the_function() {
    let body = "funny first(limit) avo\ni = 0\nschleif :) avo\ni = i + 1\nwenn i is limit avo wirf i * 100 cado\ncado\ncado\nx = first(3)";
    assert_eq!(strict(body).variable("x"), Some(Value::Integer(300)));
}

#[test]
fn a_return_outside_every_function_is_reported() {
    match strict("a = 1\nwirf a + 41\na = 2").outcome {
        Err(InterpreterError::HackyReturn(value)) => assert_eq!(value, Value::Integer(42)),
        other => panic!("{:?}", other),
    }
    match strict("wenn :) avo wirf <out> cado").outcome {
        Err(InterpreterError::HackyReturn(value)) => assert_eq!(value, Value::String("out".to_string())),
        other => panic!("{:?}", other),
    }
}

#[test]
fn a_function_has_its_own_variables() {
    let body = "a = 1\nfunny f(b) avo\na = b\nwirf a\ncado\nx = f(5)";
    let run = strict(body);
    assert_eq!(run.variable("a"), Some(Value::Integer(1)));
    assert_eq!(run.variable("x"), Some(Value::Integer(5)));
    assert_eq!(run.variable("b"), None);
}

#[test]
fn a_function_does_not_see_the_variables_of_its_caller() {
    match error("a = 1\nfunny f() avo wirf a cado\nx = f()") {
        InterpreterError::UnknownVariable(name) => assert_eq!(name, "a"),
        other => panic!("{:?}", other),
    }
}

#[test]
fn a_function_sees_the_functions_of_its_caller() {
    let body = "funny one() avo wirf 1 cado\nfunny two() avo wirf one() + one() cado\nx = two()";
    assert_eq!(strict(body).variable("x"), Some(Value::Integer(2)));
}

#[test]
fn a_function_can_call_itself() {
    let body = "funny fac(n) avo\nwenn n kleina 2 avo wirf 1 cado\nwirf n * fac(n - 1)\ncado\nx = fac(10)";
    let run = strict(body);
    assert_eq!(run.variable("x"), Some(Value::Integer(3628800)));
    assert_eq!(run.interpreter.depth(), 0);
}

#[test]
fn a_declaration_inside_a_function_stays_inside() {
    let body = "funny outer() avo\nfunny inner() avo wirf 7 cado\nwirf inner()\ncado\nx = outer()\ny = inner()";
    let run = strict(body);
    assert!(matches!(run.outcome, Err(InterpreterError::UnknownFunction(_))));
    assert_eq!(run.variable("x"), Some(Value::Integer(7)));
}

#[test]
fn arguments_are_evaluated_in_the_scope_of_the_caller() {
    let body = "a = 10\nfunny f(a, b) avo wirf a - b cado\nx = f(a + 1, a)";
    assert_eq!(strict(body).variable("x"), Some(Value::Integer(1)));
}

#[test]
fn the_output_call_hands_out_the_texts_of_its_arguments() {
    let run = strict("a = 5\n:O__(<a is >, a, < and >, a + 1, :), <!>)");
    assert_eq!(run.shouts, vec![(1, "a is 5 and 6:)!".to_string())]);
    assert!(matches!(run.outcome, Ok(Value::Nothing)));
}

#[test]
fn the_intensity_grows_with_the_name_of_the_output_call() {
    let run = strict(":O__(<a>)\n:O___(<b>)\n:O______(<c>)\n:O__x1(<d>)\n:O__()");
    assert_eq!(
        run.shouts,
        vec![
            (1, "a".to_string()),
            (2, "b".to_string()),
            (5, "c".to_string()),
            (3, "d".to_string()),
            (1, String::new()),
        ]
    );
}

#[test]
fn the_output_call_has_no_value() {
    let run = strict("x = :O__(<a>)");
    assert_eq!(run.variable("x"), Some(Value::Nothing));
    assert_eq!(run.shouts.len(), 1);
}

#[test]
fn an_unknown_variable_in_an_output_call_is_fatal() {
    let run = strict(":O__(<a>, missing)");
    assert!(matches!(run.outcome, Err(InterpreterError::UnknownVariable(_))));
    assert!(run.shouts.is_empty());
}

fn input_call(parameters: Vec<ASTNode>) -> ASTNode {
    ASTNode::FunctionCall {
        function: Rc::new(ASTNode::Variable { name: "d;D".to_string() }),
        parameters,
    }
}

fn run_tree(tree: ASTNode, lines: &[&str]) -> (Vec<String>, Result<Value, InterpreterError>, Machine) {
    let mut machine = Machine::new(true);
    machine.load(tree);
    let mut prompts = Vec::new();
    let mut lines = lines.iter();
    let mut line: Option<String> = None;
    for _ in 0..10000 {
        let action = machine.step_with(line.as_deref(), 0, 0, 0);
        line = None;
        match action {
            Action::Read { prompt } => {
                prompts.push(prompt);
                line = lines.next().map(|l| l.to_string());
            }
            Action::Finished(outcome) => return (prompts, outcome, machine),
            _ => {}
        }
    }
    panic!("the tree does not end");
}

#[test]
fn the_input_call_reads_a_value() {
    let tree = ASTNode::Block {
        children: vec![ASTNode::Assign {
            left: Rc::new(ASTNode::Variable { name: "x".to_string() }),
            right: Rc::new(input_call(vec![
                ASTNode::Value { value: Value::String("How many".to_string()) },
                ASTNode::Value { value: Value::Integer(2) },
            ])),
        }],
    };
    let (prompts, outcome, machine) = run_tree(tree, &["n = 12\n"]);
    assert_eq!(prompts, vec!["How many2: ".to_string()]);
    assert!(matches!(outcome, Ok(Value::Nothing)));
    assert_eq!(
        machine.scope().symbol_table.get(&"x".to_string()),
        Some(&Value::Integer(12))
    );
}

#[test]
fn a_line_that_could_not_be_read_is_nothing() {
    let (prompts, outcome, _) = run_tree(input_call(vec![]), &[]);
    assert_eq!(prompts, vec![": ".to_string()]);
    assert!(matches!(outcome, Ok(Value::Nothing)));
    let (_, outcome, _) = run_tree(input_call(vec![]), &["nonsense\n"]);
    assert!(matches!(outcome, Ok(Value::Nothing)));
    let (_, outcome, _) = run_tree(input_call(vec![]), &["a = <yes>\n"]);
    assert!(matches!(outcome, Ok(Value::String(_))));
}

#[test]
fn trees_that_no_parser_builds_are_evaluated_too() {
    let bad_operator = ASTNode::BinOp {
        left: Rc::new(ASTNode::Value { value: Value::Integer(1) }),
        right: Rc::new(ASTNode::Value { value: Value::Integer(1) }),
        token: Token::Comma,
    };
    assert!(matches!(run_tree(bad_operator, &[]).1, Err(InterpreterError::InvalidOperator)));
    let bad_sign = ASTNode::UnaryOp {
        expression: Rc::new(ASTNode::Value { value: Value::Integer(1) }),
        token: Token::Multiply,
    };
    assert!(matches!(run_tree(bad_sign, &[]).1, Err(InterpreterError::InvalidOperator)));
    let bad_target = ASTNode::Assign {
        left: Rc::new(ASTNode::Value { value: Value::Integer(1) }),
        right: Rc::new(ASTNode::Value { value: Value::Integer(1) }),
    };
    assert!(matches!(run_tree(bad_target, &[]).1, Err(InterpreterError::InvalidAssignTarget)));
    let no_name = ASTNode::FunctionCall {
        function: Rc::new(ASTNode::Value { value: Value::Integer(1) }),
        parameters: vec![],
    };
    assert!(matches!(run_tree(no_name, &[]).1, Ok(Value::Nothing)));
    assert!(matches!(run_tree(ASTNode::NoOp, &[]).1, Ok(Value::Nothing)));
    assert!(matches!(
        run_tree(ASTNode::Value { value: Value::Integer(4) }, &[]).1,
        Ok(Value::Integer(4))
    ));
}

#[test]
fn a_machine_with_nothing_to_do_is_done_at_once() {
    let mut machine = Machine::new(false);
    assert_eq!(machine.depth(), 0);
    assert!(!machine.is_done());
    assert!(matches!(machine.step(None, 0), Action::Finished(Ok(Value::Nothing))));
    assert!(machine.is_done());
    assert!(matches!(machine.step(None, 5), Action::Finished(Ok(Value::Nothing))));
}

#[test]
fn what_is_no_program_is_not_evaluated() {
    let mut interpreter = Interpreter::new(Parser::new(Lexer::new("a = 1")), true);
    assert!(matches!(interpreter.interpret(), Err(LexerError::UnexpectedToken { .. })));
    assert!(!interpreter.is_done());
    assert!(matches!(interpreter.step(None, 0), Action::Finished(Ok(Value::Nothing))));
}

#[test]
fn a_strict_run_depends_on_nothing_but_the_program() {
    let text = program("i = 0\nfunny f(n) avo wirf n * 2 cado\nschleif i kleina 4 avo\ni = i + 1\n:O___(<i=>, f(i))\ncado");
    let first = drive(&text, true, &[], 0, 0, false);
    let second = drive(&text, true, &[], 9, 123456789, true);
    let third = drive(&text, true, &[], 1000000, 1, true);
    for run in [&first, &second, &third] {
        assert!(matches!(run.outcome, Ok(Value::Nothing)));
        assert!(run.moods.is_empty());
        assert_eq!(run.questions, 0);
        assert_eq!(run.thanks, 0);
        assert!(run.rebukes.is_empty());
        assert_eq!(run.interpreter.worker().stress(), 0);
    }
    assert_eq!(first.shouts, second.shouts);
    assert_eq!(first.shouts, third.shouts);
    assert_eq!(first.steps, second.steps);
    assert_eq!(first.steps, third.steps);
    assert_eq!(
        first.shouts,
        vec![
            (2, "i=2".to_string()),
            (2, "i=4".to_string()),
            (2, "i=6".to_string()),
            (2, "i=8".to_string()),
        ]
    );
}

#[test]
fn a_worker_that_tires_shows_its_moods_in_order() {
    let text = program("i = 0\nschleif i kleina 50 avo i = i + 1 cado");
    let run = drive(&text, false, &[], 500, 0, false);
    assert_eq!(run.moods, vec![Mood::Glad, Mood::Okay, Mood::Sad, Mood::Aggressive]);
    assert_eq!(run.questions, 0);
    assert!(matches!(run.outcome, Ok(Value::Nothing)));
}

#[test]
fn an_exhausted_worker_asks_and_goes_on_after_the_right_answer() {
    let text = "hallo\na = 1 + 2\n:O__(a)\nreicht dann auch mal";
    let run = drive(text, false, &["x = 3\n"], 1000000, u128::MAX, false);
    assert_eq!(run.moods, vec![Mood::Deactivated]);
    assert_eq!(run.questions, 1);
    assert_eq!(run.thanks, 1);
    assert!(run.rebukes.is_empty());
    assert!(matches!(run.outcome, Ok(Value::Nothing)));
    assert_eq!(run.variable("a"), Some(Value::Integer(3)));
    assert_eq!(run.shouts, vec![(1, "3".to_string())]);
}

#[test]
fn the_right_answer_resets_the_fatigue() {
    let mut interpreter =
        Interpreter::new(Parser::new(Lexer::new("hallo\na = 1 + 2\nreicht dann auch mal")), false);
    interpreter.interpret().unwrap();
    let mut asked = false;
    for _ in 0..100 {
        match interpreter.step_with(None, 50, 1000000, 77) {
            Action::Ask { node } => {
                assert!(matches!(&*node, ASTNode::BinOp { .. }));
                asked = true;
                break;
            }
            Action::Finished(outcome) => panic!("{:?}", outcome),
            _ => {}
        }
    }
    assert!(asked);
    assert!(interpreter.worker().stress() >= 1000000);
    assert!(matches!(
        interpreter.step_with(Some("x = 3\n"), 60, 1000000, 77),
        Action::Thank { nothing: false }
    ));
    assert_eq!(interpreter.worker().stress(), 0);
    assert!(!interpreter.is_done());
}

#[test]
fn a_wrong_answer_ends_the_run_and_nothing_more_is_handed_out() {
    let text = "hallo\na = 1 + 2\n:O__(a)\nreicht dann auch mal";
    for wrong in ["x = 4\n", "x = <3>\n", "\n", "3\n"] {
        let run = drive(text, false, &[wrong], 1000000, 5, false);
        assert_eq!(run.questions, 1);
        assert_eq!(run.thanks, 0);
        assert_eq!(run.rebukes, vec![Value::Integer(3)]);
        assert!(matches!(run.outcome, Err(InterpreterError::DisturbedWorker)));
        assert!(run.shouts.is_empty());
        assert_eq!(run.variable("a"), None);
        assert_eq!(run.interpreter.depth(), 0);
    }
}

#[test]
fn nothing_happens_after_the_end() {
    let mut run = drive("hallo\na = 1 + 2\nreicht dann auch mal", false, &["x = 0\n"], 1000000, 5, false);
    for now in 0..5 {
        assert!(matches!(
            run.interpreter.step(Some("x = 3\n"), now),
            Action::Finished(Err(InterpreterError::DisturbedWorker))
        ));
    }
    assert_eq!(run.variable("a"), None);
}

#[test]
fn a_wrong_answer_inside_a_call_gives_up_every_call() {
    let text = program("funny f(n) avo\nwenn n is 0 avo wirf 0 cado\nwirf f(n - 1)\ncado\nx = f(3)");
    let mut interpreter = Interpreter::new(Parser::new(Lexer::new(&text)), false);
    interpreter.interpret().unwrap();
    let mut deepest = 0;
    let mut line: Option<&str> = None;
    let outcome = loop {
        let stress = if interpreter.depth() >= 3 { 1000000 } else { 0 };
        deepest = deepest.max(interpreter.depth());
        match interpreter.step_with(line, 100, stress, 5) {
            Action::Ask { .. } => line = Some("x = <wrong>\n"),
            Action::Finished(outcome) => break outcome,
            _ => line = None,
        }
    };
    assert!(deepest >= 3);
    assert!(matches!(outcome, Err(InterpreterError::DisturbedWorker)));
    assert_eq!(interpreter.depth(), 0);
}

#[test]
fn the_worker_asks_about_every_node_but_literals() {
    let text = program("funny f() avo wirf 1 cado\nx = f() is 1");
    let mut interpreter = Interpreter::new(Parser::new(Lexer::new(&text)), false);
    interpreter.interpret().unwrap();
    let mut asked = Vec::new();
    let mut line: Option<String> = None;
    let mut now: u128 = 100;
    let outcome = loop {
        now += 10;
        match interpreter.step_with(line.as_deref(), now, 1000000, 0) {
            Action::Ask { node } => {
                let (kind, answer) = match &*node {
                    ASTNode::FunctionDeclaration { .. } => ("declaration", "\n"),
                    ASTNode::Return { .. } => ("return", "x = 1\n"),
                    ASTNode::FunctionCall { .. } => ("call", "x = 1\n"),
                    ASTNode::Compare { .. } => ("comparison", "x = :)\n"),
                    ASTNode::Assign { .. } => ("assignment", "\n"),
                    ASTNode::Block { .. } => ("block", "\n"),
                    other => panic!("{:?}", other),
                };
                asked.push(kind);
                line = Some(answer.to_string());
            }
            Action::Finished(outcome) => break outcome,
            _ => line = None,
        }
    };
    assert!(matches!(outcome, Ok(Value::Nothing)));
    assert_eq!(
        asked,
        vec!["declaration", "return", "call", "comparison", "assignment", "block"]
    );
    assert_eq!(
        interpreter.scope().symbol_table.get(&"x".to_string()),
        Some(&Value::Boolean(true))
    );
}

#[test]
fn the_worker_is_never_asked_about_a_literal() {
    let text = program("a = 1\nb = <two>\nc = :)");
    let mut interpreter = Interpreter::new(Parser::new(Lexer::new(&text)), false);
    interpreter.interpret().unwrap();
    let mut line: Option<String> = None;
    let mut now: u128 = 100;
    let mut questions = 0;
    loop {
        now += 10;
        match interpreter.step_with(line.as_deref(), now, 1000000, 0) {
            Action::Ask { node } => {
                assert!(!matches!(&*node, ASTNode::Value { .. }));
                questions += 1;
                line = Some("\n".to_string());
            }
            Action::Finished(outcome) => {
                assert!(matches!(outcome, Ok(Value::Nothing)));
                break;
            }
            _ => line = None,
        }
    }
    assert_eq!(questions, 4);
}

#[test]
fn a_return_that_the_worker_asks_about_still_ends_its_call() {
    let text = program("funny f() avo\nwenn :) avo wirf 5 cado\n:O__(<never>)\ncado\nx = f()");
    let mut interpreter = Interpreter::new(Parser::new(Lexer::new(&text)), false);
    interpreter.interpret().unwrap();
    let mut line: Option<String> = None;
    let mut now: u128 = 100;
    let mut shouted = false;
    loop {
        now += 10;
        match interpreter.step_with(line.as_deref(), now, 1000000, 0) {
            Action::Ask { node } => {
                let answer = match &*node {
                    ASTNode::Return { .. } | ASTNode::FunctionCall { .. } => "x = 5\n",
                    _ => "\n",
                };
                line = Some(answer.to_string());
            }
            Action::Shout { .. } => shouted = true,
            Action::Finished(outcome) => {
                assert!(matches!(outcome, Ok(Value::Nothing)));
                break;
            }
            _ => line = None,
        }
    }
    assert!(!shouted);
    assert_eq!(interpreter.depth(), 0);
    assert_eq!(
        interpreter.scope().symbol_table.get(&"x".to_string()),
        Some(&Value::Integer(5))
    );
}

#[test]
fn chance_drives_a_worker_that_tires() {
    let mut interpreter = Interpreter::new(
        Parser::new(Lexer::new("hallo\na = 1 + 2\nreicht dann auch mal")),
        false,
    );
    interpreter.interpret().unwrap();
    let mut steps = 0;
    loop {
        steps += 1;
        match interpreter.step(None, 0) {
            Action::Finished(outcome) => {
                assert!(matches!(outcome, Ok(Value::Nothing)));
                break;
            }
            Action::Continue => {}
            other => panic!("{:?}", other),
        }
    }
    let stress = interpreter.worker().stress();
    assert!(5 <= stress && stress <= 45, "{} after {} steps", stress, steps);
}

#[test]
fn a_worker_that_is_satisfied_changes_nothing() {
    let text = program("a = 1 + 2\nb = a kleina 4\n:O___(a, <:>, b)");
    let strict_run = drive(&text, true, &[], 0, 0, false);
    let mut interpreter = Interpreter::new(Parser::new(Lexer::new(&text)), false);
    interpreter.interpret().unwrap();
    let mut shouts = Vec::new();
    let mut questions = 0;
    let mut line: Option<String> = None;
    let mut now: u128 = 100;
    let outcome = loop {
        now += 10;
        match interpreter.step_with(line.as_deref(), now, 1000000, 0) {
            Action::Ask { node } => {
                questions += 1;
                let answer = match &*node {
                    ASTNode::BinOp { .. } => "x = 3\n",
                    ASTNode::Variable { .. } => "x = 3\n",
                    ASTNode::Compare { .. } => "x = :)\n",
                    _ => "\n",
                };
                line = Some(answer.to_string());
            }
            Action::Shout { level, text } => {
                shouts.push((level, text));
                line = None;
            }
            Action::Finished(outcome) => break outcome,
            _ => line = None,
        }
    };
    assert!(questions >= 6);
    assert!(matches!(outcome, Ok(Value::Nothing)));
    assert!(matches!(strict_run.outcome, Ok(Value::Nothing)));
    assert_eq!(shouts, strict_run.shouts);
    assert_eq!(shouts, vec![(2, "3::)".to_string())]);
    for name in ["a", "b"] {
        assert_eq!(
            interpreter.scope().symbol_table.get(&name.to_string()).cloned(),
            strict_run.variable(name)
        );
    }
    assert_eq!(interpreter.depth(), strict_run.interpreter.depth());
}
