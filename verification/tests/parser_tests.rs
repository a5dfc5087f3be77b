use dmm::ast::{ASTNode, CompareType, Value};
use dmm::lexer::{Keyword, Lexer, LexerError, Token};
use dmm::parser::Parser;
use std::rc::Rc;

fn parse(text: &str) -> Result<ASTNode, LexerError> {
    Parser::new(Lexer::new(text)).parse()
}

fn program(body: &str) -> String {
    format!("hallo\n{}\nreicht dann auch mal", body)
}

fn statements(body: &str) -> Vec<ASTNode> {
    match parse(&program(body)).expect("a program") {
        ASTNode::Block { children } => children,
        other => panic!("{:?}", other),
    }
}

fn statement(body: &str) -> ASTNode {
    let mut all = statements(body);
    assert_eq!(all.len(), 1, "{:?}", all);
    all.remove(0)
}

fn var(name: &str) -> ASTNode {
    ASTNode::Variable { name: name.to_string() }
}

fn num(n: i32) -> ASTNode {
    ASTNode::Value { value: Value::Integer(n) }
}

fn bin(left: ASTNode, token: Token, right: ASTNode) -> ASTNode {
    ASTNode::BinOp { left: Rc::new(left), right: Rc::new(right), token }
}

fn assign(name: &str, right: ASTNode) -> ASTNode {
    ASTNode::Assign { left: Rc::new(var(name)), right: Rc::new(right) }
}

fn block(children: Vec<ASTNode>) -> ASTNode {
    ASTNode::Block { children }
}

fn unexpected(text: &str) -> (Token, String) {
    match parse(text) {
        Err(LexerError::UnexpectedToken { found, expected }) => (found, expected),
        other => panic!("{:?}", other),
    }
}

#[test]
fn the_smallest_program_has_no_statement() {
    assert_eq!(parse("hallo\nreicht dann auch mal").unwrap(), block(vec![]));
    assert_eq!(parse("hallo\n\n\nreicht dann auch mal").unwrap(), block(vec![]));
}

#[test]
fn an_assignment_is_parsed() {
    assert_eq!(
        parse("hallo\na = 1 + 2\nreicht dann auch mal").unwrap(),
        block(vec![assign("a", bin(num(1), Token::Plus, num(2)))])
    );
}

#[test]
fn products_bind_tighter_than_sums() {
    assert_eq!(
        statement("a = 1 + 2 * 3"),
        assign("a", bin(num(1), Token::Plus, bin(num(2), Token::Multiply, num(3))))
    );
    assert_eq!(
        statement("a = 1 * 2 + 3"),
        assign("a", bin(bin(num(1), Token::Multiply, num(2)), Token::Plus, num(3)))
    );
}

#[test]
fn chains_group_to_the_left() {
    assert_eq!(
        statement("a = 1 - 2 - 3"),
        assign("a", bin(bin(num(1), Token::Minus, num(2)), Token::Minus, num(3)))
    );
    assert_eq!(
        statement("a = 8 / 4 / 2"),
        assign("a", bin(bin(num(8), Token::Divide, num(4)), Token::Divide, num(2)))
    );
}

#[test]
fn parentheses_group_and_leave_no_node() {
    assert_eq!(
        statement("a = (1 + 2) * 3"),
        assign("a", bin(bin(num(1), Token::Plus, num(2)), Token::Multiply, num(3)))
    );
    assert_eq!(statement("a = ((7))"), assign("a", num(7)));
}

#[test]
fn signs_are_unary_operators() {
    assert_eq!(
        statement("a = -1"),
        assign("a", ASTNode::UnaryOp { expression: Rc::new(num(1)), token: Token::Minus })
    );
    assert_eq!(
        statement("a = +-b"),
        assign(
            "a",
            ASTNode::UnaryOp {
                expression: Rc::new(ASTNode::UnaryOp {
                    expression: Rc::new(var("b")),
                    token: Token::Minus
                }),
                token: Token::Plus,
            }
        )
    );
}

#[test]
fn literals_of_every_kind_are_values() {
    assert_eq!(
        statement("a = <hi>"),
        assign("a", ASTNode::Value { value: Value::String("hi".to_string()) })
    );
    assert_eq!(statement("a = :)"), assign("a", ASTNode::Value { value: Value::Boolean(true) }));
    assert_eq!(statement("a = :("), assign("a", ASTNode::Value { value: Value::Boolean(false) }));
}

#[test]
fn an_integer_literal_keeps_its_32_bits() {
    assert_eq!(statement("a = 2147483647"), assign("a", num(2147483647)));
    assert_eq!(statement("a = 2147483648"), assign("a", num(-2147483648)));
    assert_eq!(statement("a = 4294967295"), assign("a", num(-1)));
}

#[test]
fn comparisons_follow_the_products() {
    let compare = |left: ASTNode, kind: CompareType, right: ASTNode| ASTNode::Compare {
        left: Rc::new(left),
        right: Rc::new(right),
        compare_type: kind,
    };
    assert_eq!(
        statement("a = b is 1"),
        assign("a", compare(var("b"), CompareType::Equals, num(1)))
    );
    assert_eq!(
        statement("a = b kleina 1"),
        assign("a", compare(var("b"), CompareType::Less, num(1)))
    );
    assert_eq!(
        statement("a = b krasser 1"),
        assign("a", compare(var("b"), CompareType::Greater, num(1)))
    );
    assert_eq!(
        statement("a = b * 2 kleina 3 is :)"),
        assign(
            "a",
            compare(
                compare(bin(var("b"), Token::Multiply, num(2)), CompareType::Less, num(3)),
                CompareType::Equals,
                ASTNode::Value { value: Value::Boolean(true) }
            )
        )
    );
    assert_eq!(
        statement("a = 1 + b kleina 2"),
        assign("a", bin(num(1), Token::Plus, compare(var("b"), CompareType::Less, num(2))))
    );
}

#[test]
fn calls_take_expressions_between_commas() {
    let call = |name: &str, parameters: Vec<ASTNode>| ASTNode::FunctionCall {
        function: Rc::new(var(name)),
        parameters,
    };
    assert_eq!(statement("f()"), call("f", vec![]));
    assert_eq!(statement("f(1)"), call("f", vec![num(1)]));
    assert_eq!(
        statement("f(1, a + 2, g(3))"),
        call("f", vec![num(1), bin(var("a"), Token::Plus, num(2)), call("g", vec![num(3)])])
    );
    assert_eq!(statement("a = f(1)"), assign("a", call("f", vec![num(1)])));
}

#[test]
fn an_assignment_in_words_is_an_assignment() {
    assert_eq!(statement("machma a uf 5"), assign("a", num(5)));
}

#[test]
fn a_conditional_has_a_condition_and_a_block() {
    assert_eq!(
        statement("wenn a is 1 avo b = 2 cado"),
        ASTNode::If {
            condition: Rc::new(ASTNode::Compare {
                left: Rc::new(var("a")),
                right: Rc::new(num(1)),
                compare_type: CompareType::Equals,
            }),
            execution: Rc::new(block(vec![assign("b", num(2))])),
        }
    );
}

#[test]
fn the_equality_keyword_opens_no_statement() {
    let (found, expected) = unexpected("hallo\nis :) avo\na = 1\ncado\nreicht dann auch mal");
    assert_eq!(found, Token::ReservedKeyword(Keyword::Equals));
    assert_eq!(expected, "ReservedKeyword(Farewell)");
    let (found, expected) = unexpected(&program("a = 1\nis a avo b = 2 cado"));
    assert_eq!(found, Token::ReservedKeyword(Keyword::Equals));
    assert_eq!(expected, "ReservedKeyword(Farewell)");
}

#[test]
fn a_loop_has_a_condition_and_a_block() {
    assert_eq!(
        statement("schleif a kleina 3 avo\na = a + 1\ncado"),
        ASTNode::Loop {
            condition: Rc::new(ASTNode::Compare {
                left: Rc::new(var("a")),
                right: Rc::new(num(3)),
                compare_type: CompareType::Less,
            }),
            execution: Rc::new(block(vec![assign("a", bin(var("a"), Token::Plus, num(1)))])),
        }
    );
}

#[test]
fn a_block_may_start_on_the_next_line() {
    assert_eq!(
        statement("wenn :)\navo a = 1 cado"),
        ASTNode::If {
            condition: Rc::new(ASTNode::Value { value: Value::Boolean(true) }),
            execution: Rc::new(block(vec![assign("a", num(1))])),
        }
    );
}

#[test]
fn a_declaration_has_a_name_parameters_and_a_block() {
    assert_eq!(
        statement("funny add(a, b) avo wirf a + b cado"),
        ASTNode::FunctionDeclaration {
            name: "add".to_string(),
            parameters: vec!["a".to_string(), "b".to_string()],
            execution_block: Rc::new(block(vec![ASTNode::Return {
                expression: Rc::new(bin(var("a"), Token::Plus, var("b")))
            }])),
        }
    );
    assert_eq!(
        statement("funny f() avo cado"),
        ASTNode::FunctionDeclaration {
            name: "f".to_string(),
            parameters: vec![],
            execution_block: Rc::new(block(vec![])),
        }
    );
}

#[test]
fn a_return_has_an_expression() {
    assert_eq!(statement("wirf 1"), ASTNode::Return { expression: Rc::new(num(1)) });
}

#[test]
fn empty_statements_are_dropped() {
    assert_eq!(statements("a = 1\n\n\nb = 2"), vec![assign("a", num(1)), assign("b", num(2))]);
    assert_eq!(statements("\na = 1"), vec![assign("a", num(1))]);
    assert_eq!(statements("\n\na = 1\n\n"), vec![assign("a", num(1))]);
    assert_eq!(statements(""), vec![]);
    assert_eq!(
        statement("wenn :) avo\n\ncado"),
        ASTNode::If {
            condition: Rc::new(ASTNode::Value { value: Value::Boolean(true) }),
            execution: Rc::new(block(vec![])),
        }
    );
}

#[test]
fn an_identifier_alone_is_an_empty_statement() {
    assert_eq!(statements("a\nb = 1"), vec![assign("b", num(1))]);
    assert_eq!(statements("a"), vec![]);
}

#[test]
fn a_program_needs_its_greeting() {
    let (found, expected) = unexpected("a = 1\nreicht dann auch mal");
    assert_eq!(found, Token::ID { string: "a".to_string() });
    assert_eq!(expected, "ReservedKeyword(Greeting)");
}

#[test]
fn a_program_needs_a_line_break_behind_the_greeting() {
    let (found, expected) = unexpected("hallo a = 1\nreicht dann auch mal");
    assert_eq!(found, Token::ID { string: "a".to_string() });
    assert_eq!(expected, "EndLine");
}

#[test]
fn a_program_needs_its_farewell() {
    let (found, expected) = unexpected("hallo\na = 1\n");
    assert_eq!(found, Token::EOF);
    assert_eq!(expected, "ReservedKeyword(Farewell)");
}

#[test]
fn nothing_may_follow_the_farewell() {
    let (found, expected) = unexpected("hallo\na = 1\nreicht dann auch mal x");
    assert_eq!(found, Token::ID { string: "x".to_string() });
    assert_eq!(expected, "EOF");
}

#[test]
fn a_block_needs_both_its_keywords() {
    let (found, expected) = unexpected(&program("wenn :) a = 1 cado"));
    assert_eq!(found, Token::ID { string: "a".to_string() });
    assert_eq!(expected, "ReservedKeyword(Avo)");
    let (found, expected) = unexpected(&program("wenn :) avo a = 1"));
    assert_eq!(found, Token::ReservedKeyword(Keyword::Farewell));
    assert_eq!(expected, "ReservedKeyword(Cado)");
}

#[test]
fn an_operand_has_to_be_there() {
    let (found, expected) = unexpected(&program("a = 1 +"));
    assert_eq!(found, Token::EndLine);
    assert_eq!(expected, "Variable");
}

#[test]
fn parentheses_have_to_be_closed() {
    let (found, expected) = unexpected(&program("a = (1 + 2"));
    assert_eq!(found, Token::EndLine);
    assert_eq!(expected, "ParentheseClose");
    let (found, expected) = unexpected(&program("f(1, 2"));
    assert_eq!(found, Token::EndLine);
    assert_eq!(expected, "ParentheseClose");
}

#[test]
fn a_declaration_needs_a_name() {
    let (found, expected) = unexpected(&program("funny (a) avo cado"));
    assert_eq!(found, Token::ParentheseOpen);
    assert_eq!(expected, "ID for FunctionName");
}

#[test]
fn an_assignment_in_words_needs_its_infix() {
    let (found, expected) = unexpected(&program("machma a 5"));
    assert_eq!(found, Token::Integer(5));
    assert_eq!(expected, "ReservedKeyword(AssignInfix)");
}

#[test]
fn an_error_of_the_tokenizer_ends_the_parse() {
    assert!(matches!(parse(&program("a = <never closed")), Err(LexerError::InvalidSyntax(_))));
    assert!(matches!(parse(&program("a = 99999999999")), Err(LexerError::InvalidSyntax(_))));
}

#[test]
fn a_first_token_that_fails_counts_as_the_end() {
    let (found, expected) = unexpected("<never closed");
    assert_eq!(found, Token::EOF);
    assert_eq!(expected, "ReservedKeyword(Greeting)");
}

#[test]
fn the_same_text_gives_the_same_tree() {
    let text = program("funny f(a, b) avo\nwenn a kleina b avo wirf a cado\nwirf b\ncado\nx = f(1, 2) * -3");
    let first = parse(&text).unwrap();
    let second = parse(&text).unwrap();
    assert_eq!(first, second);
    assert_eq!(first.duplicate(), first);
    assert_eq!(first.clone(), second);
}

#[test]
fn keywords_are_named_in_expectations() {
    let names = [
        (Keyword::Greeting, "ReservedKeyword(Greeting)"),
        (Keyword::Farewell, "ReservedKeyword(Farewell)"),
        (Keyword::Avo, "ReservedKeyword(Avo)"),
        (Keyword::Cado, "ReservedKeyword(Cado)"),
        (Keyword::AssignInfix, "ReservedKeyword(AssignInfix)"),
    ];
    for (keyword, name) in names {
        assert_eq!(dmm::parser::expected_text(&Token::ReservedKeyword(keyword)), name);
        assert_eq!(format!("{:?}", Token::ReservedKeyword(keyword)), name);
    }
    for token in [
        Token::Integer(6),
        Token::Integer(0),
        Token::Integer(4294967295),
        Token::Boolean(true),
        Token::Boolean(false),
        Token::ID { string: "abc".to_string() },
        Token::ID { string: String::new() },
        Token::String("two words".to_string()),
        Token::String("a \"quoted\" word\nand a \\ line".to_string()),
        Token::Comma,
        Token::Plus,
        Token::Minus,
        Token::Multiply,
        Token::Divide,
        Token::ParentheseOpen,
        Token::ParentheseClose,
        Token::EndLine,
        Token::Assign,
        Token::EOF,
    ] {
        assert_eq!(dmm::parser::expected_text(&token), format!("{:?}", token));
    }
}

#[test]
fn tokens_with_a_payload_are_named_with_it() {
    assert_eq!(dmm::parser::expected_text(&Token::Integer(6)), "Integer(6)");
    assert_eq!(dmm::parser::expected_text(&Token::Boolean(true)), "Boolean(true)");
    assert_eq!(
        dmm::parser::expected_text(&Token::ID { string: "a".to_string() }),
        "ID { string: \"a\" }"
    );
    assert_eq!(
        dmm::parser::expected_text(&Token::String("x\ty".to_string())),
        "String(\"x\\ty\")"
    );
}

#[test]
fn parameters_stand_between_commas() {
    let declared = |text: &str| match statement(text) {
        ASTNode::FunctionDeclaration { name, parameters, .. } => (name, parameters),
        other => panic!("{:?}", other),
    };
    assert_eq!(
        declared("funny f(a, b) avo\ncado"),
        ("f".to_string(), vec!["a".to_string(), "b".to_string()])
    );
    assert_eq!(declared("funny f(a) avo cado"), ("f".to_string(), vec!["a".to_string()]));
    assert_eq!(declared("funny f() avo cado"), ("f".to_string(), vec![]));
    assert_eq!(
        declared("funny f(a,b ,c , a) avo cado").1,
        vec!["a".to_string(), "b".to_string(), "c".to_string(), "a".to_string()]
    );
}

#[test]
fn parameters_need_their_commas_and_names() {
    let (found, expected) = unexpected(&program("funny f(a b) avo cado"));
    assert_eq!(found, Token::ID { string: "b".to_string() });
    assert_eq!(expected, "ParentheseClose");
    let (found, expected) = unexpected(&program("funny f(a, ) avo cado"));
    assert_eq!(found, Token::ParentheseClose);
    assert_eq!(expected, "ID for ParameterName");
    let (found, expected) = unexpected(&program("funny f(, a) avo cado"));
    assert_eq!(found, Token::Comma);
    assert_eq!(expected, "ID for ParameterName");
    let (found, expected) = unexpected(&program("funny f(1) avo cado"));
    assert_eq!(found, Token::Integer(1));
    assert_eq!(expected, "ID for ParameterName");
}
