use dmm::ast::{ASTNode, Value};
use dmm::lexer::{Keyword, Lexer, Token};
use dmm::parser::Parser;
use dmm::printer::{
    program_tokens_of, render, spelling, spells_tokens, to_source, to_source_checked,
};
use std::rc::Rc;

fn parse(text: &str) -> ASTNode {
    Parser::new(Lexer::new(text)).parse().expect("a program")
}

fn tokens(text: &str) -> Vec<Token> {
    let mut lexer = Lexer::new(text);
    let mut out = Vec::new();
    loop {
        let token = lexer.get_next_token().expect("a token");
        let end = token == Token::EOF;
        out.push(token);
        if end {
            return out;
        }
    }
}

/// The tree of a text, written down and read again, is the same tree, and
/// the text that was written spells the tokens of the tree.
fn goes_round(text: &str) -> String {
    let tree = parse(text);
    let written = to_source(&tree);
    assert_eq!(to_source_checked(&tree), Some(written.clone()));
    assert!(spells_tokens(&written, &program_tokens_of(&tree)));
    assert_eq!(tokens(&written), program_tokens_of(&tree), "{:?}", written);
    assert_eq!(parse(&written), tree, "{:?}", written);
    assert_eq!(to_source(&parse(&written)), written);
    written
}

#[test]
fn every_token_is_spelled_as_it_is_read() {
    assert_eq!(spelling(&Token::ReservedKeyword(Keyword::Greeting)), "hallo");
    assert_eq!(spelling(&Token::ReservedKeyword(Keyword::Farewell)), "reicht dann auch mal");
    assert_eq!(spelling(&Token::ID { string: "abc".to_string() }), "abc");
    assert_eq!(spelling(&Token::Integer(0)), "0");
    assert_eq!(spelling(&Token::Integer(4294967295)), "4294967295");
    assert_eq!(spelling(&Token::String("a b".to_string())), "<a b>");
    assert_eq!(spelling(&Token::Boolean(true)), ":)");
    assert_eq!(spelling(&Token::Boolean(false)), ":(");
    assert_eq!(spelling(&Token::EndLine), "\n");
    assert_eq!(spelling(&Token::EOF), "");
    for keyword in [
        Keyword::Greeting,
        Keyword::Farewell,
        Keyword::Avo,
        Keyword::Cado,
        Keyword::Function,
        Keyword::Return,
        Keyword::Loop,
        Keyword::Equals,
        Keyword::Less,
        Keyword::Greater,
        Keyword::AssignPrefix,
        Keyword::AssignInfix,
        Keyword::If,
    ] {
        let token = Token::ReservedKeyword(keyword);
        assert_eq!(tokens(&spelling(&token)), vec![token, Token::EOF]);
    }
    for token in [
        Token::Comma,
        Token::Plus,
        Token::Minus,
        Token::Multiply,
        Token::Divide,
        Token::ParentheseOpen,
        Token::ParentheseClose,
        Token::EndLine,
        Token::Assign,
        Token::Integer(12),
        Token::String("x".to_string()),
        Token::Boolean(true),
        Token::Boolean(false),
        Token::ID { string: "x_1".to_string() },
    ] {
        assert_eq!(tokens(&spelling(&token)), vec![token.duplicate(), Token::EOF]);
    }
}

#[test]
fn tokens_are_written_with_spaces_between_them() {
    let list = vec![
        Token::ReservedKeyword(Keyword::Greeting),
        Token::EndLine,
        Token::ID { string: "a".to_string() },
        Token::Assign,
        Token::Integer(1),
        Token::EndLine,
        Token::ReservedKeyword(Keyword::Farewell),
        Token::EOF,
    ];
    assert_eq!(render(&list), "hallo\na = 1\nreicht dann auch mal");
    assert_eq!(render(&vec![]), "");
    assert_eq!(
        render(&vec![
            Token::ID { string: "a".to_string() },
            Token::ID { string: "b".to_string() },
            Token::Plus
        ]),
        "a  b +"
    );
}

#[test]
fn a_small_program_is_written_as_it_was() {
    let text = "hallo\na = 1 + 2\nreicht dann auch mal";
    assert_eq!(to_source(&parse(text)), text);
    assert_eq!(goes_round(text), text);
}

#[test]
fn a_program_without_statements_goes_round() {
    assert_eq!(goes_round("hallo\nreicht dann auch mal"), "hallo\n\nreicht dann auch mal");
    assert_eq!(goes_round("hallo\n\n\nreicht dann auch mal"), "hallo\n\nreicht dann auch mal");
}

#[test]
fn expressions_keep_their_shape() {
    for body in [
        "a = 1 + 2 * 3",
        "a = (1 + 2) * 3",
        "a = 1 - (2 - 3)",
        "a = 1 - 2 - 3",
        "a = 8 / (4 / 2)",
        "a = -(1 + 2)",
        "a = --1",
        "a = +-+b",
        "a = b is 1",
        "a = (b is 1) * 2",
        "a = b * 2 kleina 3 krasser 4",
        "a = 1 + b kleina 2 + 3",
        "a = (1 + b) kleina (2 + 3)",
        "a = (a kleina b) is (c krasser d)",
        "a = b is (c is d)",
        "a = ((((1))))",
        "a = f(1, (2 + 3) * 4, g(h(), -x))",
        "a = <text with spaces> ",
        "a = <>",
        "a = :) is :(",
        "a = 4294967295 + 2147483648",
    ] {
        goes_round(&format!("hallo\n{}\nreicht dann auch mal", body));
    }
}

#[test]
fn statements_keep_their_shape() {
    for body in [
        "f()",
        ":O____(<a>, b, 1 + 2)",
        "machma a uf 5",
        "wirf 1 + 2",
        "wenn a is 1 avo b = 2 cado",
        "wenn a avo\n\ncado",
        "wenn a\navo\nb = 2\nc = 3\n\ncado",
        "schleif i kleina 10 avo i = i + 1 cado",
        "funny f() avo cado",
        "funny add(a, b) avo wirf a + b cado",
        "funny f(a) avo\nwenn a avo\nwenn :) avo wirf 1 cado\ncado\nwirf 2\ncado\nx = f(:()",
        "a\nb = 1",
        "funny outer() avo\nfunny inner(x) avo wirf x cado\nwirf inner(1)\ncado",
    ] {
        goes_round(&format!("hallo\n{}\nreicht dann auch mal", body));
    }
}

#[test]
fn names_that_spell_a_keyword_together_stay_names() {
    let text = "hallo\nfunny f(reicht, dann, auch, mal) avo wirf reicht cado\nreicht dann auch mal";
    let tree = parse(text);
    match &tree {
        ASTNode::Block { children } => match &children[0] {
            ASTNode::FunctionDeclaration { parameters, .. } => {
                assert_eq!(parameters, &vec!["reicht", "dann", "auch", "mal"]);
            }
            other => panic!("{:?}", other),
        },
        other => panic!("{:?}", other),
    }
    let written = goes_round(text);
    assert_eq!(
        written,
        "hallo\nfunny f ( reicht , dann , auch , mal ) avo wirf reicht cado\nreicht dann auch mal"
    );
}

#[test]
fn a_text_with_odd_spacing_is_written_in_one_way() {
    let plain = goes_round("hallo\nx = f(1,2)\nwenn x avo y = x cado\nreicht dann auch mal");
    let odd = goes_round("hallo\nx=f( 1 ,2 )\n\nwenn x\navo y=x\n\ncado\n\nreicht dann auch mal");
    assert_eq!(plain, odd);
    assert_eq!(plain, "hallo\nx = f ( 1 , 2 )\nwenn x avo y = x cado\nreicht dann auch mal");
    assert_eq!(odd, "hallo\nx = f ( 1 , 2 )\nwenn x avo y = x cado\nreicht dann auch mal");
}

#[test]
fn trees_that_no_parser_builds_are_written_too() {
    let tree = ASTNode::Block {
        children: vec![ASTNode::Assign {
            left: Rc::new(ASTNode::Variable { name: "a".to_string() }),
            right: Rc::new(ASTNode::Value { value: Value::Integer(-1) }),
        }],
    };
    assert_eq!(to_source(&tree), "hallo\na = 4294967295\nreicht dann auch mal");
    assert_eq!(parse(&to_source(&tree)), tree);
    assert_eq!(to_source(&ASTNode::NoOp), "");
    assert!(program_tokens_of(&ASTNode::NoOp).is_empty());
}

fn assign(name: &str, value: Value) -> ASTNode {
    ASTNode::Block {
        children: vec![ASTNode::Assign {
            left: Rc::new(ASTNode::Variable { name: name.to_string() }),
            right: Rc::new(ASTNode::Value { value }),
        }],
    }
}

#[test]
fn a_tree_whose_text_reads_otherwise_is_not_written_checked() {
    for name in ["a b", "hallo", "wenn", "1a", "a+b", "", "reicht dann auch mal", "<a>", ":)"] {
        let tree = assign(name, Value::Integer(1));
        assert_eq!(to_source_checked(&tree), None, "{:?}", name);
    }
    assert_eq!(to_source_checked(&assign("a", Value::String("x>y".to_string()))), None);
    assert_eq!(to_source_checked(&assign("a", Value::Nothing)), None);
    assert_eq!(to_source_checked(&ASTNode::NoOp), Some(String::new()));
}

#[test]
fn a_tree_whose_text_reads_the_same_is_written_checked() {
    for name in ["a", "a_b", "x1", "größe", "_", ":O__", "halo", "we"] {
        let tree = assign(name, Value::Integer(-7));
        let text = to_source_checked(&tree).expect(name);
        assert_eq!(parse(&text), tree);
    }
    let tree = assign("a", Value::String("two  spaces < and more".to_string()));
    assert_eq!(parse(&to_source_checked(&tree).unwrap()), tree);
}

#[test]
fn a_text_spells_its_own_tokens_and_no_others() {
    let text = "hallo\na = 1\nreicht dann auch mal";
    let own = tokens(text);
    assert!(spells_tokens(text, &own));
    assert!(spells_tokens(text, &own[..3].to_vec()));
    assert!(spells_tokens(text, &vec![]));
    let mut other = own.clone();
    other[4] = Token::Integer(2);
    assert!(!spells_tokens(text, &other));
    let mut longer = own.clone();
    longer.push(Token::Plus);
    assert!(!spells_tokens(text, &longer));
    assert!(!spells_tokens("<open", &vec![Token::String("open".to_string())]));
    assert!(spells_tokens("<open", &vec![Token::EOF]));
    assert!(!spells_tokens("a <open", &vec![Token::ID { string: "a".to_string() }, Token::EOF]));
}
