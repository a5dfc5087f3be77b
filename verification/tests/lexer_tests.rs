use dmm::lexer::{Keyword, Lexer, LexerError, Token};

fn tokens(text: &str) -> Vec<Token> {
    let mut lexer = Lexer::new(text);
    let mut out = Vec::new();
    loop {
        let token = lexer.get_next_token().expect("a token");
        let end = token == Token::EOF;
        out.push(token);
        if end {
            return out;
        }
    }
}

fn id(name: &str) -> Token {
    Token::ID { string: name.to_string() }
}

#[test]
fn empty_text_is_the_end() {
    let mut lexer = Lexer::new("");
    assert_eq!(lexer.get_next_token().unwrap(), Token::EOF);
    assert_eq!(lexer.get_next_token().unwrap(), Token::EOF);
}

#[test]
fn the_end_comes_again_and_again() {
    let mut lexer = Lexer::new("+");
    assert_eq!(lexer.get_next_token().unwrap(), Token::Plus);
    for _ in 0..5 {
        assert_eq!(lexer.get_next_token().unwrap(), Token::EOF);
    }
}

#[test]
fn punctuation_is_read_character_by_character() {
    assert_eq!(
        tokens("+-*/()=,\n"),
        vec![
            Token::Plus,
            Token::Minus,
            Token::Multiply,
            Token::Divide,
            Token::ParentheseOpen,
            Token::ParentheseClose,
            Token::Assign,
            Token::Comma,
            Token::EndLine,
            Token::EOF,
        ]
    );
}

#[test]
fn every_keyword_is_known() {
    let table = [
        ("hallo", Keyword::Greeting),
        ("reicht dann auch mal", Keyword::Farewell),
        ("avo", Keyword::Avo),
        ("cado", Keyword::Cado),
        ("funny", Keyword::Function),
        ("wenn", Keyword::If),
        ("wirf", Keyword::Return),
        ("schleif", Keyword::Loop),
        ("is", Keyword::Equals),
        ("kleina", Keyword::Less),
        ("krasser", Keyword::Greater),
        ("machma", Keyword::AssignPrefix),
        ("uf", Keyword::AssignInfix),
    ];
    for (word, keyword) in table {
        assert_eq!(tokens(word), vec![Token::ReservedKeyword(keyword), Token::EOF], "{}", word);
    }
}

#[test]
fn a_keyword_ends_the_moment_it_is_spelled() {
    assert_eq!(
        tokens("hallox"),
        vec![Token::ReservedKeyword(Keyword::Greeting), id("x"), Token::EOF]
    );
    assert_eq!(
        tokens("island"),
        vec![Token::ReservedKeyword(Keyword::Equals), id("land"), Token::EOF]
    );
}

#[test]
fn the_farewell_keeps_its_spaces() {
    assert_eq!(
        tokens("reicht dann auch mal"),
        vec![Token::ReservedKeyword(Keyword::Farewell), Token::EOF]
    );
    assert_eq!(
        tokens("reicht dann auch"),
        vec![id("reicht"), id("dann"), id("auch"), Token::EOF]
    );
}

#[test]
fn a_keyword_is_found_behind_words_and_spaces() {
    assert_eq!(
        tokens("a is b"),
        vec![id("a"), Token::ReservedKeyword(Keyword::Equals), id("b"), Token::EOF]
    );
}

#[test]
fn identifiers_take_letters_digits_and_underscores() {
    assert_eq!(tokens("abc_1 x9"), vec![id("abc_1"), id("x9"), Token::EOF]);
    assert_eq!(tokens("größe"), vec![id("größe"), Token::EOF]);
}

#[test]
fn the_output_name_is_one_identifier() {
    assert_eq!(
        tokens(":O__(a)"),
        vec![
            id(":O__"),
            Token::ParentheseOpen,
            id("a"),
            Token::ParentheseClose,
            Token::EOF
        ]
    );
    assert_eq!(tokens(":O_____"), vec![id(":O_____"), Token::EOF]);
}

#[test]
fn a_space_at_the_start_belongs_to_the_identifier() {
    assert_eq!(tokens(" ab"), vec![id(" ab"), Token::EOF]);
}

#[test]
fn integers_are_maximal_runs_of_digits() {
    assert_eq!(tokens("0"), vec![Token::Integer(0), Token::EOF]);
    assert_eq!(tokens("007"), vec![Token::Integer(7), Token::EOF]);
    assert_eq!(tokens("12 34"), vec![Token::Integer(12), Token::Integer(34), Token::EOF]);
    assert_eq!(tokens("12ab"), vec![Token::Integer(12), id("ab"), Token::EOF]);
    assert_eq!(tokens("4294967295"), vec![Token::Integer(4294967295), Token::EOF]);
}

#[test]
fn an_integer_beyond_32_bits_is_an_error() {
    let mut lexer = Lexer::new("4294967296 +");
    match lexer.get_next_token() {
        Err(LexerError::InvalidSyntax(message)) => {
            assert_eq!(message, "Integer literal too large.")
        }
        other => panic!("{:?}", other),
    }
    let mut long = Lexer::new("99999999999999999999999999999999999999");
    assert!(matches!(long.get_next_token(), Err(LexerError::InvalidSyntax(_))));
}

#[test]
fn text_literals_stand_between_angle_brackets() {
    assert_eq!(tokens("<hi there>"), vec![Token::String("hi there".to_string()), Token::EOF]);
    assert_eq!(tokens("<>"), vec![Token::String(String::new()), Token::EOF]);
    assert_eq!(
        tokens("<a> <b>"),
        vec![Token::String("a".to_string()), Token::String("b".to_string()), Token::EOF]
    );
    assert_eq!(tokens("<1+2\n>"), vec![Token::String("1+2\n".to_string()), Token::EOF]);
}

#[test]
fn a_text_literal_that_is_never_closed_is_an_error() {
    let mut lexer = Lexer::new("<abc");
    match lexer.get_next_token() {
        Err(LexerError::InvalidSyntax(message)) => {
            assert_eq!(message, "Missing string closure: >")
        }
        other => panic!("{:?}", other),
    }
    assert_eq!(lexer.get_next_token().unwrap(), Token::EOF);
    let mut bare = Lexer::new("<");
    assert!(matches!(bare.get_next_token(), Err(LexerError::InvalidSyntax(_))));
}

#[test]
fn smileys_are_booleans() {
    assert_eq!(tokens(":)"), vec![Token::Boolean(true), Token::EOF]);
    assert_eq!(tokens(":("), vec![Token::Boolean(false), Token::EOF]);
    assert_eq!(tokens(":) :("), vec![Token::Boolean(true), Token::Boolean(false), Token::EOF]);
}

#[test]
fn a_colon_alone_starts_an_identifier() {
    assert_eq!(tokens(":"), vec![id(":"), Token::EOF]);
    assert_eq!(tokens(":x"), vec![id(":x"), Token::EOF]);
}

#[test]
fn only_spaces_are_skipped() {
    assert_eq!(tokens("a   b"), vec![id("a"), id("b"), Token::EOF]);
    assert_eq!(tokens("a\tb"), vec![id("a"), id("\tb"), Token::EOF]);
}

#[test]
fn a_small_program_is_tokenized() {
    assert_eq!(
        tokens("hallo\na = 1 + 2\nreicht dann auch mal"),
        vec![
            Token::ReservedKeyword(Keyword::Greeting),
            Token::EndLine,
            id("a"),
            Token::Assign,
            Token::Integer(1),
            Token::Plus,
            Token::Integer(2),
            Token::EndLine,
            Token::ReservedKeyword(Keyword::Farewell),
            Token::EOF,
        ]
    );
}

#[test]
fn a_line_is_framed_by_greeting_and_farewell() {
    let mut lexer = Lexer::new_fill_greeting_farewell("x = 3\n");
    let mut out = Vec::new();
    loop {
        let token = lexer.get_next_token().unwrap();
        let end = token == Token::EOF;
        out.push(token);
        if end {
            break;
        }
    }
    assert_eq!(
        out,
        vec![
            Token::ReservedKeyword(Keyword::Greeting),
            Token::EndLine,
            id("x"),
            Token::Assign,
            Token::Integer(3),
            Token::EndLine,
            Token::ReservedKeyword(Keyword::Farewell),
            Token::EOF,
        ]
    );
}

#[test]
fn tokens_compare_by_kind_and_payload() {
    assert!(Token::Integer(3).same(&Token::Integer(3)));
    assert!(!Token::Integer(3).same(&Token::Integer(4)));
    assert!(!Token::Plus.same(&Token::Minus));
    assert!(id("a").same(&id("a")));
    assert!(!id("a").same(&Token::String("a".to_string())));
    assert_eq!(id("a").duplicate(), id("a"));
}
