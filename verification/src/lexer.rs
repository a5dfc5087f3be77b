//! The tokenizer: from program text to keywords, identifiers, literals and
//! punctuation.

use vstd::prelude::*;
use vstd::string::StringExecFns;
use crate::text::{CharClass, chars_of, collect, decimal_value, in_class, is_digit, run_end, scan_run, spells};

verus! {

/// The keywords of the language.
#[derive(Clone, Copy, Debug, PartialEq, Eq, Structural)]
pub enum Keyword {
    Greeting,
    Farewell,
    Avo,
    Cado,
    Function,
    Return,
    Loop,
    Equals,
    Less,
    Greater,
    AssignPrefix,
    AssignInfix,
    If,
}

/// What the tokenizer reads: keywords, identifiers, literals, punctuation
/// and the end of the text.
#[derive(Clone, Debug, PartialEq)]
pub enum Token {
    ReservedKeyword(Keyword),
    ID { string: String },
    Integer(u32),
    String(String),
    Boolean(bool),
    Comma,
    Plus,
    Minus,
    Multiply,
    Divide,
    ParentheseOpen,
    ParentheseClose,
    EndLine,
    Assign,
    EOF,
}

/// A token as a mathematical value: its texts are sequences of characters.
pub enum TokenView {
    ReservedKeyword(Keyword),
    ID { string: Seq<char> },
    Integer(u32),
    String(Seq<char>),
    Boolean(bool),
    Comma,
    Plus,
    Minus,
    Multiply,
    Divide,
    ParentheseOpen,
    ParentheseClose,
    EndLine,
    Assign,
    EOF,
}

impl View for Token {
    type V = TokenView;

    open spec fn view(&self) -> TokenView {
        match self {
            Token::ReservedKeyword(k) => TokenView::ReservedKeyword(*k),
            Token::ID { string } => TokenView::ID { string: string@ },
            Token::Integer(n) => TokenView::Integer(*n),
            Token::String(s) => TokenView::String(s@),
            Token::Boolean(b) => TokenView::Boolean(*b),
            Token::Comma => TokenView::Comma,
            Token::Plus => TokenView::Plus,
            Token::Minus => TokenView::Minus,
            Token::Multiply => TokenView::Multiply,
            Token::Divide => TokenView::Divide,
            Token::ParentheseOpen => TokenView::ParentheseOpen,
            Token::ParentheseClose => TokenView::ParentheseClose,
            Token::EndLine => TokenView::EndLine,
            Token::Assign => TokenView::Assign,
            Token::EOF => TokenView::EOF,
        }
    }
}

impl Token {
    /// Whether two tokens are of the same variant and carry the same payload.
    pub fn same(&self, other: &Token) -> (r: bool)
        ensures
            r == (self@ == other@),
    {
        match (self, other) {
            (Token::ReservedKeyword(x), Token::ReservedKeyword(y)) => *x == *y,
            (Token::ID { string: x }, Token::ID { string: y }) => *x == *y,
            (Token::Integer(x), Token::Integer(y)) => *x == *y,
            (Token::String(x), Token::String(y)) => *x == *y,
            (Token::Boolean(x), Token::Boolean(y)) => *x == *y,
            (Token::Comma, Token::Comma) => true,
            (Token::Plus, Token::Plus) => true,
            (Token::Minus, Token::Minus) => true,
            (Token::Multiply, Token::Multiply) => true,
            (Token::Divide, Token::Divide) => true,
            (Token::ParentheseOpen, Token::ParentheseOpen) => true,
            (Token::ParentheseClose, Token::ParentheseClose) => true,
            (Token::EndLine, Token::EndLine) => true,
            (Token::Assign, Token::Assign) => true,
            (Token::EOF, Token::EOF) => true,
            _ => false,
        }
    }

    /// A copy of the token.
    pub fn duplicate(&self) -> (r: Token)
        ensures
            r@ == self@,
    {
        match self {
            Token::ReservedKeyword(k) => Token::ReservedKeyword(*k),
            Token::ID { string } => Token::ID { string: string.clone() },
            Token::Integer(n) => Token::Integer(*n),
            Token::String(s) => Token::String(s.clone()),
            Token::Boolean(b) => Token::Boolean(*b),
            Token::Comma => Token::Comma,
            Token::Plus => Token::Plus,
            Token::Minus => Token::Minus,
            Token::Multiply => Token::Multiply,
            Token::Divide => Token::Divide,
            Token::ParentheseOpen => Token::ParentheseOpen,
            Token::ParentheseClose => Token::ParentheseClose,
            Token::EndLine => Token::EndLine,
            Token::Assign => Token::Assign,
            Token::EOF => Token::EOF,
        }
    }
}

/// Why a text could not be read: the tokenizer found no token, or the
/// parser found another token than it wanted.
#[derive(Debug)]
pub enum LexerError {
    InvalidSyntax(String),
    UnexpectedToken { found: Token, expected: String },
}

/// An error as a mathematical value.
pub enum LexerErrorView {
    InvalidSyntax(Seq<char>),
    UnexpectedToken { found: TokenView, expected: Seq<char> },
}

impl View for LexerError {
    type V = LexerErrorView;

    open spec fn view(&self) -> LexerErrorView {
        match self {
            LexerError::InvalidSyntax(message) => LexerErrorView::InvalidSyntax(message@),
            LexerError::UnexpectedToken { found, expected } => LexerErrorView::UnexpectedToken {
                found: found@,
                expected: expected@,
            },
        }
    }
}

/// The keyword that `word` spells, if any.
pub open spec fn keyword_of(word: Seq<char>) -> Option<Keyword> {
    if word == "hallo"@ {
        Some(Keyword::Greeting)
    } else if word == "reicht dann auch mal"@ {
        Some(Keyword::Farewell)
    } else if word == "avo"@ {
        Some(Keyword::Avo)
    } else if word == "cado"@ {
        Some(Keyword::Cado)
    } else if word == "funny"@ {
        Some(Keyword::Function)
    } else if word == "wenn"@ {
        Some(Keyword::If)
    } else if word == "wirf"@ {
        Some(Keyword::Return)
    } else if word == "schleif"@ {
        Some(Keyword::Loop)
    } else if word == "is"@ {
        Some(Keyword::Equals)
    } else if word == "kleina"@ {
        Some(Keyword::Less)
    } else if word == "krasser"@ {
        Some(Keyword::Greater)
    } else if word == "machma"@ {
        Some(Keyword::AssignPrefix)
    } else if word == "uf"@ {
        Some(Keyword::AssignInfix)
    } else {
        None
    }
}

/// Reads a word that began at `start` and so far ends at `last`: the word
/// grows by one keyword character at a time and is a keyword the moment it
/// spells one. The result is the keyword and the index of its last character.
pub open spec fn keyword_scan(text: Seq<char>, start: int, last: int) -> Option<(Keyword, int)>
    decreases text.len() - last,
{
    if 0 <= start <= last && last + 1 < text.len() && in_class(text[last + 1], CharClass::Keyword) {
        match keyword_of(text.subrange(start, last + 2)) {
            Some(keyword) => Some((keyword, last + 1)),
            None => keyword_scan(text, start, last + 1),
        }
    } else {
        None
    }
}

/// What one scan yields: the token or the error, and where the cursor rests.
/// After a token that is its last character; after an error it is the place
/// where the tokenizer stopped.
pub struct Scanned {
    pub outcome: Result<TokenView, LexerErrorView>,
    pub rest: int,
}

/// The error for a text literal that is never closed.
pub open spec fn missing_closure() -> LexerErrorView {
    LexerErrorView::InvalidSyntax("Missing string closure: >"@)
}

/// The error for an integer that does not fit into 32 bits.
pub open spec fn integer_too_large() -> LexerErrorView {
    LexerErrorView::InvalidSyntax("Integer literal too large."@)
}

/// A run of digits that starts at `at`.
pub open spec fn scan_integer(text: Seq<char>, at: int) -> Scanned {
    let end = run_end(text, at + 1, CharClass::Digit);
    let value = decimal_value(text.subrange(at, end));
    Scanned {
        outcome: if value <= u32::MAX {
            Ok(TokenView::Integer(value as u32))
        } else {
            Err(integer_too_large())
        },
        rest: end - 1,
    }
}

/// A colon and what follows it: `:)` is true and `:(` is false.
pub open spec fn scan_smiley(text: Seq<char>, at: int) -> Option<Scanned> {
    if at + 1 < text.len() && text[at + 1] == ')' {
        Some(Scanned { outcome: Ok(TokenView::Boolean(true)), rest: at + 1 })
    } else if at + 1 < text.len() && text[at + 1] == '(' {
        Some(Scanned { outcome: Ok(TokenView::Boolean(false)), rest: at + 1 })
    } else {
        None
    }
}

/// A text literal between `<` and `>`, a keyword, or else an identifier.
pub open spec fn scan_word(text: Seq<char>, at: int) -> Scanned {
    if text[at] == '<' {
        let end = run_end(text, at + 1, CharClass::TextBody);
        if end < text.len() {
            Scanned { outcome: Ok(TokenView::String(text.subrange(at + 1, end))), rest: end }
        } else {
            Scanned { outcome: Err(missing_closure()), rest: text.len() as int }
        }
    } else {
        match keyword_scan(text, at, at) {
            Some((keyword, last)) => Scanned {
                outcome: Ok(TokenView::ReservedKeyword(keyword)),
                rest: last,
            },
            None => {
                let end = run_end(text, at + 1, CharClass::Identifier);
                Scanned { outcome: Ok(TokenView::ID { string: text.subrange(at, end) }), rest: end - 1 }
            },
        }
    }
}

/// The punctuation token that a single character is, if it is one.
pub open spec fn punctuation(c: char) -> Option<TokenView> {
    if c == '+' {
        Some(TokenView::Plus)
    } else if c == '-' {
        Some(TokenView::Minus)
    } else if c == '*' {
        Some(TokenView::Multiply)
    } else if c == '/' {
        Some(TokenView::Divide)
    } else if c == '(' {
        Some(TokenView::ParentheseOpen)
    } else if c == ')' {
        Some(TokenView::ParentheseClose)
    } else if c == '=' {
        Some(TokenView::Assign)
    } else if c == '\n' {
        Some(TokenView::EndLine)
    } else if c == ',' {
        Some(TokenView::Comma)
    } else {
        None
    }
}

/// The token that starts at `at`, an index into `text`.
pub open spec fn scan(text: Seq<char>, at: int) -> Scanned {
    let c = text[at];
    if is_digit(c) {
        scan_integer(text, at)
    } else if punctuation(c) is Some {
        Scanned { outcome: Ok(punctuation(c)->0), rest: at }
    } else if c == ':' && scan_smiley(text, at) is Some {
        scan_smiley(text, at)->0
    } else {
        scan_word(text, at)
    }
}

/// What the tokenizer yields at a position, and its position afterwards.
pub struct Lexed {
    pub outcome: Result<TokenView, LexerErrorView>,
    pub position: nat,
}

/// The tokenizer as a function of the text and the position in it. At the
/// end of the text it yields `EOF` and stays. Elsewhere it scans one token
/// and steps over it and the spaces that follow it.
#[verifier::opaque]
pub open spec fn lex(text: Seq<char>, position: nat) -> Lexed {
    if position >= text.len() {
        Lexed { outcome: Ok(TokenView::EOF), position }
    } else {
        let scanned = scan(text, position as int);
        match scanned.outcome {
            Ok(_) => Lexed {
                outcome: scanned.outcome,
                position: run_end(text, scanned.rest + 1, CharClass::Space) as nat,
            },
            Err(_) => Lexed { outcome: scanned.outcome, position: scanned.rest as nat },
        }
    }
}

/// The view of what `get_next_token` returns.
pub open spec fn outcome_view(result: Result<Token, LexerError>) -> Result<
    TokenView,
    LexerErrorView,
> {
    match result {
        Ok(token) => Ok(token@),
        Err(error) => Err(error@),
    }
}

/// The keyword that `word` spells, if any.
pub fn keyword_lookup(word: &Vec<char>) -> (keyword: Option<Keyword>)
    ensures
        keyword == keyword_of(word@),
{
    if spells(word, "hallo") {
        Some(Keyword::Greeting)
    } else if spells(word, "reicht dann auch mal") {
        Some(Keyword::Farewell)
    } else if spells(word, "avo") {
        Some(Keyword::Avo)
    } else if spells(word, "cado") {
        Some(Keyword::Cado)
    } else if spells(word, "funny") {
        Some(Keyword::Function)
    } else if spells(word, "wenn") {
        Some(Keyword::If)
    } else if spells(word, "wirf") {
        Some(Keyword::Return)
    } else if spells(word, "schleif") {
        Some(Keyword::Loop)
    } else if spells(word, "is") {
        Some(Keyword::Equals)
    } else if spells(word, "kleina") {
        Some(Keyword::Less)
    } else if spells(word, "krasser") {
        Some(Keyword::Greater)
    } else if spells(word, "machma") {
        Some(Keyword::AssignPrefix)
    } else if spells(word, "uf") {
        Some(Keyword::AssignInfix)
    } else {
        None
    }
}

/// The program that a line is read as where it stands for a whole one: the
/// line between the greeting with its line break and the farewell.
pub open spec fn framed(line: Seq<char>) -> Seq<char> {
    "hallo\n"@ + line + "reicht dann auch mal"@
}

/// The state of a tokenizer: the text and the index of the character that
/// it reads next.
pub struct LexerView {
    pub text: Seq<char>,
    pub position: nat,
}

/// The tokenizer: a text and a cursor in it.
pub struct Lexer {
    text: Vec<char>,
    position: usize,
}

impl View for Lexer {
    type V = LexerView;

    closed spec fn view(&self) -> LexerView {
        LexerView { text: self.text@, position: self.position as nat }
    }
}

impl Lexer {
    #[verifier::type_invariant]
    spec fn within_text(self) -> bool {
        self.position <= self.text@.len() <= usize::MAX
    }

    /// A tokenizer at the start of `text`.
    pub fn new(text: &str) -> (lexer: Lexer)
        ensures
            lexer@ == (LexerView { text: text@, position: 0 }),
    {
        let text: Vec<char> = chars_of(text);
        let _length: usize = text.len();
        Lexer { text, position: 0 }
    }

    /// A tokenizer on `text` between the greeting and the farewell.
    pub fn new_fill_greeting_farewell(text: &str) -> (lexer: Lexer)
        ensures
            lexer@ == (LexerView { text: framed(text@), position: 0 }),
    {
        let mut program: String = String::from_str("hallo\n");
        program.append(text);
        program.append("reicht dann auch mal");
        Lexer::new(program.as_str())
    }

    fn current_char(&self) -> (c: Option<char>)
        ensures
            c == if self.position < self.text@.len() {
                Some(self.text@[self.position as int])
            } else {
                None
            },
    {
        if self.position < self.text.len() {
            Some(self.text[self.position])
        } else {
            None
        }
    }

    fn peek(&self) -> (c: Option<char>)
        ensures
            c == if self.position + 1 < self.text@.len() {
                Some(self.text@[self.position + 1])
            } else {
                None
            },
    {
        proof {
            use_type_invariant(self);
        }
        if self.position < self.text.len() && self.position + 1 < self.text.len() {
            Some(self.text[self.position + 1])
        } else {
            None
        }
    }

    fn goto_next_position(&mut self)
        requires
            old(self).position < old(self).text@.len(),
        ensures
            final(self).text == old(self).text,
            final(self).position == old(self).position + 1,
    {
        proof {
            use_type_invariant(&*self);
        }
        self.position = self.position + 1;
    }

    fn skip_whitespace(&mut self)
        ensures
            final(self).text == old(self).text,
            final(self).position == run_end(
                old(self).text@,
                old(self).position as int,
                CharClass::Space,
            ),
    {
        proof {
            use_type_invariant(&*self);
        }
        self.position = scan_run(&self.text, self.position, CharClass::Space);
    }

    fn integer(&mut self) -> (result: Result<u32, LexerError>)
        requires
            old(self).position < old(self).text@.len(),
            is_digit(old(self).text@[old(self).position as int]),
        ensures
            final(self).text == old(self).text,
            final(self).position == scan_integer(old(self).text@, old(self).position as int).rest,
            match result {
                Ok(value) => scan_integer(old(self).text@, old(self).position as int).outcome == Ok::<
                    TokenView,
                    LexerErrorView,
                >(TokenView::Integer(value)),
                Err(error) => scan_integer(old(self).text@, old(self).position as int).outcome
                    == Err::<TokenView, LexerErrorView>(error@),
            },
            final(self).position < final(self).text@.len(),
    {
        proof {
            use_type_invariant(&*self);
        }
        let start: usize = self.position;
        let end: usize = scan_run(&self.text, start + 1, CharClass::Digit);
        let mut value: u64 = 0;
        let mut fits: bool = true;
        let mut i: usize = start;
        proof {
            crate::text::lemma_run_end_bounds(self.text@, start + 1, CharClass::Digit);
            assert(self.text@.subrange(start as int, start as int) =~= Seq::<char>::empty());
        }
        while i < end
            invariant
                start <= i <= end <= self.text@.len(),
                forall|j: int| start <= j < end ==> is_digit(#[trigger] self.text@[j]),
                fits ==> value == decimal_value(self.text@.subrange(start as int, i as int)),
                fits ==> value <= u32::MAX,
                !fits ==> decimal_value(self.text@.subrange(start as int, i as int)) > u32::MAX,
            decreases end - i,
        {
            let c: char = self.text[i];
            proof {
                let longer = self.text@.subrange(start as int, i + 1);
                assert(longer.drop_last() =~= self.text@.subrange(start as int, i as int));
                assert(longer.last() == c);
                assert(is_digit(self.text@[i as int]));
            }
            if fits {
                let digit: u64 = (c as u32 - '0' as u32) as u64;
                value = value * 10 + digit;
                if value > u32::MAX as u64 {
                    fits = false;
                }
            }
            i = i + 1;
        }
        self.position = end - 1;
        if fits {
            Ok(value as u32)
        } else {
            Err(LexerError::InvalidSyntax(String::from_str("Integer literal too large.")))
        }
    }

    fn smiley(&mut self) -> (token: Option<Token>)
        requires
            old(self).position < old(self).text@.len(),
        ensures
            final(self).text == old(self).text,
            match token {
                Some(t) => {
                    &&& scan_smiley(old(self).text@, old(self).position as int) is Some
                    &&& scan_smiley(old(self).text@, old(self).position as int)->0.outcome == Ok::<
                        TokenView,
                        LexerErrorView,
                    >(t@)
                    &&& final(self).position == scan_smiley(
                        old(self).text@,
                        old(self).position as int,
                    )->0.rest
                },
                None => {
                    &&& scan_smiley(old(self).text@, old(self).position as int) is None
                    &&& final(self).position == old(self).position
                },
            },
            final(self).position < final(self).text@.len(),
    {
        match self.peek() {
            Some(c) => {
                if c == ')' {
                    self.goto_next_position();
                    Some(Token::Boolean(true))
                } else if c == '(' {
                    self.goto_next_position();
                    Some(Token::Boolean(false))
                } else {
                    None
                }
            },
            None => None,
        }
    }

    fn keyword_or_string(&mut self) -> (result: Result<Token, LexerError>)
        requires
            old(self).position < old(self).text@.len(),
        ensures
            final(self).text == old(self).text,
            final(self).position == scan_word(old(self).text@, old(self).position as int).rest,
            outcome_view(result) == scan_word(old(self).text@, old(self).position as int).outcome,
            result is Ok ==> final(self).position < final(self).text@.len(),
    {
        proof {
            use_type_invariant(&*self);
        }
        let start: usize = self.position;
        let first: char = self.text[start];
        if first == '<' {
            let end: usize = scan_run(&self.text, start + 1, CharClass::TextBody);
            if end < self.text.len() {
                self.position = end;
                return Ok(Token::String(collect(&self.text, start + 1, end)));
            } else {
                self.position = self.text.len();
                return Err(
                    LexerError::InvalidSyntax(String::from_str("Missing string closure: >")),
                );
            }
        }
        let mut word: Vec<char> = Vec::new();
        word.push(first);
        let mut last: usize = start;
        assert(word@ =~= self.text@.subrange(start as int, last + 1));
        while last + 1 < self.text.len() && crate::text::char_in_class(
            self.text[last + 1],
            CharClass::Keyword,
        )
            invariant
                start <= last < self.text@.len(),
                word@ == self.text@.subrange(start as int, last + 1),
                keyword_scan(self.text@, start as int, start as int) == keyword_scan(
                    self.text@,
                    start as int,
                    last as int,
                ),
                self.position == start,
                self.text == old(self).text,
                self.text@.len() <= usize::MAX,
                start == old(self).position,
                self.text@[start as int] != '<',
            decreases self.text@.len() - last,
        {
            word.push(self.text[last + 1]);
            last = last + 1;
            assert(word@ =~= self.text@.subrange(start as int, last + 1));
            assert(keyword_scan(self.text@, start as int, last - 1) == match keyword_of(word@) {
                Some(keyword) => Some((keyword, last as int)),
                None => keyword_scan(self.text@, start as int, last as int),
            });
            match keyword_lookup(&word) {
                Some(keyword) => {
                    self.position = last;
                    return Ok(Token::ReservedKeyword(keyword));
                },
                None => {},
            }
        }
        assert(keyword_scan(self.text@, start as int, last as int) is None);
        let end: usize = scan_run(&self.text, start + 1, CharClass::Identifier);
        self.position = end - 1;
        Ok(Token::ID { string: collect(&self.text, start, end) })
    }

    /// Reads the next token. At the end of the text that is `EOF`, again and
    /// again; a text literal that is never closed and an integer that does
    /// not fit into 32 bits are errors.
    pub fn get_next_token(&mut self) -> (result: Result<Token, LexerError>)
        ensures
            final(self)@.text == old(self)@.text,
            final(self)@.position == lex(old(self)@.text, old(self)@.position).position,
            outcome_view(result) == lex(old(self)@.text, old(self)@.position).outcome,
    {
        proof {
            use_type_invariant(&*self);
            reveal(lex);
        }
        let c: char = match self.current_char() {
            Some(c) => c,
            None => {
                return Ok(Token::EOF);
            },
        };
        let mut token: Option<Token> = None;
        if c >= '0' && c <= '9' {
            match self.integer() {
                Ok(value) => {
                    token = Some(Token::Integer(value));
                },
                Err(error) => {
                    return Err(error);
                },
            }
        } else if c == '+' {
            token = Some(Token::Plus);
        } else if c == '-' {
            token = Some(Token::Minus);
        } else if c == '*' {
            token = Some(Token::Multiply);
        } else if c == '/' {
            token = Some(Token::Divide);
        } else if c == '(' {
            token = Some(Token::ParentheseOpen);
        } else if c == ')' {
            token = Some(Token::ParentheseClose);
        } else if c == '=' {
            token = Some(Token::Assign);
        } else if c == '\n' {
            token = Some(Token::EndLine);
        } else if c == ',' {
            token = Some(Token::Comma);
        } else if c == ':' {
            token = self.smiley();
        }
        let token: Token = match token {
            Some(t) => t,
            None => match self.keyword_or_string() {
                Ok(t) => t,
                Err(error) => {
                    return Err(error);
                },
            },
        };
        self.goto_next_position();
        self.skip_whitespace();
        Ok(token)
    }
}

} // verus!
