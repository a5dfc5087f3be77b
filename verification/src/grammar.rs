//! The grammar, as functions of the state of a parser: each reads one
//! construct and says what it built and where the parser stands afterwards.

use vstd::prelude::*;
use crate::ast::{AstView, CompareType, ValueView};
use crate::lexer::{Keyword, LexerErrorView, LexerView, TokenView, keyword_scan, lex, scan};
use crate::text::{CharClass, decimal_digits, lemma_run_end_bounds, quoted};

verus! {

/// The state of a parser: the text, the position of its tokenizer in it, and
/// the token that it looks at, which the tokenizer has already read.
pub struct ParserView {
    pub text: Seq<char>,
    pub position: nat,
    pub current: TokenView,
}

/// What reading a construct yields: the state afterwards, and what was built
/// or why nothing was.
pub struct Parsed<T> {
    pub state: ParserView,
    pub outcome: Result<T, LexerErrorView>,
}

/// How much is left to read: the characters behind the tokenizer, and the
/// token looked at unless it is the end.
pub open spec fn remaining(p: ParserView) -> nat {
    let characters: nat = if p.position < p.text.len() {
        (p.text.len() - p.position) as nat
    } else {
        0
    };
    if p.current is EOF {
        characters
    } else {
        characters + 1
    }
}

/// Whether a construct that was read from `before` left no more to read than
/// there was. Every construct does, as the lemmas at the end of this file
/// show; the grammar asks it before it reads on, which bounds its recursion.
pub open spec fn settled(before: ParserView, after: ParserView) -> bool {
    remaining(after) <= remaining(before)
}

/// The state in which a parser starts on a tokenizer: it looks at the first
/// token, or at `EOF` where the tokenizer failed on it.
pub open spec fn start(lexer: LexerView) -> ParserView {
    let first = lex(lexer.text, lexer.position);
    ParserView {
        text: lexer.text,
        position: first.position,
        current: match first.outcome {
            Ok(token) => token,
            Err(_) => TokenView::EOF,
        },
    }
}

/// Steps to the next token.
pub open spec fn advance(p: ParserView) -> Parsed<()> {
    let next = lex(p.text, p.position);
    match next.outcome {
        Ok(token) => Parsed {
            state: ParserView { text: p.text, position: next.position, current: token },
            outcome: Ok(()),
        },
        Err(error) => Parsed {
            state: ParserView { text: p.text, position: next.position, current: p.current },
            outcome: Err(error),
        },
    }
}

/// The words by which an error names the token that it wanted: the name
/// of the token's kind, with what the token holds behind it.
#[verifier::opaque]
pub open spec fn expectation(token: TokenView) -> Seq<char> {
    match token {
        TokenView::ReservedKeyword(keyword) => match keyword {
            Keyword::Greeting => "ReservedKeyword(Greeting)"@,
            Keyword::Farewell => "ReservedKeyword(Farewell)"@,
            Keyword::Avo => "ReservedKeyword(Avo)"@,
            Keyword::Cado => "ReservedKeyword(Cado)"@,
            Keyword::Function => "ReservedKeyword(Function)"@,
            Keyword::Return => "ReservedKeyword(Return)"@,
            Keyword::Loop => "ReservedKeyword(Loop)"@,
            Keyword::Equals => "ReservedKeyword(Equals)"@,
            Keyword::Less => "ReservedKeyword(Less)"@,
            Keyword::Greater => "ReservedKeyword(Greater)"@,
            Keyword::AssignPrefix => "ReservedKeyword(AssignPrefix)"@,
            Keyword::AssignInfix => "ReservedKeyword(AssignInfix)"@,
            Keyword::If => "ReservedKeyword(If)"@,
        },
        TokenView::ID { string } => "ID { string: "@ + quoted(string) + " }"@,
        TokenView::Integer(n) => "Integer("@ + decimal_digits(n as nat) + ")"@,
        TokenView::String(s) => "String("@ + quoted(s) + ")"@,
        TokenView::Boolean(b) => if b {
            "Boolean(true)"@
        } else {
            "Boolean(false)"@
        },
        TokenView::Comma => "Comma"@,
        TokenView::Plus => "Plus"@,
        TokenView::Minus => "Minus"@,
        TokenView::Multiply => "Multiply"@,
        TokenView::Divide => "Divide"@,
        TokenView::ParentheseOpen => "ParentheseOpen"@,
        TokenView::ParentheseClose => "ParentheseClose"@,
        TokenView::EndLine => "EndLine"@,
        TokenView::Assign => "Assign"@,
        TokenView::EOF => "EOF"@,
    }
}

/// The error that names the token found and what was wanted.
pub open spec fn unexpected(found: TokenView, expected: Seq<char>) -> LexerErrorView {
    LexerErrorView::UnexpectedToken { found, expected }
}

/// Steps over the token looked at if it is `token`, and fails otherwise.
pub open spec fn expect(p: ParserView, token: TokenView) -> Parsed<()> {
    if p.current == token {
        advance(p)
    } else {
        Parsed { state: p, outcome: Err(unexpected(p.current, expectation(token))) }
    }
}

/// An identifier, as a variable.
pub open spec fn variable(p: ParserView) -> Parsed<AstView> {
    match p.current {
        TokenView::ID { string } => {
            let next = advance(p);
            Parsed {
                state: next.state,
                outcome: match next.outcome {
                    Ok(_) => Ok(AstView::Variable { name: string }),
                    Err(error) => Err(error),
                },
            }
        },
        _ => Parsed { state: p, outcome: Err(unexpected(p.current, "Variable"@)) },
    }
}

/// Whether a token is `+` or `-`.
pub open spec fn is_sign(token: TokenView) -> bool {
    token is Plus || token is Minus
}

/// Whether a token is `*` or `/`.
pub open spec fn is_product(token: TokenView) -> bool {
    token is Multiply || token is Divide
}

/// The comparison that a keyword asks for, if it asks for one.
pub open spec fn comparison(token: TokenView) -> Option<CompareType> {
    match token {
        TokenView::ReservedKeyword(Keyword::Equals) => Some(CompareType::Equals),
        TokenView::ReservedKeyword(Keyword::Less) => Some(CompareType::Less),
        TokenView::ReservedKeyword(Keyword::Greater) => Some(CompareType::Greater),
        _ => None,
    }
}

/// The integer that a literal stands for: its 32 bits, read as signed.
pub open spec fn literal_value(n: u32) -> i32 {
    if n <= i32::MAX {
        n as i32
    } else {
        (n - 0x1_0000_0000) as i32
    }
}

/// A sign and a factor, a literal, an expression in parentheses, or a
/// variable or call.
pub open spec fn factor(p: ParserView) -> Parsed<AstView>
    decreases remaining(p), 3int,
{
    if is_sign(p.current) {
        let next = advance(p);
        match next.outcome {
            Ok(_) => {
                proof {
                    lemma_advance_settles(p);
                }
                let operand = factor(next.state);
                Parsed {
                    state: operand.state,
                    outcome: match operand.outcome {
                        Ok(node) => Ok(
                            AstView::UnaryOp { expression: Box::new(node), token: p.current },
                        ),
                        Err(error) => Err(error),
                    },
                }
            },
            Err(error) => Parsed { state: next.state, outcome: Err(error) },
        }
    } else {
        match p.current {
            TokenView::Integer(n) => literal(p, ValueView::Integer(literal_value(n))),
            TokenView::String(s) => literal(p, ValueView::String(s)),
            TokenView::Boolean(b) => literal(p, ValueView::Boolean(b)),
            TokenView::ParentheseOpen => {
                let open = advance(p);
                match open.outcome {
                    Ok(_) => {
                        proof {
                            lemma_advance_settles(p);
                        }
                        let inner = expr(open.state);
                        match inner.outcome {
                            Ok(node) => {
                                let close = expect(inner.state, TokenView::ParentheseClose);
                                Parsed {
                                    state: close.state,
                                    outcome: match close.outcome {
                                        Ok(_) => Ok(node),
                                        Err(error) => Err(error),
                                    },
                                }
                            },
                            Err(error) => Parsed { state: inner.state, outcome: Err(error) },
                        }
                    },
                    Err(error) => Parsed { state: open.state, outcome: Err(error) },
                }
            },
            _ => variable_or_call(p),
        }
    }
}

/// A literal: the value that the token looked at holds.
pub open spec fn literal(p: ParserView, value: ValueView) -> Parsed<AstView> {
    let next = advance(p);
    Parsed {
        state: next.state,
        outcome: match next.outcome {
            Ok(_) => Ok(AstView::Value { value }),
            Err(error) => Err(error),
        },
    }
}

/// A variable, or a call where `(` follows it.
pub open spec fn variable_or_call(p: ParserView) -> Parsed<AstView>
    decreases remaining(p), 2int,
{
    let name = variable(p);
    match name.outcome {
        Ok(node) => if name.state.current is ParentheseOpen {
            proof {
                lemma_advance_settles(p);
            }
            call(name.state, node)
        } else {
            name
        },
        Err(_) => name,
    }
}

/// The arguments of a call in parentheses; `function` is what is called.
pub open spec fn call(p: ParserView, function: AstView) -> Parsed<AstView>
    decreases remaining(p), 1int,
{
    let open = expect(p, TokenView::ParentheseOpen);
    match open.outcome {
        Ok(_) => {
            proof {
                lemma_advance_settles(p);
            }
            let list = argument_list(open.state);
            match list.outcome {
                Ok(parameters) => {
                    let close = expect(list.state, TokenView::ParentheseClose);
                    Parsed {
                        state: close.state,
                        outcome: match close.outcome {
                            Ok(_) => Ok(
                                AstView::FunctionCall { function: Box::new(function), parameters },
                            ),
                            Err(error) => Err(error),
                        },
                    }
                },
                Err(error) => Parsed { state: list.state, outcome: Err(error) },
            }
        },
        Err(error) => Parsed { state: open.state, outcome: Err(error) },
    }
}

/// What stands between the parentheses of a call: nothing, or arguments.
pub open spec fn argument_list(p: ParserView) -> Parsed<Seq<AstView>>
    decreases remaining(p), 7int,
{
    if p.current is ParentheseClose {
        Parsed { state: p, outcome: Ok(Seq::<AstView>::empty()) }
    } else {
        arguments(p, Seq::<AstView>::empty())
    }
}

/// One or more expressions between commas, added to `read`.
pub open spec fn arguments(p: ParserView, read: Seq<AstView>) -> Parsed<Seq<AstView>>
    decreases remaining(p), 6int,
{
    let argument = expr(p);
    match argument.outcome {
        Ok(node) => if argument.state.current is Comma && settled(p, argument.state) {
            let comma = advance(argument.state);
            match comma.outcome {
                Ok(_) => {
                    proof {
                        lemma_advance_settles(argument.state);
                    }
                    arguments(comma.state, read.push(node))
                },
                Err(error) => Parsed { state: comma.state, outcome: Err(error) },
            }
        } else {
            Parsed { state: argument.state, outcome: Ok(read.push(node)) }
        },
        Err(error) => Parsed { state: argument.state, outcome: Err(error) },
    }
}

/// A factor, the factors that `*` and `/` join to it, and then the factors
/// that comparisons join to all of that.
pub open spec fn term(p: ParserView) -> Parsed<AstView>
    decreases remaining(p), 4int,
{
    let first = factor(p);
    match first.outcome {
        Ok(node) => if settled(p, first.state) {
            products(first.state, node)
        } else {
            first
        },
        Err(_) => first,
    }
}

/// The rest of a chain of `*` and `/`, of which `left` has been read, and
/// the comparisons behind it.
pub open spec fn products(p: ParserView, left: AstView) -> Parsed<AstView>
    decreases remaining(p), 2int,
{
    if is_product(p.current) {
        let operator = advance(p);
        match operator.outcome {
            Ok(_) => {
                proof {
                    lemma_advance_settles(p);
                }
                let right = factor(operator.state);
                match right.outcome {
                    Ok(node) => {
                        let joined = AstView::BinOp {
                            left: Box::new(left),
                            right: Box::new(node),
                            token: p.current,
                        };
                        if settled(operator.state, right.state) {
                            products(right.state, joined)
                        } else {
                            Parsed { state: right.state, outcome: Ok(joined) }
                        }
                    },
                    Err(error) => Parsed { state: right.state, outcome: Err(error) },
                }
            },
            Err(error) => Parsed { state: operator.state, outcome: Err(error) },
        }
    } else {
        comparisons(p, left)
    }
}

/// The rest of a chain of comparisons, of which `left` has been read.
pub open spec fn comparisons(p: ParserView, left: AstView) -> Parsed<AstView>
    decreases remaining(p), 1int,
{
    match comparison(p.current) {
        Some(compare_type) => {
            let operator = advance(p);
            match operator.outcome {
                Ok(_) => {
                    proof {
                        lemma_advance_settles(p);
                    }
                    let right = factor(operator.state);
                    match right.outcome {
                        Ok(node) => {
                            let joined = AstView::Compare {
                                left: Box::new(left),
                                right: Box::new(node),
                                compare_type,
                            };
                            if settled(operator.state, right.state) {
                                comparisons(right.state, joined)
                            } else {
                                Parsed { state: right.state, outcome: Ok(joined) }
                            }
                        },
                        Err(error) => Parsed { state: right.state, outcome: Err(error) },
                    }
                },
                Err(error) => Parsed { state: operator.state, outcome: Err(error) },
            }
        },
        None => Parsed { state: p, outcome: Ok(left) },
    }
}

/// A term and the terms that `+` and `-` join to it.
pub open spec fn expr(p: ParserView) -> Parsed<AstView>
    decreases remaining(p), 5int,
{
    let first = term(p);
    match first.outcome {
        Ok(node) => if settled(p, first.state) {
            sums(first.state, node)
        } else {
            first
        },
        Err(_) => first,
    }
}

/// The rest of a chain of `+` and `-`, of which `left` has been read.
pub open spec fn sums(p: ParserView, left: AstView) -> Parsed<AstView>
    decreases remaining(p), 1int,
{
    if is_sign(p.current) {
        let operator = advance(p);
        match operator.outcome {
            Ok(_) => {
                proof {
                    lemma_advance_settles(p);
                }
                let right = term(operator.state);
                match right.outcome {
                    Ok(node) => {
                        let joined = AstView::BinOp {
                            left: Box::new(left),
                            right: Box::new(node),
                            token: p.current,
                        };
                        if settled(operator.state, right.state) {
                            sums(right.state, joined)
                        } else {
                            Parsed { state: right.state, outcome: Ok(joined) }
                        }
                    },
                    Err(error) => Parsed { state: right.state, outcome: Err(error) },
                }
            },
            Err(error) => Parsed { state: operator.state, outcome: Err(error) },
        }
    } else {
        Parsed { state: p, outcome: Ok(left) }
    }
}

/// What `=` and an expression assign to `left`.
#[verifier::opaque]
pub open spec fn assignment(p: ParserView, left: AstView) -> Parsed<AstView> {
    let sign = expect(p, TokenView::Assign);
    match sign.outcome {
        Ok(_) => assigned(sign.state, left),
        Err(error) => Parsed { state: sign.state, outcome: Err(error) },
    }
}

/// The expression that is assigned to `left`.
#[verifier::opaque]
pub open spec fn assigned(p: ParserView, left: AstView) -> Parsed<AstView> {
    let right = expr(p);
    Parsed {
        state: right.state,
        outcome: match right.outcome {
            Ok(node) => Ok(AstView::Assign { left: Box::new(left), right: Box::new(node) }),
            Err(error) => Err(error),
        },
    }
}

/// One or more names of parameters between commas, added to `read`.
pub open spec fn parameters(p: ParserView, read: Seq<Seq<char>>) -> Parsed<Seq<Seq<char>>>
    decreases remaining(p),
{
    match p.current {
        TokenView::ID { string } => {
            let name = advance(p);
            match name.outcome {
                Ok(_) => if name.state.current is Comma {
                    let comma = advance(name.state);
                    match comma.outcome {
                        Ok(_) => {
                            proof {
                                lemma_advance_settles(p);
                                lemma_advance_settles(name.state);
                            }
                            parameters(comma.state, read.push(string))
                        },
                        Err(error) => Parsed { state: comma.state, outcome: Err(error) },
                    }
                } else {
                    Parsed { state: name.state, outcome: Ok(read.push(string)) }
                },
                Err(error) => Parsed { state: name.state, outcome: Err(error) },
            }
        },
        _ => Parsed { state: p, outcome: Err(unexpected(p.current, "ID for ParameterName"@)) },
    }
}

/// What stands between the parentheses of a declaration: nothing, or the
/// names of parameters.
pub open spec fn parameter_list(p: ParserView) -> Parsed<Seq<Seq<char>>> {
    if p.current is ParentheseClose {
        Parsed { state: p, outcome: Ok(Seq::<Seq<char>>::empty()) }
    } else {
        parameters(p, Seq::<Seq<char>>::empty())
    }
}

/// The head of a function declaration behind its keyword: the name and the
/// names of the parameters in parentheses.
#[verifier::opaque]
pub open spec fn signature(p: ParserView) -> Parsed<(Seq<char>, Seq<Seq<char>>)> {
    match p.current {
        TokenView::ID { string } => {
            let named = advance(p);
            match named.outcome {
                Ok(_) => {
                    let open = expect(named.state, TokenView::ParentheseOpen);
                    match open.outcome {
                        Ok(_) => {
                            let list = parameter_list(open.state);
                            match list.outcome {
                                Ok(names) => {
                                    let close = expect(list.state, TokenView::ParentheseClose);
                                    Parsed {
                                        state: close.state,
                                        outcome: match close.outcome {
                                            Ok(_) => Ok((string, names)),
                                            Err(error) => Err(error),
                                        },
                                    }
                                },
                                Err(error) => Parsed { state: list.state, outcome: Err(error) },
                            }
                        },
                        Err(error) => Parsed { state: open.state, outcome: Err(error) },
                    }
                },
                Err(error) => Parsed { state: named.state, outcome: Err(error) },
            }
        },
        _ => Parsed { state: p, outcome: Err(unexpected(p.current, "ID for FunctionName"@)) },
    }
}

/// The kinds of statement that a keyword opens.
pub enum Opening {
    /// `wenn`: a condition and a block.
    Conditional,
    /// `schleif`: a condition and a block, again and again.
    Repetition,
    /// `funny`: a function declaration.
    Declaration,
    /// `machma`: an assignment in words.
    Assignment,
    /// `wirf`: a return.
    Return,
}

/// The kind of statement that a keyword opens, if it opens one.
pub open spec fn opening(token: TokenView) -> Option<Opening> {
    match token {
        TokenView::ReservedKeyword(Keyword::If) => Some(Opening::Conditional),
        TokenView::ReservedKeyword(Keyword::Loop) => Some(Opening::Repetition),
        TokenView::ReservedKeyword(Keyword::Function) => Some(Opening::Declaration),
        TokenView::ReservedKeyword(Keyword::AssignPrefix) => Some(Opening::Assignment),
        TokenView::ReservedKeyword(Keyword::Return) => Some(Opening::Return),
        _ => None,
    }
}

/// A statement that starts with an identifier: an assignment where `=`
/// follows it, a call where `(` does, and else the empty statement.
#[verifier::opaque]
pub open spec fn named_statement(p: ParserView) -> Parsed<AstView> {
    let left = variable(p);
    match left.outcome {
        Ok(node) => if left.state.current is Assign {
            assignment(left.state, node)
        } else if left.state.current is ParentheseOpen {
            call(left.state, node)
        } else {
            Parsed { state: left.state, outcome: Ok(AstView::NoOp) }
        },
        Err(_) => left,
    }
}

/// An assignment in words, behind its keyword: a variable, the infix
/// keyword and an expression.
#[verifier::opaque]
pub open spec fn worded_assignment(p: ParserView) -> Parsed<AstView> {
    let left = variable(p);
    match left.outcome {
        Ok(node) => {
            let infix = expect(left.state, TokenView::ReservedKeyword(Keyword::AssignInfix));
            match infix.outcome {
                Ok(_) => assigned(infix.state, node),
                Err(error) => Parsed { state: infix.state, outcome: Err(error) },
            }
        },
        Err(_) => left,
    }
}

/// A return, behind its keyword: the expression that is returned.
#[verifier::opaque]
pub open spec fn returned(p: ParserView) -> Parsed<AstView> {
    let value = expr(p);
    Parsed {
        state: value.state,
        outcome: match value.outcome {
            Ok(node) => Ok(AstView::Return { expression: Box::new(node) }),
            Err(error) => Err(error),
        },
    }
}

/// A conditional or a loop, behind its keyword: a condition and a block.
pub open spec fn guarded(p: ParserView, repeats: bool) -> Parsed<AstView>
    decreases remaining(p), 4int,
{
    let condition = expr(p);
    match condition.outcome {
        Ok(node) => {
            proof {
                lemma_expr_settles(p);
            }
            let body = inner_block(condition.state);
            Parsed {
                state: body.state,
                outcome: match body.outcome {
                    Ok(block) => Ok(
                        if repeats {
                            AstView::Loop {
                                condition: Box::new(node),
                                execution: Box::new(block),
                            }
                        } else {
                            AstView::If { condition: Box::new(node), execution: Box::new(block) }
                        },
                    ),
                    Err(error) => Err(error),
                },
            }
        },
        Err(error) => Parsed { state: condition.state, outcome: Err(error) },
    }
}

/// A function declaration, behind its keyword: the head and a block.
pub open spec fn declaration(p: ParserView) -> Parsed<AstView>
    decreases remaining(p), 4int,
{
    let head = signature(p);
    match head.outcome {
        Ok((name, names)) => {
            proof {
                lemma_signature_settles(p);
            }
            let body = inner_block(head.state);
            Parsed {
                state: body.state,
                outcome: match body.outcome {
                    Ok(block) => Ok(
                        AstView::FunctionDeclaration {
                            name,
                            parameters: names,
                            execution_block: Box::new(block),
                        },
                    ),
                    Err(error) => Err(error),
                },
            }
        },
        Err(error) => Parsed { state: head.state, outcome: Err(error) },
    }
}

/// What follows the keyword that opened a statement of `kind`.
pub open spec fn opened(p: ParserView, kind: Opening) -> Parsed<AstView>
    decreases remaining(p), 5int,
{
    match kind {
        Opening::Conditional => guarded(p, false),
        Opening::Repetition => guarded(p, true),
        Opening::Declaration => declaration(p),
        Opening::Assignment => worded_assignment(p),
        Opening::Return => returned(p),
    }
}

/// One statement. What starts with no identifier and no keyword that opens
/// a statement is the empty statement, and nothing is read; an identifier
/// that neither `=` nor `(` follows is read and is the empty statement too.
/// The keyword of equality opens none.
pub open spec fn statement(p: ParserView) -> Parsed<AstView>
    decreases remaining(p), 2int,
{
    if p.current is ID {
        named_statement(p)
    } else {
        match opening(p.current) {
            Some(kind) => {
                let keyword = advance(p);
                match keyword.outcome {
                    Ok(_) => {
                        proof {
                            lemma_advance_settles(p);
                        }
                        opened(keyword.state, kind)
                    },
                    Err(error) => Parsed { state: keyword.state, outcome: Err(error) },
                }
            },
            None => Parsed { state: p, outcome: Ok(AstView::NoOp) },
        }
    }
}

/// The statement that starts a list, as a list: empty where the statement
/// is.
pub open spec fn listed(node: AstView) -> Seq<AstView> {
    if node is NoOp {
        Seq::empty()
    } else {
        seq![node]
    }
}

/// A statement and the statements that line breaks join to it. Empty
/// statements are dropped, so that the list may be empty.
pub open spec fn statement_list(p: ParserView) -> Parsed<Seq<AstView>>
    decreases remaining(p), 3int,
{
    let first = statement(p);
    match first.outcome {
        Ok(node) => if settled(p, first.state) {
            more_statements(first.state, listed(node))
        } else {
            Parsed { state: first.state, outcome: Ok(listed(node)) }
        },
        Err(error) => Parsed { state: first.state, outcome: Err(error) },
    }
}

/// The rest of a statement list, of which `read` has been read.
pub open spec fn more_statements(p: ParserView, read: Seq<AstView>) -> Parsed<Seq<AstView>>
    decreases remaining(p), 1int,
{
    if p.current is EndLine {
        let line = advance(p);
        match line.outcome {
            Ok(_) => {
                proof {
                    lemma_advance_settles(p);
                }
                let next = statement(line.state);
                match next.outcome {
                    Ok(node) => {
                        let kept = if node is NoOp {
                            read
                        } else {
                            read.push(node)
                        };
                        if settled(line.state, next.state) {
                            more_statements(next.state, kept)
                        } else {
                            Parsed { state: next.state, outcome: Ok(kept) }
                        }
                    },
                    Err(error) => Parsed { state: next.state, outcome: Err(error) },
                }
            },
            Err(error) => Parsed { state: line.state, outcome: Err(error) },
        }
    } else {
        Parsed { state: p, outcome: Ok(read) }
    }
}

/// A block between `avo` and `cado`; one line break may stand before it.
pub open spec fn inner_block(p: ParserView) -> Parsed<AstView>
    decreases remaining(p), 1int,
{
    let line = if p.current is EndLine {
        advance(p)
    } else {
        Parsed { state: p, outcome: Ok(()) }
    };
    match line.outcome {
        Ok(_) => {
            let open = expect(line.state, TokenView::ReservedKeyword(Keyword::Avo));
            match open.outcome {
                Ok(_) => {
                    proof {
                        lemma_advance_settles(p);
                        lemma_advance_settles(line.state);
                    }
                    let list = statement_list(open.state);
                    match list.outcome {
                        Ok(children) => {
                            let close = expect(
                                list.state,
                                TokenView::ReservedKeyword(Keyword::Cado),
                            );
                            Parsed {
                                state: close.state,
                                outcome: match close.outcome {
                                    Ok(_) => Ok(AstView::Block { children }),
                                    Err(error) => Err(error),
                                },
                            }
                        },
                        Err(error) => Parsed { state: list.state, outcome: Err(error) },
                    }
                },
                Err(error) => Parsed { state: open.state, outcome: Err(error) },
            }
        },
        Err(error) => Parsed { state: line.state, outcome: Err(error) },
    }
}

/// The statements of a program, as one block.
#[verifier::opaque]
pub open spec fn block(p: ParserView) -> Parsed<AstView> {
    let list = statement_list(p);
    Parsed {
        state: list.state,
        outcome: match list.outcome {
            Ok(children) => Ok(AstView::Block { children }),
            Err(error) => Err(error),
        },
    }
}

/// A program: the greeting, a line break, the statements and the farewell.
#[verifier::opaque]
pub open spec fn program(p: ParserView) -> Parsed<AstView> {
    let greeting = expect(p, TokenView::ReservedKeyword(Keyword::Greeting));
    match greeting.outcome {
        Ok(_) => {
            let line = expect(greeting.state, TokenView::EndLine);
            match line.outcome {
                Ok(_) => {
                    let body = block(line.state);
                    match body.outcome {
                        Ok(node) => {
                            let farewell = expect(
                                body.state,
                                TokenView::ReservedKeyword(Keyword::Farewell),
                            );
                            Parsed {
                                state: farewell.state,
                                outcome: match farewell.outcome {
                                    Ok(_) => Ok(node),
                                    Err(error) => Err(error),
                                },
                            }
                        },
                        Err(error) => Parsed { state: body.state, outcome: Err(error) },
                    }
                },
                Err(error) => Parsed { state: line.state, outcome: Err(error) },
            }
        },
        Err(error) => Parsed { state: greeting.state, outcome: Err(error) },
    }
}

/// A program and nothing behind it.
#[verifier::opaque]
pub open spec fn parse(p: ParserView) -> Parsed<AstView> {
    let whole = program(p);
    match whole.outcome {
        Ok(node) => if whole.state.current is EOF {
            whole
        } else {
            Parsed { state: whole.state, outcome: Err(unexpected(whole.state.current, "EOF"@)) }
        },
        Err(_) => whole,
    }
}

/// The syntax tree of a program text, or why it has none.
pub open spec fn parse_text(text: Seq<char>) -> Result<AstView, LexerErrorView> {
    parse(start(LexerView { text, position: 0 })).outcome
}

/// Where a keyword can start at `at`, it ends inside the text and behind
/// its start.
pub proof fn lemma_keyword_scan_bounds(text: Seq<char>, start: int, last: int)
    requires
        0 <= start <= last < text.len(),
    ensures
        keyword_scan(text, start, last) matches Some((_, end)) ==> last < end < text.len(),
    decreases text.len() - last,
{
    if last + 1 < text.len() {
        lemma_keyword_scan_bounds(text, start, last + 1);
    }
}

/// The tokenizer never moves backwards nor beyond the text; with a token
/// that is not the end it moves forwards.
pub proof fn lemma_lex_advances(text: Seq<char>, position: nat)
    ensures
        position <= lex(text, position).position,
        position < text.len() ==> lex(text, position).position <= text.len(),
        position < text.len() && lex(text, position).outcome is Ok ==> position < lex(
            text,
            position,
        ).position && !(lex(text, position).outcome->Ok_0 is EOF),
        position >= text.len() ==> lex(text, position).position == position && lex(
            text,
            position,
        ).outcome == Ok::<TokenView, LexerErrorView>(TokenView::EOF),
{
    reveal(lex);
    if position < text.len() {
        let at = position as int;
        lemma_run_end_bounds(text, at + 1, CharClass::Digit);
        lemma_run_end_bounds(text, at + 1, CharClass::TextBody);
        lemma_run_end_bounds(text, at + 1, CharClass::Identifier);
        lemma_keyword_scan_bounds(text, at, at);
        let scanned = scan(text, at);
        assert(at <= scanned.rest);
        assert(scanned.outcome is Ok ==> scanned.rest < text.len());
        assert(scanned.outcome is Err ==> scanned.rest <= text.len());
        if scanned.outcome is Ok {
            lemma_run_end_bounds(text, scanned.rest + 1, CharClass::Space);
        }
    }
}

/// A step to the next token leaves no more to read, and less where the
/// token stepped over was not the end.
pub proof fn lemma_advance_settles(p: ParserView)
    ensures
        settled(p, advance(p).state),
        advance(p).outcome is Ok && !(p.current is EOF) ==> remaining(advance(p).state)
            < remaining(p),
        advance(p).state.text == p.text,
{
    lemma_lex_advances(p.text, p.position);
}


/// Stepping over a wanted token leaves no more to read.
pub proof fn lemma_expect_settles(p: ParserView, token: TokenView)
    ensures
        settled(p, expect(p, token).state),
{
    lemma_advance_settles(p);
}

/// A variable leaves no more to read.
pub proof fn lemma_variable_settles(p: ParserView)
    ensures
        settled(p, variable(p).state),
{
    lemma_advance_settles(p);
}

/// A factor leaves no more to read.
pub proof fn lemma_factor_settles(p: ParserView)
    ensures
        settled(p, factor(p).state),
    decreases remaining(p), 3int,
{
    lemma_advance_settles(p);
    if is_sign(p.current) {
        if advance(p).outcome is Ok {
            lemma_factor_settles(advance(p).state);
        }
    } else if p.current is ParentheseOpen {
        if advance(p).outcome is Ok {
            let inner = expr(advance(p).state);
            lemma_expr_settles(advance(p).state);
            lemma_expect_settles(inner.state, TokenView::ParentheseClose);
        }
    } else if !(p.current is Integer || p.current is String || p.current is Boolean) {
        lemma_variable_or_call_settles(p);
    }
}

/// A variable or call leaves no more to read.
pub proof fn lemma_variable_or_call_settles(p: ParserView)
    ensures
        settled(p, variable_or_call(p).state),
    decreases remaining(p), 2int,
{
    lemma_advance_settles(p);
    let name = variable(p);
    if name.outcome is Ok && name.state.current is ParentheseOpen {
        lemma_call_settles(name.state, name.outcome->Ok_0);
    }
}

/// A call leaves no more to read.
pub proof fn lemma_call_settles(p: ParserView, function: AstView)
    ensures
        settled(p, call(p, function).state),
    decreases remaining(p), 1int,
{
    lemma_advance_settles(p);
    let open = expect(p, TokenView::ParentheseOpen);
    if open.outcome is Ok {
        let list = argument_list(open.state);
        lemma_argument_list_settles(open.state);
        lemma_expect_settles(list.state, TokenView::ParentheseClose);
    }
}

/// What stands between the parentheses of a call leaves no more to read.
pub proof fn lemma_argument_list_settles(p: ParserView)
    ensures
        settled(p, argument_list(p).state),
    decreases remaining(p), 7int,
{
    if !(p.current is ParentheseClose) {
        lemma_arguments_settles(p, Seq::<AstView>::empty());
    }
}

/// Arguments leave no more to read.
pub proof fn lemma_arguments_settles(p: ParserView, read: Seq<AstView>)
    ensures
        settled(p, arguments(p, read).state),
    decreases remaining(p), 6int,
{
    let argument = expr(p);
    lemma_expr_settles(p);
    if argument.outcome is Ok && argument.state.current is Comma {
        lemma_advance_settles(argument.state);
        if advance(argument.state).outcome is Ok {
            lemma_arguments_settles(
                advance(argument.state).state,
                read.push(argument.outcome->Ok_0),
            );
        }
    }
}

/// A term leaves no more to read.
pub proof fn lemma_term_settles(p: ParserView)
    ensures
        settled(p, term(p).state),
    decreases remaining(p), 4int,
{
    lemma_factor_settles(p);
    let first = factor(p);
    if first.outcome is Ok {
        lemma_products_settles(first.state, first.outcome->Ok_0);
    }
}

/// The rest of a chain of `*` and `/` leaves no more to read.
pub proof fn lemma_products_settles(p: ParserView, left: AstView)
    ensures
        settled(p, products(p, left).state),
    decreases remaining(p), 2int,
{
    lemma_advance_settles(p);
    if is_product(p.current) {
        let operator = advance(p);
        if operator.outcome is Ok {
            let right = factor(operator.state);
            lemma_factor_settles(operator.state);
            if right.outcome is Ok {
                lemma_products_settles(
                    right.state,
                    AstView::BinOp {
                        left: Box::new(left),
                        right: Box::new(right.outcome->Ok_0),
                        token: p.current,
                    },
                );
            }
        }
    } else {
        lemma_comparisons_settles(p, left);
    }
}

/// The rest of a chain of comparisons leaves no more to read.
pub proof fn lemma_comparisons_settles(p: ParserView, left: AstView)
    ensures
        settled(p, comparisons(p, left).state),
    decreases remaining(p), 1int,
{
    lemma_advance_settles(p);
    if comparison(p.current) is Some {
        let operator = advance(p);
        if operator.outcome is Ok {
            let right = factor(operator.state);
            lemma_factor_settles(operator.state);
            if right.outcome is Ok {
                lemma_comparisons_settles(
                    right.state,
                    AstView::Compare {
                        left: Box::new(left),
                        right: Box::new(right.outcome->Ok_0),
                        compare_type: comparison(p.current)->0,
                    },
                );
            }
        }
    }
}

/// An expression leaves no more to read.
pub proof fn lemma_expr_settles(p: ParserView)
    ensures
        settled(p, expr(p).state),
    decreases remaining(p), 5int,
{
    lemma_term_settles(p);
    let first = term(p);
    if first.outcome is Ok {
        lemma_sums_settles(first.state, first.outcome->Ok_0);
    }
}

/// The rest of a chain of `+` and `-` leaves no more to read.
pub proof fn lemma_sums_settles(p: ParserView, left: AstView)
    ensures
        settled(p, sums(p, left).state),
    decreases remaining(p), 1int,
{
    lemma_advance_settles(p);
    if is_sign(p.current) {
        let operator = advance(p);
        if operator.outcome is Ok {
            let right = term(operator.state);
            lemma_term_settles(operator.state);
            if right.outcome is Ok {
                lemma_sums_settles(
                    right.state,
                    AstView::BinOp {
                        left: Box::new(left),
                        right: Box::new(right.outcome->Ok_0),
                        token: p.current,
                    },
                );
            }
        }
    }
}

/// The names of parameters leave no more to read.
pub proof fn lemma_parameters_settles(p: ParserView, read: Seq<Seq<char>>)
    ensures
        settled(p, parameters(p, read).state),
    decreases remaining(p),
{
    lemma_advance_settles(p);
    if p.current is ID && advance(p).outcome is Ok {
        let name = advance(p);
        lemma_advance_settles(name.state);
        if name.state.current is Comma && advance(name.state).outcome is Ok {
            lemma_parameters_settles(advance(name.state).state, read.push(p.current->string));
        }
    }
}

/// The head of a declaration leaves no more to read.
pub proof fn lemma_signature_settles(p: ParserView)
    ensures
        settled(p, signature(p).state),
{
    reveal(signature);
    lemma_advance_settles(p);
    if p.current is ID && advance(p).outcome is Ok {
        let named = advance(p);
        let open = expect(named.state, TokenView::ParentheseOpen);
        lemma_expect_settles(named.state, TokenView::ParentheseOpen);
        if open.outcome is Ok {
            let list = parameter_list(open.state);
            lemma_parameters_settles(open.state, Seq::<Seq<char>>::empty());
            lemma_expect_settles(list.state, TokenView::ParentheseClose);
        }
    }
}


/// The value of an assignment leaves no more to read.
pub proof fn lemma_assigned_settles(p: ParserView, left: AstView)
    ensures
        settled(p, assigned(p, left).state),
{
    reveal(assigned);
    lemma_expr_settles(p);
}

/// An assignment leaves no more to read.
pub proof fn lemma_assignment_settles(p: ParserView, left: AstView)
    ensures
        settled(p, assignment(p, left).state),
{
    reveal(assignment);
    lemma_expect_settles(p, TokenView::Assign);
    lemma_assigned_settles(expect(p, TokenView::Assign).state, left);
}

/// A statement that starts with an identifier leaves no more to read.
pub proof fn lemma_named_statement_settles(p: ParserView)
    ensures
        settled(p, named_statement(p).state),
{
    reveal(named_statement);
    lemma_variable_settles(p);
    let left = variable(p);
    if left.outcome is Ok {
        lemma_assignment_settles(left.state, left.outcome->Ok_0);
        lemma_call_settles(left.state, left.outcome->Ok_0);
    }
}

/// An assignment in words leaves no more to read.
pub proof fn lemma_worded_assignment_settles(p: ParserView)
    ensures
        settled(p, worded_assignment(p).state),
{
    reveal(worded_assignment);
    lemma_variable_settles(p);
    let left = variable(p);
    if left.outcome is Ok {
        let infix = expect(left.state, TokenView::ReservedKeyword(Keyword::AssignInfix));
        lemma_expect_settles(left.state, TokenView::ReservedKeyword(Keyword::AssignInfix));
        lemma_assigned_settles(infix.state, left.outcome->Ok_0);
    }
}

/// A return leaves no more to read.
pub proof fn lemma_returned_settles(p: ParserView)
    ensures
        settled(p, returned(p).state),
{
    reveal(returned);
    lemma_expr_settles(p);
}

/// A statement leaves no more to read.
pub proof fn lemma_statement_settles(p: ParserView)
    ensures
        settled(p, statement(p).state),
    decreases remaining(p), 2int,
{
    if p.current is ID {
        lemma_named_statement_settles(p);
    } else if opening(p.current) is Some {
        lemma_advance_settles(p);
        if advance(p).outcome is Ok {
            lemma_opened_settles(advance(p).state, opening(p.current)->0);
        }
    }
}

/// What follows the keyword of a statement leaves no more to read.
pub proof fn lemma_opened_settles(p: ParserView, kind: Opening)
    ensures
        settled(p, opened(p, kind).state),
    decreases remaining(p), 5int,
{
    match kind {
        Opening::Conditional => lemma_guarded_settles(p, false),
        Opening::Repetition => lemma_guarded_settles(p, true),
        Opening::Declaration => lemma_declaration_settles(p),
        Opening::Assignment => lemma_worded_assignment_settles(p),
        Opening::Return => lemma_returned_settles(p),
    }
}

/// A conditional or a loop leaves no more to read.
pub proof fn lemma_guarded_settles(p: ParserView, repeats: bool)
    ensures
        settled(p, guarded(p, repeats).state),
    decreases remaining(p), 4int,
{
    lemma_expr_settles(p);
    if expr(p).outcome is Ok {
        lemma_inner_block_settles(expr(p).state);
    }
}

/// A declaration leaves no more to read.
pub proof fn lemma_declaration_settles(p: ParserView)
    ensures
        settled(p, declaration(p).state),
    decreases remaining(p), 4int,
{
    lemma_signature_settles(p);
    if signature(p).outcome is Ok {
        lemma_inner_block_settles(signature(p).state);
    }
}

/// A block leaves no more to read.
pub proof fn lemma_inner_block_settles(p: ParserView)
    ensures
        settled(p, inner_block(p).state),
    decreases remaining(p), 1int,
{
    lemma_advance_settles(p);
    let line = if p.current is EndLine {
        advance(p)
    } else {
        Parsed { state: p, outcome: Ok(()) }
    };
    if line.outcome is Ok {
        let open = expect(line.state, TokenView::ReservedKeyword(Keyword::Avo));
        lemma_advance_settles(line.state);
        if open.outcome is Ok {
            lemma_statement_list_settles(open.state);
            lemma_expect_settles(
                statement_list(open.state).state,
                TokenView::ReservedKeyword(Keyword::Cado),
            );
        }
    }
}

/// A list of statements leaves no more to read.
pub proof fn lemma_statement_list_settles(p: ParserView)
    ensures
        settled(p, statement_list(p).state),
    decreases remaining(p), 3int,
{
    lemma_statement_settles(p);
    let first = statement(p);
    if first.outcome is Ok {
        lemma_more_statements_settles(first.state, listed(first.outcome->Ok_0));
    }
}

/// The rest of a list of statements leaves no more to read.
pub proof fn lemma_more_statements_settles(p: ParserView, read: Seq<AstView>)
    ensures
        settled(p, more_statements(p, read).state),
    decreases remaining(p), 1int,
{
    lemma_advance_settles(p);
    if p.current is EndLine && advance(p).outcome is Ok {
        let line = advance(p);
        let next = statement(line.state);
        lemma_statement_settles(line.state);
        if next.outcome is Ok {
            let kept = if next.outcome->Ok_0 is NoOp {
                read
            } else {
                read.push(next.outcome->Ok_0)
            };
            lemma_more_statements_settles(next.state, kept);
        }
    }
}

} // verus!
