//! The parser: recursive descent over the tokens, after the grammar.

use vstd::prelude::*;
use vstd::string::StringExecFns;
use std::rc::Rc;
use crate::ast::{AstView, lemma_views_empty, lemma_views_push, texts, views};
use crate::grammar::{
    Opening, Parsed, ParserView, advance, argument_list, arguments, assigned, assignment, block,
    call, comparisons, declaration, expect, expectation, expr, factor, guarded, inner_block,
    lemma_advance_settles, literal_value, more_statements, named_statement, opened,
    parameter_list, parameters,
    parse, products, program, remaining, returned, settled, signature, start, statement,
    statement_list, sums, term, unexpected, variable, variable_or_call, worded_assignment,
};
use crate::lexer::{Keyword, Lexer, LexerError, LexerErrorView, Token};
use crate::text::{push_decimal, quote};

pub use crate::ast::{ASTNode, CompareType, Value};

verus! {

/// The view of a result that holds nothing.
pub open spec fn done_view(result: Result<(), LexerError>) -> Result<(), LexerErrorView> {
    match result {
        Ok(_) => Ok(()),
        Err(error) => Err(error@),
    }
}

/// The view of a result that holds a node.
pub open spec fn node_view(result: Result<ASTNode, LexerError>) -> Result<AstView, LexerErrorView> {
    match result {
        Ok(node) => Ok(node@),
        Err(error) => Err(error@),
    }
}

/// The view of a result that holds a list of nodes.
pub open spec fn nodes_view(result: Result<Vec<ASTNode>, LexerError>) -> Result<
    Seq<AstView>,
    LexerErrorView,
> {
    match result {
        Ok(nodes) => Ok(views(nodes@)),
        Err(error) => Err(error@),
    }
}

/// Whether a parser that started in `before` has done what the grammar
/// says: it stands where `target` says, with the outcome that `target` has.
pub open spec fn follows<T>(
    before: ParserView,
    after: ParserView,
    outcome: Result<T, LexerErrorView>,
    target: Parsed<T>,
) -> bool {
    &&& after == target.state
    &&& outcome == target.outcome
    &&& settled(before, after)
}

/// The words by which an error names the token that it wanted.
pub fn expected_text(token: &Token) -> (text: String)
    ensures
        text@ == expectation(token@),
{
    proof {
        reveal(expectation);
    }
    match token {
        Token::ReservedKeyword(keyword) => match keyword {
            Keyword::Greeting => String::from_str("ReservedKeyword(Greeting)"),
            Keyword::Farewell => String::from_str("ReservedKeyword(Farewell)"),
            Keyword::Avo => String::from_str("ReservedKeyword(Avo)"),
            Keyword::Cado => String::from_str("ReservedKeyword(Cado)"),
            Keyword::Function => String::from_str("ReservedKeyword(Function)"),
            Keyword::Return => String::from_str("ReservedKeyword(Return)"),
            Keyword::Loop => String::from_str("ReservedKeyword(Loop)"),
            Keyword::Equals => String::from_str("ReservedKeyword(Equals)"),
            Keyword::Less => String::from_str("ReservedKeyword(Less)"),
            Keyword::Greater => String::from_str("ReservedKeyword(Greater)"),
            Keyword::AssignPrefix => String::from_str("ReservedKeyword(AssignPrefix)"),
            Keyword::AssignInfix => String::from_str("ReservedKeyword(AssignInfix)"),
            Keyword::If => String::from_str("ReservedKeyword(If)"),
        },
        Token::ID { string } => {
            let mut text: String = String::from_str("ID { string: ");
            text.append(quote(string.as_str()).as_str());
            text.append(" }");
            text
        },
        Token::Integer(n) => {
            let mut text: String = String::from_str("Integer(");
            push_decimal(&mut text, *n as u64);
            text.append(")");
            text
        },
        Token::String(s) => {
            let mut text: String = String::from_str("String(");
            text.append(quote(s.as_str()).as_str());
            text.append(")");
            text
        },
        Token::Boolean(b) => if *b {
            String::from_str("Boolean(true)")
        } else {
            String::from_str("Boolean(false)")
        },
        Token::Comma => String::from_str("Comma"),
        Token::Plus => String::from_str("Plus"),
        Token::Minus => String::from_str("Minus"),
        Token::Multiply => String::from_str("Multiply"),
        Token::Divide => String::from_str("Divide"),
        Token::ParentheseOpen => String::from_str("ParentheseOpen"),
        Token::ParentheseClose => String::from_str("ParentheseClose"),
        Token::EndLine => String::from_str("EndLine"),
        Token::Assign => String::from_str("Assign"),
        Token::EOF => String::from_str("EOF"),
    }
}

/// The integer that a literal stands for.
pub fn literal_integer(n: u32) -> (value: i32)
    ensures
        value == literal_value(n),
{
    if n <= 0x7fff_ffff {
        n as i32
    } else {
        (n as i64 - 0x1_0000_0000i64) as i32
    }
}

/// The parser: a tokenizer and the token that it has read last.
pub struct Parser {
    current_token: Token,
    lexer: Lexer,
}

impl View for Parser {
    type V = ParserView;

    closed spec fn view(&self) -> ParserView {
        ParserView {
            text: self.lexer@.text,
            position: self.lexer@.position,
            current: self.current_token@,
        }
    }
}

impl Parser {
    /// A parser on what `lexer` still has to read.
    pub fn new(lexer: Lexer) -> (parser: Parser)
        ensures
            parser@ == start(lexer@),
    {
        let mut parser = Parser { lexer, current_token: Token::EOF };
        match parser.lexer.get_next_token() {
            Ok(token) => {
                parser.current_token = token;
            },
            Err(_) => {},
        }
        parser
    }

    fn unexpected_token(&self, expected: &str) -> (error: LexerError)
        ensures
            error@ == unexpected(self@.current, expected@),
    {
        LexerError::UnexpectedToken {
            found: self.current_token.duplicate(),
            expected: String::from_str(expected),
        }
    }

    fn consume_token(&mut self) -> (result: Result<(), LexerError>)
        ensures
            follows(old(self)@, final(self)@, done_view(result), advance(old(self)@)),
            result is Ok && !(old(self)@.current is EOF) ==> remaining(final(self)@) < remaining(
                old(self)@,
            ),
    {
        proof {
            lemma_advance_settles(self@);
        }
        match self.lexer.get_next_token() {
            Ok(token) => {
                self.current_token = token;
                Ok(())
            },
            Err(error) => Err(error),
        }
    }

    fn consume(&mut self, token: Token) -> (result: Result<(), LexerError>)
        ensures
            follows(old(self)@, final(self)@, done_view(result), expect(old(self)@, token@)),
            result is Ok && !(token@ is EOF) ==> remaining(final(self)@) < remaining(old(self)@),
    {
        if self.current_token.same(&token) {
            self.consume_token()
        } else {
            Err(
                LexerError::UnexpectedToken {
                    found: self.current_token.duplicate(),
                    expected: expected_text(&token),
                },
            )
        }
    }

    fn variable(&mut self) -> (result: Result<ASTNode, LexerError>)
        ensures
            follows(old(self)@, final(self)@, node_view(result), variable(old(self)@)),
            result is Ok ==> remaining(final(self)@) < remaining(old(self)@),
    {
        let name: Option<String> = match &self.current_token {
            Token::ID { string } => Some(string.clone()),
            _ => None,
        };
        match name {
            Some(name) => match self.consume_token() {
                Ok(_) => Ok(ASTNode::Variable { name }),
                Err(error) => Err(error),
            },
            None => Err(self.unexpected_token("Variable")),
        }
    }

    fn function_call_or_variable(&mut self) -> (result: Result<ASTNode, LexerError>)
        ensures
            follows(old(self)@, final(self)@, node_view(result), variable_or_call(old(self)@)),
        decreases remaining(old(self)@), 2int,
    {
        match self.variable() {
            Ok(node) => {
                if self.current_token.same(&Token::ParentheseOpen) {
                    self.functioncall_statement(node)
                } else {
                    Ok(node)
                }
            },
            Err(error) => Err(error),
        }
    }

    fn literal(&mut self, value: Value) -> (result: Result<ASTNode, LexerError>)
        ensures
            follows(
                old(self)@,
                final(self)@,
                node_view(result),
                crate::grammar::literal(old(self)@, value@),
            ),
    {
        match self.consume_token() {
            Ok(_) => Ok(ASTNode::Value { value }),
            Err(error) => Err(error),
        }
    }

    fn factor(&mut self) -> (result: Result<ASTNode, LexerError>)
        ensures
            follows(old(self)@, final(self)@, node_view(result), factor(old(self)@)),
        decreases remaining(old(self)@), 3int,
    {
        if self.current_token.same(&Token::Plus) || self.current_token.same(&Token::Minus) {
            let sign: Token = self.current_token.duplicate();
            match self.consume_token() {
                Ok(_) => {},
                Err(error) => {
                    return Err(error);
                },
            }
            return match self.factor() {
                Ok(node) => Ok(ASTNode::UnaryOp { expression: Rc::new(node), token: sign }),
                Err(error) => Err(error),
            };
        }
        let value: Option<Value> = match &self.current_token {
            Token::Integer(n) => Some(Value::Integer(literal_integer(*n))),
            Token::String(s) => Some(Value::String(s.clone())),
            Token::Boolean(b) => Some(Value::Boolean(*b)),
            _ => None,
        };
        match value {
            Some(value) => self.literal(value),
            None => {
                if self.current_token.same(&Token::ParentheseOpen) {
                    match self.consume(Token::ParentheseOpen) {
                        Ok(_) => {},
                        Err(error) => {
                            return Err(error);
                        },
                    }
                    let node: ASTNode = match self.expr() {
                        Ok(node) => node,
                        Err(error) => {
                            return Err(error);
                        },
                    };
                    match self.consume(Token::ParentheseClose) {
                        Ok(_) => Ok(node),
                        Err(error) => Err(error),
                    }
                } else {
                    self.function_call_or_variable()
                }
            },
        }
    }

    fn term(&mut self) -> (result: Result<ASTNode, LexerError>)
        ensures
            follows(old(self)@, final(self)@, node_view(result), term(old(self)@)),
        decreases remaining(old(self)@), 4int,
    {
        let mut node: ASTNode = match self.factor() {
            Ok(node) => node,
            Err(error) => {
                return Err(error);
            },
        };
        while self.current_token.same(&Token::Multiply) || self.current_token.same(
            &Token::Divide,
        )
            invariant
                products(self@, node@) == term(old(self)@),
                settled(old(self)@, self@),
            decreases remaining(self@),
        {
            let operator: Token = self.current_token.duplicate();
            match self.consume_token() {
                Ok(_) => {},
                Err(error) => {
                    return Err(error);
                },
            }
            let right: ASTNode = match self.factor() {
                Ok(right) => right,
                Err(error) => {
                    return Err(error);
                },
            };
            node = ASTNode::BinOp { left: Rc::new(node), right: Rc::new(right), token: operator };
        }
        loop
            invariant
                comparisons(self@, node@) == term(old(self)@),
                settled(old(self)@, self@),
            ensures
                follows(old(self)@, self@, Ok::<AstView, LexerErrorView>(node@), term(old(self)@)),
            decreases remaining(self@),
        {
            let compare_type: CompareType = match &self.current_token {
                Token::ReservedKeyword(Keyword::Equals) => CompareType::Equals,
                Token::ReservedKeyword(Keyword::Less) => CompareType::Less,
                Token::ReservedKeyword(Keyword::Greater) => CompareType::Greater,
                _ => {
                    break ;
                },
            };
            match self.consume_token() {
                Ok(_) => {},
                Err(error) => {
                    return Err(error);
                },
            }
            let right: ASTNode = match self.factor() {
                Ok(right) => right,
                Err(error) => {
                    return Err(error);
                },
            };
            node = ASTNode::Compare { left: Rc::new(node), right: Rc::new(right), compare_type };
        }
        Ok(node)
    }

    fn expr(&mut self) -> (result: Result<ASTNode, LexerError>)
        ensures
            follows(old(self)@, final(self)@, node_view(result), expr(old(self)@)),
        decreases remaining(old(self)@), 5int,
    {
        let mut node: ASTNode = match self.term() {
            Ok(node) => node,
            Err(error) => {
                return Err(error);
            },
        };
        while self.current_token.same(&Token::Plus) || self.current_token.same(&Token::Minus)
            invariant
                sums(self@, node@) == expr(old(self)@),
                settled(old(self)@, self@),
            decreases remaining(self@),
        {
            let operator: Token = self.current_token.duplicate();
            match self.consume_token() {
                Ok(_) => {},
                Err(error) => {
                    return Err(error);
                },
            }
            let right: ASTNode = match self.term() {
                Ok(right) => right,
                Err(error) => {
                    return Err(error);
                },
            };
            node = ASTNode::BinOp { left: Rc::new(node), right: Rc::new(right), token: operator };
        }
        Ok(node)
    }

    fn empty(&mut self) -> (node: ASTNode)
        ensures
            node@ is NoOp,
            final(self)@ == old(self)@,
    {
        ASTNode::NoOp
    }

    fn functioncall_statement(&mut self, function: ASTNode) -> (result: Result<
        ASTNode,
        LexerError,
    >)
        ensures
            follows(old(self)@, final(self)@, node_view(result), call(old(self)@, function@)),
        decreases remaining(old(self)@), 1int,
    {
        match self.consume(Token::ParentheseOpen) {
            Ok(_) => {},
            Err(error) => {
                return Err(error);
            },
        }
        let parameters: Vec<ASTNode> = match self.argument_list() {
            Ok(parameters) => parameters,
            Err(error) => {
                return Err(error);
            },
        };
        let ghost list = views(parameters@);
        let ghost callee = function@;
        let closed = self.consume(Token::ParentheseClose);
        let node = ASTNode::FunctionCall { function: Rc::new(function), parameters };
        assert(node@ == AstView::FunctionCall { function: Box::new(callee), parameters: list });
        match closed {
            Ok(_) => Ok(node),
            Err(error) => Err(error),
        }
    }

    fn argument_list(&mut self) -> (result: Result<Vec<ASTNode>, LexerError>)
        ensures
            follows(old(self)@, final(self)@, nodes_view(result), argument_list(old(self)@)),
        decreases remaining(old(self)@), 7int,
    {
        if self.current_token.same(&Token::ParentheseClose) {
            let none: Vec<ASTNode> = Vec::new();
            proof {
                lemma_views_empty(none@);
            }
            Ok(none)
        } else {
            self.arguments()
        }
    }

    fn arguments(&mut self) -> (result: Result<Vec<ASTNode>, LexerError>)
        ensures
            follows(
                old(self)@,
                final(self)@,
                nodes_view(result),
                arguments(old(self)@, Seq::<AstView>::empty()),
            ),
        decreases remaining(old(self)@), 6int,
    {
        let mut parameters: Vec<ASTNode> = Vec::new();
        let ghost target = arguments(self@, Seq::<AstView>::empty());
        proof {
            lemma_views_empty(parameters@);
        }
        loop
            invariant_except_break
                arguments(self@, views(parameters@)) == target,
            invariant
                target == arguments(old(self)@, Seq::<AstView>::empty()),
                settled(old(self)@, self@),
            ensures
                follows(
                    old(self)@,
                    self@,
                    Ok::<Seq<AstView>, LexerErrorView>(views(parameters@)),
                    target,
                ),
            decreases remaining(self@),
        {
            let parameter: ASTNode = match self.expr() {
                Ok(parameter) => parameter,
                Err(error) => {
                    return Err(error);
                },
            };
            proof {
                lemma_views_push(parameters@, parameter);
            }
            parameters.push(parameter);
            if !self.current_token.same(&Token::Comma) {
                break ;
            }
            match self.consume(Token::Comma) {
                Ok(_) => {},
                Err(error) => {
                    return Err(error);
                },
            }
        }
        Ok(parameters)
    }

    fn assigned(&mut self, left: ASTNode) -> (result: Result<ASTNode, LexerError>)
        ensures
            follows(old(self)@, final(self)@, node_view(result), assigned(old(self)@, left@)),
    {
        proof {
            reveal(assigned);
        }
        match self.expr() {
            Ok(right) => Ok(ASTNode::Assign { left: Rc::new(left), right: Rc::new(right) }),
            Err(error) => Err(error),
        }
    }

    fn assignment_statement(&mut self, left: ASTNode) -> (result: Result<ASTNode, LexerError>)
        ensures
            follows(old(self)@, final(self)@, node_view(result), assignment(old(self)@, left@)),
    {
        proof {
            reveal(assignment);
        }
        match self.consume(Token::Assign) {
            Ok(_) => self.assigned(left),
            Err(error) => Err(error),
        }
    }

    fn parameters(&mut self) -> (result: Result<Vec<String>, LexerError>)
        ensures
            follows(
                old(self)@,
                final(self)@,
                match result {
                    Ok(names) => Ok(texts(names@)),
                    Err(error) => Err(error@),
                },
                parameters(old(self)@, Seq::<Seq<char>>::empty()),
            ),
    {
        let mut names: Vec<String> = Vec::new();
        assert(texts(names@) =~= Seq::<Seq<char>>::empty());
        loop
            invariant_except_break
                parameters(self@, texts(names@)) == parameters(
                    old(self)@,
                    Seq::<Seq<char>>::empty(),
                ),
            invariant
                settled(old(self)@, self@),
            ensures
                follows(
                    old(self)@,
                    self@,
                    Ok::<Seq<Seq<char>>, LexerErrorView>(texts(names@)),
                    parameters(old(self)@, Seq::<Seq<char>>::empty()),
                ),
            decreases remaining(self@),
        {
            let name: String = match &self.current_token {
                Token::ID { string } => string.clone(),
                _ => {
                    return Err(self.unexpected_token("ID for ParameterName"));
                },
            };
            match self.consume_token() {
                Ok(_) => {},
                Err(error) => {
                    return Err(error);
                },
            }
            let ghost read = texts(names@);
            names.push(name);
            assert(texts(names@) =~= read.push(name@));
            if !self.current_token.same(&Token::Comma) {
                break ;
            }
            match self.consume_token() {
                Ok(_) => {},
                Err(error) => {
                    return Err(error);
                },
            }
        }
        Ok(names)
    }

    fn parameter_list(&mut self) -> (result: Result<Vec<String>, LexerError>)
        ensures
            follows(
                old(self)@,
                final(self)@,
                match result {
                    Ok(names) => Ok(texts(names@)),
                    Err(error) => Err(error@),
                },
                parameter_list(old(self)@),
            ),
    {
        if self.current_token.same(&Token::ParentheseClose) {
            let none: Vec<String> = Vec::new();
            assert(texts(none@) =~= Seq::<Seq<char>>::empty());
            Ok(none)
        } else {
            self.parameters()
        }
    }

    fn signature(&mut self) -> (result: Result<(String, Vec<String>), LexerError>)
        ensures
            follows(
                old(self)@,
                final(self)@,
                match result {
                    Ok(head) => Ok((head.0@, texts(head.1@))),
                    Err(error) => Err(error@),
                },
                signature(old(self)@),
            ),
    {
        proof {
            reveal(signature);
        }
        let name: String = match &self.current_token {
            Token::ID { string } => string.clone(),
            _ => {
                return Err(self.unexpected_token("ID for FunctionName"));
            },
        };
        match self.consume_token() {
            Ok(_) => {},
            Err(error) => {
                return Err(error);
            },
        }
        match self.consume(Token::ParentheseOpen) {
            Ok(_) => {},
            Err(error) => {
                return Err(error);
            },
        }
        let names: Vec<String> = match self.parameter_list() {
            Ok(names) => names,
            Err(error) => {
                return Err(error);
            },
        };
        match self.consume(Token::ParentheseClose) {
            Ok(_) => Ok((name, names)),
            Err(error) => Err(error),
        }
    }

    fn named_statement(&mut self) -> (result: Result<ASTNode, LexerError>)
        ensures
            follows(old(self)@, final(self)@, node_view(result), named_statement(old(self)@)),
    {
        proof {
            reveal(named_statement);
        }
        let left: ASTNode = match self.variable() {
            Ok(left) => left,
            Err(error) => {
                return Err(error);
            },
        };
        if self.current_token.same(&Token::Assign) {
            self.assignment_statement(left)
        } else if self.current_token.same(&Token::ParentheseOpen) {
            self.functioncall_statement(left)
        } else {
            Ok(self.empty())
        }
    }

    fn worded_assignment(&mut self) -> (result: Result<ASTNode, LexerError>)
        ensures
            follows(old(self)@, final(self)@, node_view(result), worded_assignment(old(self)@)),
    {
        proof {
            reveal(worded_assignment);
        }
        let left: ASTNode = match self.variable() {
            Ok(left) => left,
            Err(error) => {
                return Err(error);
            },
        };
        match self.consume(Token::ReservedKeyword(Keyword::AssignInfix)) {
            Ok(_) => self.assigned(left),
            Err(error) => Err(error),
        }
    }

    fn returned(&mut self) -> (result: Result<ASTNode, LexerError>)
        ensures
            follows(old(self)@, final(self)@, node_view(result), returned(old(self)@)),
    {
        proof {
            reveal(returned);
        }
        match self.expr() {
            Ok(node) => Ok(ASTNode::Return { expression: Rc::new(node) }),
            Err(error) => Err(error),
        }
    }

    fn guarded(&mut self, repeats: bool) -> (result: Result<ASTNode, LexerError>)
        ensures
            follows(old(self)@, final(self)@, node_view(result), guarded(old(self)@, repeats)),
        decreases remaining(old(self)@), 4int,
    {
        let condition: ASTNode = match self.expr() {
            Ok(node) => node,
            Err(error) => {
                return Err(error);
            },
        };
        match self.inner_block_statement() {
            Ok(block) => if repeats {
                Ok(ASTNode::Loop { condition: Rc::new(condition), execution: Rc::new(block) })
            } else {
                Ok(ASTNode::If { condition: Rc::new(condition), execution: Rc::new(block) })
            },
            Err(error) => Err(error),
        }
    }

    fn declaration(&mut self) -> (result: Result<ASTNode, LexerError>)
        ensures
            follows(old(self)@, final(self)@, node_view(result), declaration(old(self)@)),
        decreases remaining(old(self)@), 4int,
    {
        let head: (String, Vec<String>) = match self.signature() {
            Ok(head) => head,
            Err(error) => {
                return Err(error);
            },
        };
        match self.inner_block_statement() {
            Ok(block) => Ok(
                ASTNode::FunctionDeclaration {
                    name: head.0,
                    parameters: head.1,
                    execution_block: Rc::new(block),
                },
            ),
            Err(error) => Err(error),
        }
    }

    fn opened(&mut self, kind: Opening) -> (result: Result<ASTNode, LexerError>)
        ensures
            follows(old(self)@, final(self)@, node_view(result), opened(old(self)@, kind)),
        decreases remaining(old(self)@), 5int,
    {
        match kind {
            Opening::Conditional => self.guarded(false),
            Opening::Repetition => self.guarded(true),
            Opening::Declaration => self.declaration(),
            Opening::Assignment => self.worded_assignment(),
            Opening::Return => self.returned(),
        }
    }

    fn statement(&mut self) -> (result: Result<ASTNode, LexerError>)
        ensures
            follows(old(self)@, final(self)@, node_view(result), statement(old(self)@)),
        decreases remaining(old(self)@), 2int,
    {
        let kind: Option<Opening> = match &self.current_token {
            Token::ID { .. } => {
                return self.named_statement();
            },
            Token::ReservedKeyword(Keyword::If) => Some(Opening::Conditional),
            Token::ReservedKeyword(Keyword::Loop) => Some(Opening::Repetition),
            Token::ReservedKeyword(Keyword::Function) => Some(Opening::Declaration),
            Token::ReservedKeyword(Keyword::AssignPrefix) => Some(Opening::Assignment),
            Token::ReservedKeyword(Keyword::Return) => Some(Opening::Return),
            _ => None,
        };
        match kind {
            Some(kind) => match self.consume_token() {
                Ok(_) => self.opened(kind),
                Err(error) => Err(error),
            },
            None => Ok(self.empty()),
        }
    }

    fn statement_list(&mut self) -> (result: Result<Vec<ASTNode>, LexerError>)
        ensures
            follows(old(self)@, final(self)@, nodes_view(result), statement_list(old(self)@)),
        decreases remaining(old(self)@), 3int,
    {
        let node: ASTNode = match self.statement() {
            Ok(node) => node,
            Err(error) => {
                return Err(error);
            },
        };
        let mut nodes: Vec<ASTNode> = Vec::new();
        proof {
            lemma_views_empty(nodes@);
        }
        if !node.is_noop() {
            proof {
                lemma_views_push(nodes@, node);
            }
            nodes.push(node);
        }
        while self.current_token.same(&Token::EndLine)
            invariant
                more_statements(self@, views(nodes@)) == statement_list(old(self)@),
                settled(old(self)@, self@),
            decreases remaining(self@),
        {
            match self.consume(Token::EndLine) {
                Ok(_) => {},
                Err(error) => {
                    return Err(error);
                },
            }
            let statement: ASTNode = match self.statement() {
                Ok(statement) => statement,
                Err(error) => {
                    return Err(error);
                },
            };
            if !statement.is_noop() {
                proof {
                    lemma_views_push(nodes@, statement);
                }
                nodes.push(statement);
            }
        }
        Ok(nodes)
    }

    fn inner_block_statement(&mut self) -> (result: Result<ASTNode, LexerError>)
        ensures
            follows(old(self)@, final(self)@, node_view(result), inner_block(old(self)@)),
        decreases remaining(old(self)@), 1int,
    {
        if self.current_token.same(&Token::EndLine) {
            match self.consume_token() {
                Ok(_) => {},
                Err(error) => {
                    return Err(error);
                },
            }
        }
        match self.consume(Token::ReservedKeyword(Keyword::Avo)) {
            Ok(_) => {},
            Err(error) => {
                return Err(error);
            },
        }
        let nodes: Vec<ASTNode> = match self.statement_list() {
            Ok(nodes) => nodes,
            Err(error) => {
                return Err(error);
            },
        };
        let ghost children = views(nodes@);
        let closed = self.consume(Token::ReservedKeyword(Keyword::Cado));
        let node = ASTNode::Block { children: nodes };
        assert(node@ == AstView::Block { children });
        match closed {
            Ok(_) => Ok(node),
            Err(error) => Err(error),
        }
    }

    fn block_statement(&mut self) -> (result: Result<ASTNode, LexerError>)
        ensures
            follows(old(self)@, final(self)@, node_view(result), block(old(self)@)),
    {
        proof {
            reveal(block);
        }
        match self.statement_list() {
            Ok(nodes) => {
                let ghost children = views(nodes@);
                let node = ASTNode::Block { children: nodes };
                assert(node@ == AstView::Block { children });
                Ok(node)
            },
            Err(error) => Err(error),
        }
    }

    fn program(&mut self) -> (result: Result<ASTNode, LexerError>)
        ensures
            follows(old(self)@, final(self)@, node_view(result), program(old(self)@)),
    {
        proof {
            reveal(program);
        }
        match self.consume(Token::ReservedKeyword(Keyword::Greeting)) {
            Ok(_) => {},
            Err(error) => {
                return Err(error);
            },
        }
        match self.consume(Token::EndLine) {
            Ok(_) => {},
            Err(error) => {
                return Err(error);
            },
        }
        let node: ASTNode = match self.block_statement() {
            Ok(node) => node,
            Err(error) => {
                return Err(error);
            },
        };
        match self.consume(Token::ReservedKeyword(Keyword::Farewell)) {
            Ok(_) => Ok(node),
            Err(error) => Err(error),
        }
    }

    /// Reads a whole program: the greeting, a line break, the statements
    /// and the farewell, with nothing behind it. The tree is that of the
    /// grammar, and so is the error where the text is no program.
    pub fn parse(&mut self) -> (result: Result<ASTNode, LexerError>)
        ensures
            final(self)@ == parse(old(self)@).state,
            node_view(result) == parse(old(self)@).outcome,
    {
        proof {
            reveal(parse);
        }
        let node: ASTNode = match self.program() {
            Ok(node) => node,
            Err(error) => {
                return Err(error);
            },
        };
        if !self.current_token.same(&Token::EOF) {
            Err(self.unexpected_token("EOF"))
        } else {
            Ok(node)
        }
    }
}

} // verus!
