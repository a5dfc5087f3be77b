//! From a tree back to tokens: the tokens that a tree is written with, and
//! the proof that every text which spells them is parsed to that tree.

use vstd::prelude::*;
use vstd::string::StringExecFns;
use crate::ast::{ASTNode, AstView, CompareType, Value, ValueView, lemma_views, texts, views};
use crate::grammar::{
    Parsed, ParserView, advance, argument_list, arguments, assigned, assignment, block, call,
    comparison, comparisons, declaration, expect, expr, factor, guarded, inner_block, is_product,
    is_sign, lemma_advance_settles, lemma_expr_settles, lemma_factor_settles,
    lemma_statement_settles, lemma_term_settles, literal_value, more_statements,
    named_statement, opened, opening, parameter_list, parameters, parse, products, program,
    returned,
    signature, statement, statement_list, sums, term, variable, variable_or_call,
    worded_assignment,
};
use crate::lexer::{Keyword, Lexer, Token, TokenView};
use crate::text::{decimal_digits, push_decimal};

verus! {

/// The literal that stands for an integer: the integer where it is not
/// negative, and else the number with the same 32 bits.
pub open spec fn unsigned(v: i32) -> u32 {
    if v >= 0 {
        v as u32
    } else {
        (v + 0x1_0000_0000) as u32
    }
}

/// The token of a literal.
pub open spec fn literal_token(value: ValueView) -> TokenView {
    match value {
        ValueView::Integer(v) => TokenView::Integer(unsigned(v)),
        ValueView::String(s) => TokenView::String(s),
        ValueView::Boolean(b) => TokenView::Boolean(b),
        ValueView::Nothing => TokenView::EOF,
    }
}

/// The keyword of a comparison.
pub open spec fn comparison_token(kind: CompareType) -> TokenView {
    match kind {
        CompareType::Equals => TokenView::ReservedKeyword(Keyword::Equals),
        CompareType::Less => TokenView::ReservedKeyword(Keyword::Less),
        CompareType::Greater => TokenView::ReservedKeyword(Keyword::Greater),
    }
}

/// Whether a node joins two operands with `+` or `-`.
pub open spec fn is_sum(n: AstView) -> bool {
    n matches AstView::BinOp { token, .. } && is_sign(token)
}

/// Whether a node joins two operands with `*` or `/`.
pub open spec fn is_product_of(n: AstView) -> bool {
    n matches AstView::BinOp { token, .. } && is_product(token)
}

/// Whether a tree is an expression as the parser builds them.
pub open spec fn is_expression(n: AstView) -> bool
    decreases n,
{
    match n {
        AstView::UnaryOp { expression, token } => is_sign(token) && is_expression(*expression),
        AstView::BinOp { left, right, token } => (is_sign(token) || is_product(token))
            && is_expression(*left) && is_expression(*right),
        AstView::Compare { left, right, .. } => is_expression(*left) && is_expression(*right),
        AstView::Value { value } => !(value is Nothing),
        AstView::Variable { .. } => true,
        AstView::FunctionCall { function, parameters } => *function is Variable && forall|i: int|
            0 <= i < parameters.len() ==> is_expression(#[trigger] parameters[i]),
        _ => false,
    }
}

/// Whether a tree is a statement as the parser builds them.
pub open spec fn is_statement(n: AstView) -> bool
    decreases n,
{
    match n {
        AstView::Assign { left, right } => *left is Variable && is_expression(*right),
        AstView::FunctionCall { .. } => is_expression(n),
        AstView::If { condition, execution } => is_expression(*condition) && is_block(*execution),
        AstView::Loop { condition, execution } => is_expression(*condition) && is_block(
            *execution,
        ),
        AstView::FunctionDeclaration { execution_block, .. } => is_block(*execution_block),
        AstView::Return { expression } => is_expression(*expression),
        AstView::NoOp => true,
        _ => false,
    }
}

/// Whether a tree is a block as the parser builds them: a list of
/// statements, none of them empty.
pub open spec fn is_block(n: AstView) -> bool
    decreases n,
{
    match n {
        AstView::Block { children } => forall|i: int|
            0 <= i < children.len() ==> is_statement(#[trigger] children[i]) && !(children[i]
                is NoOp),
        _ => false,
    }
}

/// The tokens of an operation with its two operands, without parentheses
/// around it.
pub open spec fn joined_tokens(n: AstView) -> Seq<TokenView>
    decreases n, 0int,
{
    match n {
        AstView::BinOp { left, right, token } => if is_sign(token) {
            expr_tokens(*left) + seq![token] + term_tokens(*right)
        } else {
            product_tokens(*left) + seq![token] + factor_tokens(*right)
        },
        AstView::Compare { left, right, compare_type } => term_tokens(*left) + seq![
            comparison_token(compare_type),
        ] + factor_tokens(*right),
        _ => Seq::empty(),
    }
}

/// The tokens of an expression where a factor is read: operations stand in
/// parentheses.
pub open spec fn factor_tokens(n: AstView) -> Seq<TokenView>
    decreases n, 1int,
{
    match n {
        AstView::UnaryOp { expression, token } => seq![token] + factor_tokens(*expression),
        AstView::Value { value } => seq![literal_token(value)],
        AstView::Variable { name } => seq![TokenView::ID { string: name }],
        AstView::FunctionCall { function, parameters } => call_tokens(*function, parameters),
        AstView::BinOp { .. } | AstView::Compare { .. } => seq![TokenView::ParentheseOpen]
            + joined_tokens(n) + seq![TokenView::ParentheseClose],
        _ => Seq::empty(),
    }
}

/// The tokens of a call: the name, and the arguments in parentheses.
pub open spec fn call_tokens(function: AstView, parameters: Seq<AstView>) -> Seq<TokenView>
    decreases parameters, 1int,
{
    match function {
        AstView::Variable { name } => seq![
            TokenView::ID { string: name },
            TokenView::ParentheseOpen,
        ] + argument_tokens(parameters) + seq![TokenView::ParentheseClose],
        _ => Seq::empty(),
    }
}

/// The tokens of the arguments of a call, with commas between them.
pub open spec fn argument_tokens(parameters: Seq<AstView>) -> Seq<TokenView>
    decreases parameters, 0int,
{
    if parameters.len() == 0 {
        Seq::empty()
    } else if parameters.len() == 1 {
        expr_tokens(parameters[0])
    } else {
        expr_tokens(parameters[0]) + seq![TokenView::Comma] + argument_tokens(
            parameters.drop_first(),
        )
    }
}

/// The tokens of an expression where a chain of `*` and `/` is read.
pub open spec fn product_tokens(n: AstView) -> Seq<TokenView>
    decreases n, 2int,
{
    if is_product_of(n) {
        joined_tokens(n)
    } else {
        factor_tokens(n)
    }
}

/// The tokens of an expression where a term is read.
pub open spec fn term_tokens(n: AstView) -> Seq<TokenView>
    decreases n, 3int,
{
    if n is Compare {
        joined_tokens(n)
    } else {
        product_tokens(n)
    }
}

/// The tokens of an expression.
pub open spec fn expr_tokens(n: AstView) -> Seq<TokenView>
    decreases n, 4int,
{
    if is_sum(n) {
        joined_tokens(n)
    } else {
        term_tokens(n)
    }
}


/// Whether a parser sees these tokens ahead of it, the first of them being
/// the token that it looks at.
pub open spec fn reads(p: ParserView, tokens: Seq<TokenView>) -> bool
    decreases tokens.len(),
{
    tokens.len() == 0 || (p.current == tokens[0] && (tokens.len() > 1 ==> advance(p).outcome is Ok
        && reads(advance(p).state, tokens.drop_first())))
}

/// A parser that sees tokens ahead looks at the first and, behind it, sees
/// the others.
pub proof fn lemma_reads_on(p: ParserView, first: TokenView, others: Seq<TokenView>)
    requires
        reads(p, seq![first] + others),
        others.len() > 0,
    ensures
        p.current == first,
        advance(p).outcome is Ok,
        reads(advance(p).state, others),
        expect(p, first) == advance(p),
{
    let tokens = seq![first] + others;
    assert(tokens[0] == first);
    assert(tokens.drop_first() =~= others);
}

/// The token that a parser looks at where it sees tokens ahead.
pub proof fn lemma_reads_first(p: ParserView, tokens: Seq<TokenView>)
    requires
        reads(p, tokens),
        tokens.len() > 0,
    ensures
        p.current == tokens[0],
{
}

/// Whether a token can follow an expression: it is no operator, and no
/// parenthesis that would open the arguments of a call.
pub open spec fn ends_expression(token: TokenView) -> bool {
    ends_term(token) && !is_sign(token)
}

/// Whether a token can follow a term.
pub open spec fn ends_term(token: TokenView) -> bool {
    ends_factor(token) && !is_product(token) && comparison(token) is None
}

/// Whether a token can follow a factor.
pub open spec fn ends_factor(token: TokenView) -> bool {
    !(token is ParentheseOpen)
}

/// How far a lemma about a level of the grammar is from the level at which
/// a node is resolved. The levels, from the innermost: factors 0, products
/// 1, comparisons 2, terms 3, sums 4, expressions 5.
pub open spec fn distance(level: int, n: AstView) -> int {
    let home: int = if is_sum(n) {
        4
    } else if n is Compare {
        2
    } else if is_product_of(n) {
        1
    } else {
        0
    };
    (level - home + 6) % 6
}

/// How the tokens of an expression at one level of the grammar come from
/// those at the next.
pub proof fn lemma_levels(n: AstView)
    ensures
        expr_tokens(n) == if is_sum(n) {
            joined_tokens(n)
        } else {
            term_tokens(n)
        },
        term_tokens(n) == if n is Compare {
            joined_tokens(n)
        } else {
            product_tokens(n)
        },
        product_tokens(n) == if is_product_of(n) {
            joined_tokens(n)
        } else {
            factor_tokens(n)
        },
        n is BinOp || n is Compare ==> factor_tokens(n) == seq![TokenView::ParentheseOpen]
            + joined_tokens(n) + seq![TokenView::ParentheseClose],
        is_sum(n) ==> joined_tokens(n) == expr_tokens(*n->BinOp_left) + seq![n->BinOp_token]
            + term_tokens(*n->BinOp_right),
        is_product_of(n) ==> joined_tokens(n) == product_tokens(*n->BinOp_left) + seq![
            n->BinOp_token,
        ] + factor_tokens(*n->BinOp_right),
        n is Compare ==> joined_tokens(n) == term_tokens(*n->Compare_left) + seq![
            comparison_token(n->compare_type),
        ] + factor_tokens(*n->Compare_right),
        n matches AstView::FunctionCall { function, parameters } ==> (*function
            matches AstView::Variable { name } ==> factor_tokens(n) == seq![
            TokenView::ID { string: name },
            TokenView::ParentheseOpen,
        ] + argument_tokens(parameters) + seq![TokenView::ParentheseClose]),
{
    reveal_with_fuel(factor_tokens, 2);
}

/// The literal of an integer stands for that integer.
pub proof fn lemma_unsigned(v: i32)
    ensures
        literal_value(unsigned(v)) == v,
{
}

/// An expression is written with at least one token, and the first is none
/// that closes or separates.
pub proof fn lemma_first_token(n: AstView)
    requires
        is_expression(n),
    ensures
        factor_tokens(n).len() > 0,
        product_tokens(n).len() > 0,
        term_tokens(n).len() > 0,
        expr_tokens(n).len() > 0,
        opens_expression(factor_tokens(n)[0]),
        opens_expression(product_tokens(n)[0]),
        opens_expression(term_tokens(n)[0]),
        opens_expression(expr_tokens(n)[0]),
    decreases n,
{
    lemma_levels(n);
    match n {
        AstView::BinOp { left, right, token } => {
            lemma_first_token(*left);
        },
        AstView::Compare { left, right, .. } => {
            lemma_first_token(*left);
        },
        AstView::FunctionCall { function, parameters } => {
            assert(*function is Variable);
        },
        _ => {},
    }
}

/// Whether a token can be the first of an expression.
pub open spec fn opens_expression(token: TokenView) -> bool {
    is_sign(token) || token is Integer || token is String || token is Boolean || token is ID
        || token is ParentheseOpen
}

/// A factor is read back from its tokens.
pub proof fn lemma_factor_reads(p: ParserView, n: AstView, rest: Seq<TokenView>)
    requires
        is_expression(n),
        rest.len() > 0,
        ends_factor(rest[0]),
        reads(p, factor_tokens(n) + rest),
    ensures
        factor(p).outcome == Ok::<AstView, crate::lexer::LexerErrorView>(n),
        reads(factor(p).state, rest),
    decreases n, distance(0, n),
{
    lemma_levels(n);
    match n {
        AstView::UnaryOp { expression, token } => {
            assert(factor_tokens(n) + rest =~= seq![token] + (factor_tokens(*expression) + rest));
            lemma_first_token(*expression);
            lemma_reads_on(p, token, factor_tokens(*expression) + rest);
            lemma_factor_reads(advance(p).state, *expression, rest);
        },
        AstView::Value { value } => {
            assert(factor_tokens(n) + rest =~= seq![literal_token(value)] + rest);
            lemma_reads_on(p, literal_token(value), rest);
            if value is Integer {
                lemma_unsigned(value->Integer_0);
            }
        },
        AstView::Variable { name } => {
            assert(factor_tokens(n) + rest =~= seq![TokenView::ID { string: name }] + rest);
            lemma_reads_on(p, TokenView::ID { string: name }, rest);
            lemma_reads_first(advance(p).state, rest);
            assert(variable_or_call(p) == variable(p));
            assert(factor(p) == variable_or_call(p));
        },
        AstView::FunctionCall { function, parameters } => {
            let name = function->Variable_name;
            let tail = seq![TokenView::ParentheseOpen] + argument_tokens(parameters) + seq![
                TokenView::ParentheseClose,
            ] + rest;
            assert(factor_tokens(n) + rest =~= seq![TokenView::ID { string: name }] + tail);
            lemma_reads_on(p, TokenView::ID { string: name }, tail);
            lemma_reads_first(advance(p).state, tail);
            lemma_call_reads(advance(p).state, *function, parameters, rest);
            assert(variable_or_call(p) == call(advance(p).state, *function));
            assert(factor(p) == variable_or_call(p));
        },
        AstView::BinOp { .. } | AstView::Compare { .. } => {
            let inner = joined_tokens(n);
            let closing = seq![TokenView::ParentheseClose] + rest;
            assert(inner == expr_tokens(n));
            assert(factor_tokens(n) + rest =~= seq![TokenView::ParentheseOpen] + (inner
                + closing));
            lemma_first_token(n);
            lemma_reads_on(p, TokenView::ParentheseOpen, inner + closing);
            let opened = advance(p).state;
            lemma_expr_reads(opened, n, closing);
            let inside = expr(opened);
            assert(closing =~= seq![TokenView::ParentheseClose] + rest);
            lemma_reads_on(inside.state, TokenView::ParentheseClose, rest);
        },
        _ => {},
    }
}

/// A call is read back from its tokens behind the name.
pub proof fn lemma_call_reads(
    p: ParserView,
    function: AstView,
    parameters: Seq<AstView>,
    rest: Seq<TokenView>,
)
    requires
        function is Variable,
        forall|i: int| 0 <= i < parameters.len() ==> is_expression(#[trigger] parameters[i]),
        rest.len() > 0,
        reads(
            p,
            seq![TokenView::ParentheseOpen] + argument_tokens(parameters) + seq![
                TokenView::ParentheseClose,
            ] + rest,
        ),
    ensures
        call(p, function).outcome == Ok::<AstView, crate::lexer::LexerErrorView>(
            AstView::FunctionCall { function: Box::new(function), parameters },
        ),
        reads(call(p, function).state, rest),
    decreases parameters, 7int,
{
    let closing = seq![TokenView::ParentheseClose] + rest;
    let inside = argument_tokens(parameters) + closing;
    assert(seq![TokenView::ParentheseOpen] + argument_tokens(parameters) + seq![
        TokenView::ParentheseClose,
    ] + rest =~= seq![TokenView::ParentheseOpen] + inside);
    lemma_reads_on(p, TokenView::ParentheseOpen, inside);
    let opened = advance(p).state;
    if parameters.len() == 0 {
        assert(inside =~= closing);
        lemma_reads_first(opened, closing);
        assert(argument_list(opened).outcome == Ok::<
            Seq<AstView>,
            crate::lexer::LexerErrorView,
        >(Seq::<AstView>::empty()));
        assert(parameters =~= Seq::<AstView>::empty());
        lemma_reads_on(opened, TokenView::ParentheseClose, rest);
    } else {
        lemma_first_token(parameters[0]);
        assert(inside[0] == argument_tokens(parameters)[0]);
        assert(argument_tokens(parameters)[0] == expr_tokens(parameters[0])[0]);
        lemma_reads_first(opened, inside);
        lemma_arguments_read(opened, parameters, Seq::<AstView>::empty(), closing);
        assert(Seq::<AstView>::empty() + parameters =~= parameters);
        let list = arguments(opened, Seq::<AstView>::empty());
        lemma_reads_on(list.state, TokenView::ParentheseClose, rest);
    }
}

/// The arguments of a call are read back from their tokens.
pub proof fn lemma_arguments_read(
    p: ParserView,
    parameters: Seq<AstView>,
    read: Seq<AstView>,
    rest: Seq<TokenView>,
)
    requires
        parameters.len() > 0,
        forall|i: int| 0 <= i < parameters.len() ==> is_expression(#[trigger] parameters[i]),
        rest.len() > 0,
        rest[0] is ParentheseClose,
        reads(p, argument_tokens(parameters) + rest),
    ensures
        arguments(p, read).outcome == Ok::<Seq<AstView>, crate::lexer::LexerErrorView>(
            read + parameters,
        ),
        reads(arguments(p, read).state, rest),
    decreases parameters, 6int,
{
    let first = parameters[0];
    lemma_expr_settles(p);
    if parameters.len() == 1 {
        lemma_expr_reads(p, first, rest);
        lemma_reads_first(expr(p).state, rest);
        assert(read.push(first) =~= read + parameters);
    } else {
        let others = parameters.drop_first();
        let tail = seq![TokenView::Comma] + (argument_tokens(others) + rest);
        assert(argument_tokens(parameters) + rest =~= expr_tokens(first) + tail);
        lemma_expr_reads(p, first, tail);
        let argument = expr(p);
        lemma_reads_on(argument.state, TokenView::Comma, argument_tokens(others) + rest);
        assert forall|i: int| 0 <= i < others.len() implies is_expression(
            #[trigger] others[i],
        ) by {
            assert(others[i] == parameters[i + 1]);
        }
        lemma_arguments_read(advance(argument.state).state, others, read.push(first), rest);
        assert(read.push(first) + others =~= read + parameters);
    }
}

/// A chain of `*` and `/` is read back from its tokens: behind them the
/// parser stands in the chain with the node in its hand.
pub proof fn lemma_products_read(p: ParserView, n: AstView, rest: Seq<TokenView>) -> (q:
    ParserView)
    requires
        is_expression(n),
        rest.len() > 0,
        ends_factor(rest[0]),
        reads(p, product_tokens(n) + rest),
    ensures
        reads(q, rest),
        term(p) == products(q, n),
    decreases n, distance(1, n),
{
    lemma_levels(n);
    lemma_factor_settles(p);
    if is_product_of(n) {
        let left = *n->BinOp_left;
        let right = *n->BinOp_right;
        let token = n->BinOp_token;
        let tail = seq![token] + (factor_tokens(right) + rest);
        assert(product_tokens(n) + rest =~= product_tokens(left) + tail);
        let q1 = lemma_products_read(p, left, tail);
        lemma_first_token(right);
        lemma_reads_on(q1, token, factor_tokens(right) + rest);
        let q2 = advance(q1).state;
        lemma_factor_reads(q2, right, rest);
        lemma_factor_settles(q2);
        factor(q2).state
    } else {
        lemma_factor_reads(p, n, rest);
        factor(p).state
    }
}

/// A chain of comparisons is read back from its tokens.
pub proof fn lemma_comparisons_read(p: ParserView, n: AstView, rest: Seq<TokenView>) -> (q:
    ParserView)
    requires
        is_expression(n),
        rest.len() > 0,
        ends_factor(rest[0]),
        !is_product(rest[0]),
        reads(p, term_tokens(n) + rest),
    ensures
        reads(q, rest),
        term(p) == comparisons(q, n),
    decreases n, distance(2, n),
{
    lemma_levels(n);
    if n is Compare {
        let left = *n->Compare_left;
        let right = *n->Compare_right;
        let token = comparison_token(n->compare_type);
        let tail = seq![token] + (factor_tokens(right) + rest);
        assert(term_tokens(n) + rest =~= term_tokens(left) + tail);
        let q1 = lemma_comparisons_read(p, left, tail);
        lemma_first_token(right);
        lemma_reads_on(q1, token, factor_tokens(right) + rest);
        let q2 = advance(q1).state;
        lemma_factor_reads(q2, right, rest);
        lemma_factor_settles(q2);
        factor(q2).state
    } else {
        let q = lemma_products_read(p, n, rest);
        lemma_reads_first(q, rest);
        q
    }
}

/// A term is read back from its tokens.
pub proof fn lemma_term_reads(p: ParserView, n: AstView, rest: Seq<TokenView>)
    requires
        is_expression(n),
        rest.len() > 0,
        ends_term(rest[0]),
        reads(p, term_tokens(n) + rest),
    ensures
        term(p).outcome == Ok::<AstView, crate::lexer::LexerErrorView>(n),
        reads(term(p).state, rest),
    decreases n, distance(3, n),
{
    lemma_levels(n);
    let q = lemma_comparisons_read(p, n, rest);
    lemma_reads_first(q, rest);
}

/// A chain of `+` and `-` is read back from its tokens.
pub proof fn lemma_sums_read(p: ParserView, n: AstView, rest: Seq<TokenView>) -> (q: ParserView)
    requires
        is_expression(n),
        rest.len() > 0,
        ends_term(rest[0]),
        reads(p, expr_tokens(n) + rest),
    ensures
        reads(q, rest),
        expr(p) == sums(q, n),
    decreases n, distance(4, n),
{
    lemma_levels(n);
    lemma_term_settles(p);
    if is_sum(n) {
        let left = *n->BinOp_left;
        let right = *n->BinOp_right;
        let token = n->BinOp_token;
        let tail = seq![token] + (term_tokens(right) + rest);
        assert(expr_tokens(n) + rest =~= expr_tokens(left) + tail);
        let q1 = lemma_sums_read(p, left, tail);
        lemma_first_token(right);
        lemma_reads_on(q1, token, term_tokens(right) + rest);
        let q2 = advance(q1).state;
        lemma_term_reads(q2, right, rest);
        lemma_term_settles(q2);
        term(q2).state
    } else {
        lemma_term_reads(p, n, rest);
        term(p).state
    }
}

/// An expression is read back from its tokens.
pub proof fn lemma_expr_reads(p: ParserView, n: AstView, rest: Seq<TokenView>)
    requires
        is_expression(n),
        rest.len() > 0,
        ends_expression(rest[0]),
        reads(p, expr_tokens(n) + rest),
    ensures
        expr(p).outcome == Ok::<AstView, crate::lexer::LexerErrorView>(n),
        reads(expr(p).state, rest),
    decreases n, distance(5, n),
{
    lemma_levels(n);
    let q = lemma_sums_read(p, n, rest);
    lemma_reads_first(q, rest);
}


/// The token of a keyword.
pub open spec fn keyword(k: Keyword) -> TokenView {
    TokenView::ReservedKeyword(k)
}

/// The tokens of the names of parameters, with commas between them.
pub open spec fn name_tokens(names: Seq<Seq<char>>) -> Seq<TokenView>
    decreases names.len(),
{
    if names.len() == 0 {
        Seq::empty()
    } else if names.len() == 1 {
        seq![TokenView::ID { string: names[0] }]
    } else {
        seq![TokenView::ID { string: names[0] }, TokenView::Comma] + name_tokens(
            names.drop_first(),
        )
    }
}

/// The tokens of a statement.
pub open spec fn statement_tokens(n: AstView) -> Seq<TokenView>
    decreases n, 1int,
{
    match n {
        AstView::Assign { left, right } => match *left {
            AstView::Variable { name } => seq![
                TokenView::ID { string: name },
                TokenView::Assign,
            ] + expr_tokens(*right),
            _ => Seq::empty(),
        },
        AstView::FunctionCall { function, parameters } => call_tokens(*function, parameters),
        AstView::If { condition, execution } => seq![keyword(Keyword::If)] + expr_tokens(
            *condition,
        ) + block_tokens(*execution),
        AstView::Loop { condition, execution } => seq![keyword(Keyword::Loop)] + expr_tokens(
            *condition,
        ) + block_tokens(*execution),
        AstView::FunctionDeclaration { name, parameters, execution_block } => seq![
            keyword(Keyword::Function),
            TokenView::ID { string: name },
            TokenView::ParentheseOpen,
        ] + name_tokens(parameters) + seq![TokenView::ParentheseClose] + block_tokens(
            *execution_block,
        ),
        AstView::Return { expression } => seq![keyword(Keyword::Return)] + expr_tokens(
            *expression,
        ),
        _ => Seq::empty(),
    }
}

/// The tokens of a block between its keywords.
pub open spec fn block_tokens(n: AstView) -> Seq<TokenView>
    decreases n, 0int,
{
    match n {
        AstView::Block { children } => seq![keyword(Keyword::Avo)] + list_tokens(children)
            + seq![keyword(Keyword::Cado)],
        _ => Seq::empty(),
    }
}

/// The tokens of a list of statements: a line break stands between two of
/// them.
pub open spec fn list_tokens(children: Seq<AstView>) -> Seq<TokenView>
    decreases children, 1int,
{
    if children.len() == 0 {
        Seq::empty()
    } else {
        statement_tokens(children[0]) + more_tokens(children.drop_first())
    }
}

/// The tokens of the statements of a list behind its first, each behind a
/// line break.
pub open spec fn more_tokens(others: Seq<AstView>) -> Seq<TokenView>
    decreases others, 0int,
{
    if others.len() == 0 {
        Seq::empty()
    } else {
        seq![TokenView::EndLine] + statement_tokens(others[0]) + more_tokens(others.drop_first())
    }
}

/// The tokens of a whole program and the end behind it. The farewell
/// stands on a line of its own.
pub open spec fn program_tokens(n: AstView) -> Seq<TokenView> {
    match n {
        AstView::Block { children } => seq![keyword(Keyword::Greeting), TokenView::EndLine]
            + list_tokens(children) + seq![
            TokenView::EndLine,
            keyword(Keyword::Farewell),
            TokenView::EOF,
        ],
        _ => Seq::empty(),
    }
}

/// Whether a token can follow a statement: a line break, or what ends the
/// list.
pub open spec fn ends_statement(token: TokenView) -> bool {
    token is EndLine || ends_list(token)
}

/// Whether a token ends a list of statements.
pub open spec fn ends_list(token: TokenView) -> bool {
    token == keyword(Keyword::Cado) || token == keyword(Keyword::Farewell)
}

/// Whether a list holds statements as the parser lists them: none is
/// empty.
pub open spec fn is_list(children: Seq<AstView>) -> bool {
    forall|i: int|
        0 <= i < children.len() ==> is_statement(#[trigger] children[i]) && !(children[i] is NoOp)
}

/// One or more names of parameters are read back from their tokens.
pub proof fn lemma_names_read(
    p: ParserView,
    names: Seq<Seq<char>>,
    read: Seq<Seq<char>>,
    rest: Seq<TokenView>,
)
    requires
        names.len() > 0,
        rest.len() > 0,
        !(rest[0] is Comma),
        reads(p, name_tokens(names) + rest),
    ensures
        parameters(p, read).outcome == Ok::<Seq<Seq<char>>, crate::lexer::LexerErrorView>(
            read + names,
        ),
        reads(parameters(p, read).state, rest),
    decreases names.len(),
{
    let first = TokenView::ID { string: names[0] };
    if names.len() == 1 {
        assert(name_tokens(names) + rest =~= seq![first] + rest);
        lemma_reads_on(p, first, rest);
        lemma_reads_first(advance(p).state, rest);
        assert(read.push(names[0]) =~= read + names);
    } else {
        let others = names.drop_first();
        let tail = name_tokens(others) + rest;
        let comma = seq![TokenView::Comma] + tail;
        assert(name_tokens(names) + rest =~= seq![first] + comma);
        lemma_reads_on(p, first, comma);
        let p1 = advance(p).state;
        lemma_reads_on(p1, TokenView::Comma, tail);
        lemma_names_read(advance(p1).state, others, read.push(names[0]), rest);
        assert(read.push(names[0]) + others =~= read + names);
    }
}

/// The names between the parentheses of a declaration are read back from
/// their tokens.
pub proof fn lemma_parameter_list_reads(
    p: ParserView,
    names: Seq<Seq<char>>,
    rest: Seq<TokenView>,
)
    requires
        rest.len() > 0,
        rest[0] is ParentheseClose,
        reads(p, name_tokens(names) + rest),
    ensures
        parameter_list(p).outcome == Ok::<Seq<Seq<char>>, crate::lexer::LexerErrorView>(names),
        reads(parameter_list(p).state, rest),
{
    if names.len() == 0 {
        assert(name_tokens(names) + rest =~= rest);
        lemma_reads_first(p, rest);
        assert(names =~= Seq::<Seq<char>>::empty());
    } else {
        assert((name_tokens(names) + rest)[0] == TokenView::ID { string: names[0] });
        lemma_reads_first(p, name_tokens(names) + rest);
        lemma_names_read(p, names, Seq::<Seq<char>>::empty(), rest);
        assert(Seq::<Seq<char>>::empty() + names =~= names);
    }
}

/// A statement is read back from its tokens.
pub proof fn lemma_statement_reads(p: ParserView, n: AstView, rest: Seq<TokenView>)
    requires
        is_statement(n),
        rest.len() > 0,
        ends_statement(rest[0]),
        reads(p, statement_tokens(n) + rest),
    ensures
        statement(p).outcome == Ok::<AstView, crate::lexer::LexerErrorView>(n),
        reads(statement(p).state, rest),
    decreases n, 1int,
{
    match n {
        AstView::Assign { left, right } => {
            let name = left->Variable_name;
            let value = expr_tokens(*right) + rest;
            let tail = seq![TokenView::Assign] + value;
            assert(statement_tokens(n) + rest =~= seq![TokenView::ID { string: name }] + tail);
            lemma_reads_on(p, TokenView::ID { string: name }, tail);
            let p1 = advance(p).state;
            lemma_first_token(*right);
            lemma_reads_on(p1, TokenView::Assign, value);
            lemma_expr_reads(advance(p1).state, *right, rest);
            reveal(named_statement);
            reveal(assignment);
            reveal(assigned);
        },
        AstView::FunctionCall { function, parameters } => {
            let name = function->Variable_name;
            let tail = seq![TokenView::ParentheseOpen] + argument_tokens(parameters) + seq![
                TokenView::ParentheseClose,
            ] + rest;
            assert(statement_tokens(n) + rest =~= seq![TokenView::ID { string: name }] + tail);
            lemma_reads_on(p, TokenView::ID { string: name }, tail);
            lemma_reads_first(advance(p).state, tail);
            lemma_call_reads(advance(p).state, *function, parameters, rest);
            reveal(named_statement);
        },
        AstView::If { condition, execution } => {
            lemma_guarded_reads(p, n, *condition, *execution, false, rest);
        },
        AstView::Loop { condition, execution } => {
            lemma_guarded_reads(p, n, *condition, *execution, true, rest);
        },
        AstView::FunctionDeclaration { name, parameters: names, execution_block } => {
            let body = block_tokens(*execution_block) + rest;
            let closing = seq![TokenView::ParentheseClose] + body;
            let list = name_tokens(names) + closing;
            let open = seq![TokenView::ParentheseOpen] + list;
            let named = seq![TokenView::ID { string: name }] + open;
            assert(statement_tokens(n) + rest =~= seq![keyword(Keyword::Function)] + named);
            lemma_reads_on(p, keyword(Keyword::Function), named);
            let p1 = advance(p).state;
            lemma_reads_on(p1, TokenView::ID { string: name }, open);
            let p2 = advance(p1).state;
            lemma_reads_on(p2, TokenView::ParentheseOpen, list);
            let p3 = advance(p2).state;
            lemma_parameter_list_reads(p3, names, closing);
            let p4 = parameter_list(p3).state;
            lemma_block_first(*execution_block, rest);
            lemma_reads_on(p4, TokenView::ParentheseClose, body);
            let p5 = advance(p4).state;
            reveal(signature);
            assert(signature(p1).outcome == Ok::<
                (Seq<char>, Seq<Seq<char>>),
                crate::lexer::LexerErrorView,
            >((name, names)));
            assert(signature(p1).state == p5);
            lemma_block_reads(p5, *execution_block, rest);
            assert(declaration(p1).outcome == Ok::<AstView, crate::lexer::LexerErrorView>(n));
            assert(opened(p1, crate::grammar::Opening::Declaration) == declaration(p1));
        },
        AstView::Return { expression } => {
            let value = expr_tokens(*expression) + rest;
            assert(statement_tokens(n) + rest =~= seq![keyword(Keyword::Return)] + value);
            lemma_first_token(*expression);
            lemma_reads_on(p, keyword(Keyword::Return), value);
            let p1 = advance(p).state;
            lemma_expr_reads(p1, *expression, rest);
            reveal(returned);
            assert(opened(p1, crate::grammar::Opening::Return) == returned(p1));
        },
        AstView::NoOp => {
            assert(statement_tokens(n) + rest =~= rest);
            lemma_reads_first(p, rest);
        },
        _ => {},
    }
}

/// A block is written with its opening keyword first.
pub proof fn lemma_block_first(n: AstView, rest: Seq<TokenView>)
    requires
        is_block(n),
    ensures
        (block_tokens(n) + rest).len() > 0,
        (block_tokens(n) + rest)[0] == keyword(Keyword::Avo),
{
}

/// A conditional or a loop is read back from its tokens.
pub proof fn lemma_guarded_reads(
    p: ParserView,
    n: AstView,
    condition: AstView,
    execution: AstView,
    repeats: bool,
    rest: Seq<TokenView>,
)
    requires
        n == if repeats {
            AstView::Loop { condition: Box::new(condition), execution: Box::new(execution) }
        } else {
            AstView::If { condition: Box::new(condition), execution: Box::new(execution) }
        },
        is_statement(n),
        rest.len() > 0,
        reads(p, statement_tokens(n) + rest),
    ensures
        statement(p).outcome == Ok::<AstView, crate::lexer::LexerErrorView>(n),
        reads(statement(p).state, rest),
    decreases n, 0int,
{
    let word = if repeats {
        keyword(Keyword::Loop)
    } else {
        keyword(Keyword::If)
    };
    let body = block_tokens(execution) + rest;
    let tail = expr_tokens(condition) + body;
    assert(statement_tokens(n) + rest =~= seq![word] + tail);
    lemma_first_token(condition);
    lemma_reads_on(p, word, tail);
    let p1 = advance(p).state;
    lemma_block_first(execution, rest);
    lemma_expr_reads(p1, condition, body);
    lemma_block_reads(expr(p1).state, execution, rest);
    assert(guarded(p1, repeats).outcome == Ok::<AstView, crate::lexer::LexerErrorView>(n));
    assert(opened(
        p1,
        if repeats {
            crate::grammar::Opening::Repetition
        } else {
            crate::grammar::Opening::Conditional
        },
    ) == guarded(p1, repeats));
}

/// A block is read back from its tokens.
pub proof fn lemma_block_reads(p: ParserView, n: AstView, rest: Seq<TokenView>)
    requires
        is_block(n),
        rest.len() > 0,
        reads(p, block_tokens(n) + rest),
    ensures
        inner_block(p).outcome == Ok::<AstView, crate::lexer::LexerErrorView>(n),
        reads(inner_block(p).state, rest),
    decreases n, 0int,
{
    let children = n->children;
    let closing = seq![keyword(Keyword::Cado)] + rest;
    let inside = list_tokens(children) + closing;
    assert(block_tokens(n) + rest =~= seq![keyword(Keyword::Avo)] + inside);
    lemma_reads_on(p, keyword(Keyword::Avo), inside);
    let p1 = advance(p).state;
    assert(inside =~= list_tokens(children) + last_line(false) + closing);
    lemma_list_reads(p1, children, false, closing);
    let list = statement_list(p1);
    lemma_reads_on(list.state, keyword(Keyword::Cado), rest);
}

/// The line break that may stand behind a list of statements.
pub open spec fn last_line(trailing: bool) -> Seq<TokenView> {
    if trailing {
        seq![TokenView::EndLine]
    } else {
        Seq::empty()
    }
}

/// A list of statements is read back from its tokens; a line break may
/// stand behind them.
pub proof fn lemma_list_reads(
    p: ParserView,
    children: Seq<AstView>,
    trailing: bool,
    rest: Seq<TokenView>,
)
    requires
        is_list(children),
        rest.len() > 0,
        ends_list(rest[0]),
        reads(p, list_tokens(children) + last_line(trailing) + rest),
    ensures
        statement_list(p).outcome == Ok::<Seq<AstView>, crate::lexer::LexerErrorView>(children),
        reads(statement_list(p).state, rest),
    decreases children, 1int,
{
    lemma_statement_settles(p);
    if children.len() == 0 {
        let all = more_tokens(children) + last_line(trailing) + rest;
        assert(list_tokens(children) + last_line(trailing) + rest =~= all);
        lemma_more_first(children, trailing, rest);
        lemma_reads_first(p, all);
        assert(statement(p) == Parsed { state: p, outcome: Ok(AstView::NoOp) });
        lemma_more_read(p, children, Seq::<AstView>::empty(), trailing, rest);
        assert(Seq::<AstView>::empty() + children =~= children);
    } else {
        let first = children[0];
        let others = children.drop_first();
        let tail = more_tokens(others) + last_line(trailing) + rest;
        assert(list_tokens(children) + last_line(trailing) + rest =~= statement_tokens(first)
            + tail);
        lemma_more_first(others, trailing, rest);
        lemma_statement_reads(p, first, tail);
        assert forall|i: int| 0 <= i < others.len() implies is_statement(#[trigger] others[i])
            && !(others[i] is NoOp) by {
            assert(others[i] == children[i + 1]);
        }
        lemma_more_read(statement(p).state, others, seq![first], trailing, rest);
        assert(seq![first] + others =~= children);
    }
}

/// What stands behind a statement of a list is a line break or what ends
/// the list.
pub proof fn lemma_more_first(others: Seq<AstView>, trailing: bool, rest: Seq<TokenView>)
    requires
        rest.len() > 0,
        ends_list(rest[0]),
    ensures
        (more_tokens(others) + last_line(trailing) + rest).len() > 0,
        ends_statement((more_tokens(others) + last_line(trailing) + rest)[0]),
        others.len() > 0 || trailing ==> (more_tokens(others) + last_line(trailing)
            + rest)[0] is EndLine,
        others.len() == 0 ==> more_tokens(others) + last_line(trailing) + rest == last_line(
            trailing,
        ) + rest,
{
    if others.len() == 0 {
        assert(more_tokens(others) + last_line(trailing) + rest =~= last_line(trailing) + rest);
    }
}

/// The statements behind the first of a list are read back from their
/// tokens; a line break may stand behind them.
pub proof fn lemma_more_read(
    p: ParserView,
    others: Seq<AstView>,
    read: Seq<AstView>,
    trailing: bool,
    rest: Seq<TokenView>,
)
    requires
        forall|i: int|
            0 <= i < others.len() ==> is_statement(#[trigger] others[i]) && !(others[i] is NoOp),
        rest.len() > 0,
        ends_list(rest[0]),
        reads(p, more_tokens(others) + last_line(trailing) + rest),
    ensures
        more_statements(p, read).outcome == Ok::<Seq<AstView>, crate::lexer::LexerErrorView>(
            read + others,
        ),
        reads(more_statements(p, read).state, rest),
    decreases others, 0int,
{
    let all = more_tokens(others) + last_line(trailing) + rest;
    lemma_more_first(others, trailing, rest);
    lemma_reads_first(p, all);
    if others.len() == 0 {
        assert(read + others =~= read);
        if trailing {
            assert(all =~= seq![TokenView::EndLine] + rest);
            lemma_reads_on(p, TokenView::EndLine, rest);
            let p1 = advance(p).state;
            lemma_reads_first(p1, rest);
            lemma_statement_settles(p1);
            assert(statement(p1) == Parsed { state: p1, outcome: Ok(AstView::NoOp) });
            assert(more_statements(p1, read) == Parsed { state: p1, outcome: Ok(read) });
        } else {
            assert(all =~= rest);
        }
    } else {
        let next = others[0];
        let later = others.drop_first();
        let tail = more_tokens(later) + last_line(trailing) + rest;
        let line = statement_tokens(next) + tail;
        assert(all =~= seq![TokenView::EndLine] + line);
        lemma_more_first(later, trailing, rest);
        lemma_reads_on(p, TokenView::EndLine, line);
        let p1 = advance(p).state;
        lemma_statement_reads(p1, next, tail);
        lemma_statement_settles(p1);
        assert forall|i: int| 0 <= i < later.len() implies is_statement(#[trigger] later[i])
            && !(later[i] is NoOp) by {
            assert(later[i] == others[i + 1]);
        }
        lemma_more_read(statement(p1).state, later, read.push(next), trailing, rest);
        assert(read.push(next) + later =~= read + others);
    }
}

/// A program is read back from its tokens.
pub proof fn lemma_program_reads(p: ParserView, n: AstView)
    requires
        is_block(n),
        reads(p, program_tokens(n)),
    ensures
        parse(p).outcome == Ok::<AstView, crate::lexer::LexerErrorView>(n),
{
    reveal(parse);
    reveal(program);
    reveal(block);
    let children = n->children;
    let end = seq![TokenView::EOF];
    let closing = seq![keyword(Keyword::Farewell)] + end;
    let inside = list_tokens(children) + last_line(true) + closing;
    let line = seq![TokenView::EndLine] + inside;
    assert(program_tokens(n) =~= seq![keyword(Keyword::Greeting)] + line);
    lemma_reads_on(p, keyword(Keyword::Greeting), line);
    let p1 = advance(p).state;
    lemma_reads_on(p1, TokenView::EndLine, inside);
    let p2 = advance(p1).state;
    lemma_list_reads(p2, children, true, closing);
    let list = statement_list(p2);
    lemma_reads_on(list.state, keyword(Keyword::Farewell), end);
    lemma_reads_first(advance(list.state).state, end);
}


/// What the parser reads as a factor is an expression.
pub proof fn lemma_factor_builds(p: ParserView)
    ensures
        factor(p).outcome matches Ok(n) ==> is_expression(n),
    decreases crate::grammar::remaining(p), 3int,
{
    lemma_advance_settles(p);
    if is_sign(p.current) {
        if advance(p).outcome is Ok {
            lemma_factor_builds(advance(p).state);
        }
    } else if p.current is ParentheseOpen {
        if advance(p).outcome is Ok {
            lemma_expr_builds(advance(p).state);
        }
    } else if !(p.current is Integer || p.current is String || p.current is Boolean) {
        lemma_variable_or_call_builds(p);
    }
}

/// What the parser reads as a variable or a call is an expression.
pub proof fn lemma_variable_or_call_builds(p: ParserView)
    ensures
        variable_or_call(p).outcome matches Ok(n) ==> is_expression(n),
    decreases crate::grammar::remaining(p), 2int,
{
    lemma_advance_settles(p);
    let name = variable(p);
    if name.outcome is Ok && name.state.current is ParentheseOpen {
        lemma_call_builds(name.state, name.outcome->Ok_0);
    }
}

/// What the parser reads as a call of a name is an expression.
pub proof fn lemma_call_builds(p: ParserView, function: AstView)
    requires
        function is Variable,
    ensures
        call(p, function).outcome matches Ok(n) ==> is_expression(n) && n is FunctionCall,
    decreases crate::grammar::remaining(p), 1int,
{
    lemma_advance_settles(p);
    let open = expect(p, TokenView::ParentheseOpen);
    if open.outcome is Ok {
        lemma_argument_list_builds(open.state);
    }
}

/// What the parser reads as arguments are expressions.
pub proof fn lemma_argument_list_builds(p: ParserView)
    ensures
        argument_list(p).outcome matches Ok(list) ==> forall|i: int|
            0 <= i < list.len() ==> is_expression(#[trigger] list[i]),
    decreases crate::grammar::remaining(p), 7int,
{
    if !(p.current is ParentheseClose) {
        lemma_arguments_build(p, Seq::<AstView>::empty());
    }
}

/// What the parser adds to arguments are expressions.
pub proof fn lemma_arguments_build(p: ParserView, read: Seq<AstView>)
    requires
        forall|i: int| 0 <= i < read.len() ==> is_expression(#[trigger] read[i]),
    ensures
        arguments(p, read).outcome matches Ok(list) ==> forall|i: int|
            0 <= i < list.len() ==> is_expression(#[trigger] list[i]),
    decreases crate::grammar::remaining(p), 6int,
{
    let argument = expr(p);
    lemma_expr_builds(p);
    lemma_expr_settles(p);
    if argument.outcome is Ok {
        let longer = read.push(argument.outcome->Ok_0);
        assert forall|i: int| 0 <= i < longer.len() implies is_expression(
            #[trigger] longer[i],
        ) by {
            if i < read.len() {
                assert(longer[i] == read[i]);
            }
        }
        if argument.state.current is Comma {
            lemma_advance_settles(argument.state);
            if advance(argument.state).outcome is Ok {
                lemma_arguments_build(advance(argument.state).state, longer);
            }
        }
    }
}

/// What the parser reads as a term is an expression.
pub proof fn lemma_term_builds(p: ParserView)
    ensures
        term(p).outcome matches Ok(n) ==> is_expression(n),
    decreases crate::grammar::remaining(p), 4int,
{
    lemma_factor_builds(p);
    lemma_factor_settles(p);
    let first = factor(p);
    if first.outcome is Ok {
        lemma_products_build(first.state, first.outcome->Ok_0);
    }
}

/// What the parser joins to an expression with `*` and `/` and with
/// comparisons is an expression.
pub proof fn lemma_products_build(p: ParserView, left: AstView)
    requires
        is_expression(left),
    ensures
        products(p, left).outcome matches Ok(n) ==> is_expression(n),
    decreases crate::grammar::remaining(p), 2int,
{
    lemma_advance_settles(p);
    if is_product(p.current) {
        let operator = advance(p);
        if operator.outcome is Ok {
            let right = factor(operator.state);
            lemma_factor_builds(operator.state);
            lemma_factor_settles(operator.state);
            if right.outcome is Ok {
                lemma_products_build(
                    right.state,
                    AstView::BinOp {
                        left: Box::new(left),
                        right: Box::new(right.outcome->Ok_0),
                        token: p.current,
                    },
                );
            }
        }
    } else {
        lemma_comparisons_build(p, left);
    }
}

/// What the parser joins to an expression with comparisons is an expression.
pub proof fn lemma_comparisons_build(p: ParserView, left: AstView)
    requires
        is_expression(left),
    ensures
        comparisons(p, left).outcome matches Ok(n) ==> is_expression(n),
    decreases crate::grammar::remaining(p), 1int,
{
    lemma_advance_settles(p);
    if comparison(p.current) is Some {
        let operator = advance(p);
        if operator.outcome is Ok {
            let right = factor(operator.state);
            lemma_factor_builds(operator.state);
            lemma_factor_settles(operator.state);
            if right.outcome is Ok {
                lemma_comparisons_build(
                    right.state,
                    AstView::Compare {
                        left: Box::new(left),
                        right: Box::new(right.outcome->Ok_0),
                        compare_type: comparison(p.current)->0,
                    },
                );
            }
        }
    }
}

/// What the parser reads as an expression is one.
pub proof fn lemma_expr_builds(p: ParserView)
    ensures
        expr(p).outcome matches Ok(n) ==> is_expression(n),
    decreases crate::grammar::remaining(p), 5int,
{
    lemma_term_builds(p);
    lemma_term_settles(p);
    let first = term(p);
    if first.outcome is Ok {
        lemma_sums_build(first.state, first.outcome->Ok_0);
    }
}

/// What the parser joins to an expression with `+` and `-` is an expression.
pub proof fn lemma_sums_build(p: ParserView, left: AstView)
    requires
        is_expression(left),
    ensures
        sums(p, left).outcome matches Ok(n) ==> is_expression(n),
    decreases crate::grammar::remaining(p), 1int,
{
    lemma_advance_settles(p);
    if is_sign(p.current) {
        let operator = advance(p);
        if operator.outcome is Ok {
            let right = term(operator.state);
            lemma_term_builds(operator.state);
            lemma_term_settles(operator.state);
            if right.outcome is Ok {
                lemma_sums_build(
                    right.state,
                    AstView::BinOp {
                        left: Box::new(left),
                        right: Box::new(right.outcome->Ok_0),
                        token: p.current,
                    },
                );
            }
        }
    }
}

/// What the parser reads as the value of an assignment makes a statement.
pub proof fn lemma_assigned_builds(p: ParserView, left: AstView)
    requires
        left is Variable,
    ensures
        assigned(p, left).outcome matches Ok(n) ==> is_statement(n) && !(n is NoOp),
{
    reveal(assigned);
    lemma_expr_builds(p);
}

/// What the parser reads as a statement behind an identifier is a statement.
pub proof fn lemma_named_statement_builds(p: ParserView)
    ensures
        named_statement(p).outcome matches Ok(n) ==> is_statement(n),
{
    reveal(named_statement);
    reveal(assignment);
    let left = variable(p);
    if left.outcome is Ok {
        lemma_assigned_builds(expect(left.state, TokenView::Assign).state, left.outcome->Ok_0);
        lemma_call_builds(left.state, left.outcome->Ok_0);
    }
}

/// What the parser reads as a statement is one.
pub proof fn lemma_statement_builds(p: ParserView)
    ensures
        statement(p).outcome matches Ok(n) ==> is_statement(n),
    decreases crate::grammar::remaining(p), 2int,
{
    if p.current is ID {
        lemma_named_statement_builds(p);
    } else if opening(p.current) is Some {
        lemma_advance_settles(p);
        if advance(p).outcome is Ok {
            lemma_opened_builds(advance(p).state, opening(p.current)->0);
        }
    }
}

/// What the parser reads behind the keyword of a statement is a statement.
pub proof fn lemma_opened_builds(p: ParserView, kind: crate::grammar::Opening)
    ensures
        opened(p, kind).outcome matches Ok(n) ==> is_statement(n),
    decreases crate::grammar::remaining(p), 5int,
{
    match kind {
        crate::grammar::Opening::Conditional => lemma_guarded_builds(p, false),
        crate::grammar::Opening::Repetition => lemma_guarded_builds(p, true),
        crate::grammar::Opening::Declaration => lemma_declaration_builds(p),
        crate::grammar::Opening::Assignment => {
            reveal(worded_assignment);
            let left = variable(p);
            if left.outcome is Ok {
                lemma_assigned_builds(
                    expect(left.state, keyword(Keyword::AssignInfix)).state,
                    left.outcome->Ok_0,
                );
            }
        },
        crate::grammar::Opening::Return => {
            reveal(returned);
            lemma_expr_builds(p);
        },
    }
}

/// What the parser reads as a conditional or a loop is a statement.
pub proof fn lemma_guarded_builds(p: ParserView, repeats: bool)
    ensures
        guarded(p, repeats).outcome matches Ok(n) ==> is_statement(n),
    decreases crate::grammar::remaining(p), 4int,
{
    lemma_expr_builds(p);
    lemma_expr_settles(p);
    if expr(p).outcome is Ok {
        lemma_inner_block_builds(expr(p).state);
    }
}

/// What the parser reads as a declaration is a statement.
pub proof fn lemma_declaration_builds(p: ParserView)
    ensures
        declaration(p).outcome matches Ok(n) ==> is_statement(n),
    decreases crate::grammar::remaining(p), 4int,
{
    crate::grammar::lemma_signature_settles(p);
    if signature(p).outcome is Ok {
        lemma_inner_block_builds(signature(p).state);
    }
}

/// What the parser reads as a block is one.
pub proof fn lemma_inner_block_builds(p: ParserView)
    ensures
        inner_block(p).outcome matches Ok(n) ==> is_block(n),
    decreases crate::grammar::remaining(p), 1int,
{
    lemma_advance_settles(p);
    let line = if p.current is EndLine {
        advance(p)
    } else {
        Parsed { state: p, outcome: Ok(()) }
    };
    if line.outcome is Ok {
        let open = expect(line.state, keyword(Keyword::Avo));
        lemma_advance_settles(line.state);
        if open.outcome is Ok {
            lemma_statement_list_builds(open.state);
        }
    }
}

/// What the parser reads as a list of statements is one.
pub proof fn lemma_statement_list_builds(p: ParserView)
    ensures
        statement_list(p).outcome matches Ok(list) ==> is_list(list),
    decreases crate::grammar::remaining(p), 3int,
{
    lemma_statement_builds(p);
    lemma_statement_settles(p);
    let first = statement(p);
    if first.outcome is Ok {
        lemma_more_statements_build(first.state, crate::grammar::listed(first.outcome->Ok_0));
    }
}

/// What the parser adds to a list of statements leaves it a list.
pub proof fn lemma_more_statements_build(p: ParserView, read: Seq<AstView>)
    requires
        is_list(read),
    ensures
        more_statements(p, read).outcome matches Ok(list) ==> is_list(list),
    decreases crate::grammar::remaining(p), 1int,
{
    lemma_advance_settles(p);
    if p.current is EndLine && advance(p).outcome is Ok {
        let line = advance(p);
        let next = statement(line.state);
        lemma_statement_builds(line.state);
        lemma_statement_settles(line.state);
        if next.outcome is Ok {
            let node = next.outcome->Ok_0;
            let kept = if node is NoOp {
                read
            } else {
                read.push(node)
            };
            assert(is_list(kept)) by {
                if !(node is NoOp) {
                    assert forall|i: int| 0 <= i < kept.len() implies is_statement(
                        #[trigger] kept[i],
                    ) && !(kept[i] is NoOp) by {
                        if i < read.len() {
                            assert(kept[i] == read[i]);
                        }
                    }
                }
            }
            lemma_more_statements_build(next.state, kept);
        }
    }
}

/// The tree of a program is a block as the parser builds them.
pub proof fn lemma_parse_builds(p: ParserView)
    ensures
        parse(p).outcome matches Ok(n) ==> is_block(n),
{
    reveal(parse);
    reveal(program);
    reveal(block);
    let line = expect(expect(p, keyword(Keyword::Greeting)).state, TokenView::EndLine);
    lemma_statement_list_builds(line.state);
}

/// A tree that was parsed from one text is parsed from every text that
/// spells the tokens of the tree: whatever was written to get the tree,
/// writing the tree down gets it again.
pub proof fn lemma_written_tree_is_read_back(text: Seq<char>, written: Seq<char>)
    requires
        crate::grammar::parse_text(text) is Ok,
        reads(
            crate::grammar::start(crate::lexer::LexerView { text: written, position: 0 }),
            program_tokens(crate::grammar::parse_text(text)->Ok_0),
        ),
    ensures
        crate::grammar::parse_text(written) == crate::grammar::parse_text(text),
{
    lemma_parse_builds(crate::grammar::start(crate::lexer::LexerView { text, position: 0 }));
    lemma_program_reads(
        crate::grammar::start(crate::lexer::LexerView { text: written, position: 0 }),
        crate::grammar::parse_text(text)->Ok_0,
    );
}


/// How a keyword is spelled.
pub open spec fn keyword_text(k: Keyword) -> Seq<char> {
    match k {
        Keyword::Greeting => "hallo"@,
        Keyword::Farewell => "reicht dann auch mal"@,
        Keyword::Avo => "avo"@,
        Keyword::Cado => "cado"@,
        Keyword::Function => "funny"@,
        Keyword::If => "wenn"@,
        Keyword::Return => "wirf"@,
        Keyword::Loop => "schleif"@,
        Keyword::Equals => "is"@,
        Keyword::Less => "kleina"@,
        Keyword::Greater => "krasser"@,
        Keyword::AssignPrefix => "machma"@,
        Keyword::AssignInfix => "uf"@,
    }
}

/// How a token is spelled. The end is spelled with nothing.
pub open spec fn spelled(token: TokenView) -> Seq<char> {
    match token {
        TokenView::ReservedKeyword(k) => keyword_text(k),
        TokenView::ID { string } => string,
        TokenView::Integer(n) => decimal_digits(n as nat),
        TokenView::String(s) => seq!['<'] + s + seq!['>'],
        TokenView::Boolean(b) => if b {
            ":)"@
        } else {
            ":("@
        },
        TokenView::Comma => ","@,
        TokenView::Plus => "+"@,
        TokenView::Minus => "-"@,
        TokenView::Multiply => "*"@,
        TokenView::Divide => "/"@,
        TokenView::ParentheseOpen => "("@,
        TokenView::ParentheseClose => ")"@,
        TokenView::EndLine => "\n"@,
        TokenView::Assign => "="@,
        TokenView::EOF => Seq::empty(),
    }
}

/// What stands between two tokens in a text: nothing at a line break and
/// before the end, two spaces between two identifiers, which keeps them
/// from reading as a keyword of several words, and else one space.
pub open spec fn separator(before: TokenView, after: TokenView) -> Seq<char> {
    if before is EndLine || after is EndLine || after is EOF {
        Seq::empty()
    } else if before is ID && after is ID {
        "  "@
    } else {
        " "@
    }
}

/// The text that tokens are written as.
pub open spec fn rendered(tokens: Seq<TokenView>) -> Seq<char>
    decreases tokens.len(),
{
    if tokens.len() == 0 {
        Seq::empty()
    } else if tokens.len() == 1 {
        spelled(tokens[0])
    } else {
        rendered(tokens.drop_last()) + separator(tokens[tokens.len() - 2], tokens.last())
            + spelled(tokens.last())
    }
}

/// The text that the tree of a program is written as.
pub open spec fn source(tree: AstView) -> Seq<char> {
    rendered(program_tokens(tree))
}

/// The views of tokens, in order.
pub open spec fn token_views(tokens: Seq<Token>) -> Seq<TokenView> {
    Seq::new(tokens.len(), |i: int| tokens[i]@)
}

/// How a token is spelled.
pub fn spelling(token: &Token) -> (text: String)
    ensures
        text@ == spelled(token@),
{
    match token {
        Token::ReservedKeyword(k) => match k {
            Keyword::Greeting => String::from_str("hallo"),
            Keyword::Farewell => String::from_str("reicht dann auch mal"),
            Keyword::Avo => String::from_str("avo"),
            Keyword::Cado => String::from_str("cado"),
            Keyword::Function => String::from_str("funny"),
            Keyword::If => String::from_str("wenn"),
            Keyword::Return => String::from_str("wirf"),
            Keyword::Loop => String::from_str("schleif"),
            Keyword::Equals => String::from_str("is"),
            Keyword::Less => String::from_str("kleina"),
            Keyword::Greater => String::from_str("krasser"),
            Keyword::AssignPrefix => String::from_str("machma"),
            Keyword::AssignInfix => String::from_str("uf"),
        },
        Token::ID { string } => string.clone(),
        Token::Integer(n) => {
            let mut text = String::new();
            push_decimal(&mut text, *n as u64);
            assert(text@ =~= decimal_digits(*n as nat));
            text
        },
        Token::String(s) => {
            let mut text = String::new();
            text.push('<');
            text.append(s.as_str());
            text.push('>');
            assert(text@ =~= seq!['<'] + s@ + seq!['>']);
            text
        },
        Token::Boolean(b) => if *b {
            String::from_str(":)")
        } else {
            String::from_str(":(")
        },
        Token::Comma => String::from_str(","),
        Token::Plus => String::from_str("+"),
        Token::Minus => String::from_str("-"),
        Token::Multiply => String::from_str("*"),
        Token::Divide => String::from_str("/"),
        Token::ParentheseOpen => String::from_str("("),
        Token::ParentheseClose => String::from_str(")"),
        Token::EndLine => String::from_str("\n"),
        Token::Assign => String::from_str("="),
        Token::EOF => String::new(),
    }
}

/// The text that tokens are written as.
pub fn render(tokens: &Vec<Token>) -> (text: String)
    ensures
        text@ == rendered(token_views(tokens@)),
{
    let mut text = String::new();
    let mut i: usize = 0;
    let ghost all = token_views(tokens@);
    assert(all.take(0) =~= Seq::<TokenView>::empty());
    while i < tokens.len()
        invariant
            i <= tokens@.len(),
            all == token_views(tokens@),
            text@ == rendered(all.take(i as int)),
        decreases tokens@.len() - i,
    {
        let ghost before = all.take(i as int);
        let ghost longer = all.take(i + 1);
        proof {
            assert(longer.drop_last() =~= before);
            assert(longer.last() == tokens@[i as int]@);
            if i > 0 {
                assert(longer[longer.len() - 2] == tokens@[i - 1]@);
            }
        }
        if i > 0 {
            let lone_line: bool = match (&tokens[i - 1], &tokens[i]) {
                (Token::EndLine, _) => true,
                (_, Token::EndLine) => true,
                (_, Token::EOF) => true,
                _ => false,
            };
            let names: bool = match (&tokens[i - 1], &tokens[i]) {
                (Token::ID { .. }, Token::ID { .. }) => true,
                _ => false,
            };
            if lone_line {
            } else if names {
                text.append("  ");
            } else {
                text.append(" ");
            }
        }
        let word: String = spelling(&tokens[i]);
        text.append(word.as_str());
        proof {
            if i == 0 {
                assert(text@ =~= spelled(tokens@[0]@));
            }
        }
        i = i + 1;
    }
    assert(all.take(tokens@.len() as int) =~= all);
    text
}

/// The tokens with one more have the views of the tokens and its view.
pub proof fn lemma_tokens_push(tokens: Seq<Token>, token: Token)
    ensures
        token_views(tokens.push(token)) == token_views(tokens).push(token@),
{
    assert(token_views(tokens.push(token)) =~= token_views(tokens).push(token@));
}

/// Adds one token.
fn put(out: &mut Vec<Token>, token: Token)
    ensures
        token_views(final(out)@) == token_views(old(out)@) + seq![token@],
{
    proof {
        lemma_tokens_push(out@, token);
        assert(token_views(out@).push(token@) =~= token_views(out@) + seq![token@]);
    }
    out.push(token);
}

/// The literal that stands for an integer.
pub fn unsigned_literal(v: i32) -> (n: u32)
    ensures
        n == unsigned(v),
{
    if v >= 0 {
        v as u32
    } else {
        (v as i64 + 0x1_0000_0000i64) as u32
    }
}

/// The token of a literal.
pub fn literal_of(value: &Value) -> (token: Token)
    ensures
        token@ == literal_token(value@),
{
    match value {
        Value::Integer(v) => Token::Integer(unsigned_literal(*v)),
        Value::String(s) => Token::String(s.clone()),
        Value::Boolean(b) => Token::Boolean(*b),
        Value::Nothing => Token::EOF,
    }
}

/// Adds the tokens of an operation with its operands.
fn put_joined(out: &mut Vec<Token>, n: &ASTNode)
    ensures
        token_views(final(out)@) == token_views(old(out)@) + joined_tokens(n@),
    decreases n, 0int,
{
    proof {
        lemma_levels(n@);
    }
    match n {
        ASTNode::BinOp { left, right, token } => {
            let sign: bool = match token {
                Token::Plus | Token::Minus => true,
                _ => false,
            };
            let ghost start = token_views(out@);
            if sign {
                put_expr(out, left);
                put(out, token.duplicate());
                put_term(out, right);
                assert(token_views(out@) =~= start + (expr_tokens(left@) + seq![token@]
                    + term_tokens(right@)));
            } else {
                put_product(out, left);
                put(out, token.duplicate());
                put_factor(out, right);
                assert(token_views(out@) =~= start + (product_tokens(left@) + seq![token@]
                    + factor_tokens(right@)));
            }
        },
        ASTNode::Compare { left, right, compare_type } => {
            let ghost start = token_views(out@);
            put_term(out, left);
            let word: Token = match compare_type {
                CompareType::Equals => Token::ReservedKeyword(Keyword::Equals),
                CompareType::Less => Token::ReservedKeyword(Keyword::Less),
                CompareType::Greater => Token::ReservedKeyword(Keyword::Greater),
            };
            put(out, word);
            put_factor(out, right);
            assert(token_views(out@) =~= start + (term_tokens(left@) + seq![
                comparison_token(*compare_type),
            ] + factor_tokens(right@)));
        },
        _ => {
            assert(token_views(out@) + joined_tokens(n@) =~= token_views(out@));
        },
    }
}

/// Adds the tokens of an expression where a factor is read.
fn put_factor(out: &mut Vec<Token>, n: &ASTNode)
    ensures
        token_views(final(out)@) == token_views(old(out)@) + factor_tokens(n@),
    decreases n, 1int,
{
    let ghost start = token_views(out@);
    match n {
        ASTNode::UnaryOp { expression, token } => {
            put(out, token.duplicate());
            put_factor(out, expression);
            assert(token_views(out@) =~= start + (seq![token@] + factor_tokens(expression@)));
        },
        ASTNode::Value { value } => {
            put(out, literal_of(value));
        },
        ASTNode::Variable { name } => {
            put(out, Token::ID { string: name.clone() });
        },
        ASTNode::FunctionCall { function, parameters } => {
            put_call(out, n, function, parameters);
        },
        ASTNode::BinOp { .. } | ASTNode::Compare { .. } => {
            put(out, Token::ParentheseOpen);
            put_joined(out, n);
            put(out, Token::ParentheseClose);
            assert(token_views(out@) =~= start + (seq![TokenView::ParentheseOpen]
                + joined_tokens(n@) + seq![TokenView::ParentheseClose]));
        },
        _ => {
            assert(start + factor_tokens(n@) =~= start);
        },
    }
}

/// Adds the tokens of a call.
fn put_call(out: &mut Vec<Token>, n: &ASTNode, function: &ASTNode, parameters: &Vec<ASTNode>)
    requires
        *n is FunctionCall,
        n->FunctionCall_parameters == *parameters,
    ensures
        token_views(final(out)@) == token_views(old(out)@) + call_tokens(
            function@,
            views(parameters@),
        ),
    decreases n, 0int,
{
    let ghost start = token_views(out@);
    let ghost list = views(parameters@);
    proof {
        lemma_views(parameters@);
    }
    match function {
        ASTNode::Variable { name } => {
            put(out, Token::ID { string: name.clone() });
            put(out, Token::ParentheseOpen);
            let ghost opened = token_views(out@);
            let mut i: usize = 0;
            assert(list.skip(0) =~= list);
            while i < parameters.len()
                invariant
                    i <= parameters@.len(),
                    list == views(parameters@),
                    list.len() == parameters@.len(),
                    forall|j: int| 0 <= j < list.len() ==> list[j] == (#[trigger] parameters@[j])@,
                    *n is FunctionCall,
                    n->FunctionCall_parameters == *parameters,
                    token_views(out@) + argument_tokens(list.skip(i as int)) == opened
                        + argument_tokens(list),
                decreases parameters@.len() - i,
            {
                let ghost before = token_views(out@);
                let ghost tail = list.skip(i as int);
                proof {
                    assert(tail[0] == list[i as int]);
                    assert(tail.drop_first() =~= list.skip(i + 1));
                    assert(decreases_to!(*n => n->FunctionCall_parameters[i as int]));
                }
                put_expr(out, &parameters[i]);
                if i + 1 < parameters.len() {
                    put(out, Token::Comma);
                    assert(token_views(out@) + argument_tokens(list.skip(i + 1)) =~= before
                        + argument_tokens(tail));
                } else {
                    assert(argument_tokens(list.skip(i + 1)) =~= Seq::<TokenView>::empty());
                    assert(token_views(out@) + argument_tokens(list.skip(i + 1)) =~= before
                        + argument_tokens(tail));
                }
                i = i + 1;
            }
            assert(argument_tokens(list.skip(i as int)) =~= Seq::<TokenView>::empty());
            assert(token_views(out@) =~= opened + argument_tokens(list));
            put(out, Token::ParentheseClose);
            assert(token_views(out@) =~= start + (seq![
                TokenView::ID { string: name@ },
                TokenView::ParentheseOpen,
            ] + argument_tokens(list) + seq![TokenView::ParentheseClose]));
        },
        _ => {
            assert(start + call_tokens(function@, list) =~= start);
        },
    }
}

/// Adds the tokens of an expression where a chain of `*` and `/` is read.
fn put_product(out: &mut Vec<Token>, n: &ASTNode)
    ensures
        token_views(final(out)@) == token_views(old(out)@) + product_tokens(n@),
    decreases n, 2int,
{
    let product: bool = match n {
        ASTNode::BinOp { left: _, right: _, token } => match token {
            Token::Multiply | Token::Divide => true,
            _ => false,
        },
        _ => false,
    };
    if product {
        put_joined(out, n);
    } else {
        put_factor(out, n);
    }
}

/// Adds the tokens of an expression where a term is read.
fn put_term(out: &mut Vec<Token>, n: &ASTNode)
    ensures
        token_views(final(out)@) == token_views(old(out)@) + term_tokens(n@),
    decreases n, 3int,
{
    let comparison: bool = match n {
        ASTNode::Compare { .. } => true,
        _ => false,
    };
    if comparison {
        put_joined(out, n);
    } else {
        put_product(out, n);
    }
}

/// Adds the tokens of an expression.
fn put_expr(out: &mut Vec<Token>, n: &ASTNode)
    ensures
        token_views(final(out)@) == token_views(old(out)@) + expr_tokens(n@),
    decreases n, 4int,
{
    let sum: bool = match n {
        ASTNode::BinOp { left: _, right: _, token } => match token {
            Token::Plus | Token::Minus => true,
            _ => false,
        },
        _ => false,
    };
    if sum {
        put_joined(out, n);
    } else {
        put_term(out, n);
    }
}


/// Adds the tokens of the names of parameters.
fn put_names(out: &mut Vec<Token>, names: &Vec<String>)
    ensures
        token_views(final(out)@) == token_views(old(out)@) + name_tokens(texts(names@)),
{
    let ghost start = token_views(out@);
    let ghost list = texts(names@);
    let mut i: usize = 0;
    assert(list.skip(0) =~= list);
    while i < names.len()
        invariant
            i <= names@.len(),
            list == texts(names@),
            token_views(out@) + name_tokens(list.skip(i as int)) == start + name_tokens(list),
        decreases names@.len() - i,
    {
        let ghost before = token_views(out@);
        let ghost tail = list.skip(i as int);
        proof {
            assert(tail[0] == names@[i as int]@);
            assert(tail.drop_first() =~= list.skip(i + 1));
        }
        put(out, Token::ID { string: names[i].clone() });
        if i < names.len() - 1 {
            put(out, Token::Comma);
            assert(token_views(out@) + name_tokens(list.skip(i + 1)) =~= before + name_tokens(
                tail,
            ));
        } else {
            assert(name_tokens(list.skip(i + 1)) =~= Seq::<TokenView>::empty());
            assert(token_views(out@) + name_tokens(list.skip(i + 1)) =~= before + name_tokens(
                tail,
            ));
        }
        i = i + 1;
    }
    assert(name_tokens(list.skip(i as int)) =~= Seq::<TokenView>::empty());
    assert(token_views(out@) =~= start + name_tokens(list));
}

/// Adds the tokens of a statement.
fn put_statement(out: &mut Vec<Token>, n: &ASTNode)
    ensures
        token_views(final(out)@) == token_views(old(out)@) + statement_tokens(n@),
    decreases n, 1int,
{
    let ghost start = token_views(out@);
    match n {
        ASTNode::Assign { left, right } => match &**left {
            ASTNode::Variable { name } => {
                put(out, Token::ID { string: name.clone() });
                put(out, Token::Assign);
                put_expr(out, right);
                assert(token_views(out@) =~= start + (seq![
                    TokenView::ID { string: name@ },
                    TokenView::Assign,
                ] + expr_tokens(right@)));
            },
            _ => {
                assert(!(left@ is Variable));
                assert(statement_tokens(n@) =~= Seq::<TokenView>::empty());
                assert(start + statement_tokens(n@) =~= start);
            },
        },
        ASTNode::FunctionCall { function, parameters } => {
            put_call(out, n, function, parameters);
            assert(statement_tokens(n@) == call_tokens(function@, views(parameters@)));
        },
        ASTNode::If { condition, execution } => {
            put(out, Token::ReservedKeyword(Keyword::If));
            put_expr(out, condition);
            put_block(out, execution);
            assert(token_views(out@) =~= start + (seq![keyword(Keyword::If)] + expr_tokens(
                condition@,
            ) + block_tokens(execution@)));
        },
        ASTNode::Loop { condition, execution } => {
            put(out, Token::ReservedKeyword(Keyword::Loop));
            put_expr(out, condition);
            put_block(out, execution);
            assert(token_views(out@) =~= start + (seq![keyword(Keyword::Loop)] + expr_tokens(
                condition@,
            ) + block_tokens(execution@)));
        },
        ASTNode::FunctionDeclaration { name, parameters, execution_block } => {
            put(out, Token::ReservedKeyword(Keyword::Function));
            put(out, Token::ID { string: name.clone() });
            put(out, Token::ParentheseOpen);
            put_names(out, parameters);
            put(out, Token::ParentheseClose);
            put_block(out, execution_block);
            assert(token_views(out@) =~= start + (seq![
                keyword(Keyword::Function),
                TokenView::ID { string: name@ },
                TokenView::ParentheseOpen,
            ] + name_tokens(texts(parameters@)) + seq![TokenView::ParentheseClose] + block_tokens(
                execution_block@,
            )));
        },
        ASTNode::Return { expression } => {
            put(out, Token::ReservedKeyword(Keyword::Return));
            put_expr(out, expression);
            assert(token_views(out@) =~= start + (seq![keyword(Keyword::Return)] + expr_tokens(
                expression@,
            )));
        },
        _ => {
            assert(start + statement_tokens(n@) =~= start);
        },
    }
}

/// Adds the tokens of a block between its keywords.
fn put_block(out: &mut Vec<Token>, n: &ASTNode)
    ensures
        token_views(final(out)@) == token_views(old(out)@) + block_tokens(n@),
    decreases n, 0int,
{
    let ghost start = token_views(out@);
    match n {
        ASTNode::Block { children } => {
            put(out, Token::ReservedKeyword(Keyword::Avo));
            put_list(out, n, children);
            put(out, Token::ReservedKeyword(Keyword::Cado));
            assert(token_views(out@) =~= start + (seq![keyword(Keyword::Avo)] + list_tokens(
                views(children@),
            ) + seq![keyword(Keyword::Cado)]));
        },
        _ => {
            assert(start + block_tokens(n@) =~= start);
        },
    }
}

/// Adds the tokens of the statements of the block `n`.
fn put_list(out: &mut Vec<Token>, n: &ASTNode, children: &Vec<ASTNode>)
    requires
        *n is Block,
        n->children == *children,
    ensures
        token_views(final(out)@) == token_views(old(out)@) + list_tokens(views(children@)),
    decreases n, 0int, 0int,
{
    let ghost start = token_views(out@);
    let ghost list = views(children@);
    proof {
        lemma_views(children@);
    }
    if children.len() == 0 {
        assert(start + list_tokens(list) =~= start);
        return ;
    }
    proof {
        assert(decreases_to!(*n => n->children[0]));
    }
    put_statement(out, &children[0]);
    let ghost first = token_views(out@);
    let mut i: usize = 1;
    assert(list.skip(1) =~= list.drop_first());
    while i < children.len()
        invariant
            1 <= i <= children@.len(),
            list == views(children@),
            list.len() == children@.len(),
            forall|j: int| 0 <= j < list.len() ==> list[j] == (#[trigger] children@[j])@,
            *n is Block,
            n->children == *children,
            token_views(out@) + more_tokens(list.skip(i as int)) == first + more_tokens(
                list.drop_first(),
            ),
        decreases children@.len() - i,
    {
        let ghost before = token_views(out@);
        let ghost tail = list.skip(i as int);
        proof {
            assert(tail[0] == list[i as int]);
            assert(tail.drop_first() =~= list.skip(i + 1));
            assert(decreases_to!(*n => n->children[i as int]));
        }
        put(out, Token::EndLine);
        put_statement(out, &children[i]);
        assert(token_views(out@) + more_tokens(list.skip(i + 1)) =~= before + more_tokens(tail));
        i = i + 1;
    }
    assert(more_tokens(list.skip(i as int)) =~= Seq::<TokenView>::empty());
    assert(token_views(out@) =~= start + list_tokens(list));
}

/// The tokens that the tree of a program is written with, and the end behind
/// them.
pub fn program_tokens_of(tree: &ASTNode) -> (tokens: Vec<Token>)
    ensures
        token_views(tokens@) == program_tokens(tree@),
{
    let mut out: Vec<Token> = Vec::new();
    assert(token_views(out@) =~= Seq::<TokenView>::empty());
    match tree {
        ASTNode::Block { children } => {
            put(&mut out, Token::ReservedKeyword(Keyword::Greeting));
            put(&mut out, Token::EndLine);
            put_list(&mut out, tree, children);
            put(&mut out, Token::EndLine);
            put(&mut out, Token::ReservedKeyword(Keyword::Farewell));
            put(&mut out, Token::EOF);
            assert(token_views(out@) =~= seq![keyword(Keyword::Greeting), TokenView::EndLine]
                + list_tokens(views(children@)) + seq![
                TokenView::EndLine,
                keyword(Keyword::Farewell),
                TokenView::EOF,
            ]);
        },
        _ => {},
    }
    out
}

/// Writes the tree of a program down as a text. Whether the text spells
/// the tokens of the tree to the tokenizer depends on the names and texts in
/// the tree; `to_source_checked` finds out.
pub fn to_source(tree: &ASTNode) -> (text: String)
    ensures
        text@ == source(tree@),
{
    render(&program_tokens_of(tree))
}

/// The state in which a parser starts on a text.
pub open spec fn start_of(text: Seq<char>) -> ParserView {
    crate::grammar::start(crate::lexer::LexerView { text, position: 0 })
}

/// Whether a text spells these tokens to the tokenizer, the first of them
/// at its start.
pub fn spells_tokens(text: &str, tokens: &Vec<Token>) -> (spells: bool)
    ensures
        spells == reads(start_of(text@), token_views(tokens@)),
{
    let ghost all = token_views(tokens@);
    if tokens.len() == 0 {
        return true;
    }
    let mut lexer: Lexer = Lexer::new(text);
    let mut current: Token = match lexer.get_next_token() {
        Ok(token) => token,
        Err(_) => Token::EOF,
    };
    let mut i: usize = 0;
    assert(all.skip(0) =~= all);
    loop
        invariant
            i < tokens@.len(),
            all == token_views(tokens@),
            lexer@.text == text@,
            reads(start_of(text@), all) == reads(
                ParserView { text: text@, position: lexer@.position, current: current@ },
                all.skip(i as int),
            ),
        decreases tokens@.len() - i,
    {
        let ghost ahead = all.skip(i as int);
        proof {
            assert(ahead[0] == tokens@[i as int]@);
            assert(ahead.drop_first() =~= all.skip(i + 1));
        }
        if !current.same(&tokens[i]) {
            return false;
        }
        if i == tokens.len() - 1 {
            return true;
        }
        match lexer.get_next_token() {
            Ok(token) => {
                current = token;
            },
            Err(_) => {
                return false;
            },
        }
        i = i + 1;
    }
}

/// Writes the tree of a program down as a text and reads the text again:
/// the text is returned where it spells the tokens of the tree to the
/// tokenizer. Then it is parsed to the tree, if the tree is a program as
/// the parser builds them.
pub fn to_source_checked(tree: &ASTNode) -> (result: Option<String>)
    ensures
        result is Some <==> reads(start_of(source(tree@)), program_tokens(tree@)),
        result matches Some(text) ==> text@ == source(tree@),
        result matches Some(text) ==> (is_block(tree@) ==> crate::grammar::parse_text(text@)
            == Ok::<AstView, crate::lexer::LexerErrorView>(tree@)),
{
    let tokens: Vec<Token> = program_tokens_of(tree);
    let text: String = render(&tokens);
    if spells_tokens(text.as_str(), &tokens) {
        proof {
            if is_block(tree@) {
                lemma_program_reads(start_of(text@), tree@);
            }
        }
        Some(text)
    } else {
        None
    }
}

} // verus!
