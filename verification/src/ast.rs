//! Values and the syntax tree.

use vstd::prelude::*;
use std::rc::Rc;
use vstd::string::StringExecFns;
use crate::lexer::{Token, TokenView};
use crate::text::{chars_of, comes_before, decimal_text, push_decimal, text_before};

verus! {

/// What an expression evaluates to.
#[derive(Debug, PartialEq, Clone)]
pub enum Value {
    Integer(i32),
    String(String),
    Boolean(bool),
    /// The value of what has none: a statement, a call that fell through.
    Nothing,
}

/// A value as a mathematical value: its text is a sequence of characters.
pub enum ValueView {
    Integer(i32),
    String(Seq<char>),
    Boolean(bool),
    Nothing,
}

impl View for Value {
    type V = ValueView;

    open spec fn view(&self) -> ValueView {
        match self {
            Value::Integer(n) => ValueView::Integer(*n),
            Value::String(s) => ValueView::String(s@),
            Value::Boolean(b) => ValueView::Boolean(*b),
            Value::Nothing => ValueView::Nothing,
        }
    }
}

/// The kinds of comparison.
#[derive(Debug, PartialEq, Eq, Clone, Copy, Structural)]
pub enum CompareType {
    Equals,
    Less,
    Greater,
}

/// A node of the syntax tree. Subtrees that stand alone are shared by
/// reference; lists of subtrees are owned.
#[allow(inconsistent_fields)]
#[derive(PartialEq, Debug)]
pub enum ASTNode {
    UnaryOp { expression: Rc<ASTNode>, token: Token },
    BinOp { left: Rc<ASTNode>, right: Rc<ASTNode>, token: Token },
    Value { value: Value },
    FunctionCall { function: Rc<ASTNode>, parameters: Vec<ASTNode> },
    FunctionDeclaration { name: String, parameters: Vec<String>, execution_block: Rc<ASTNode> },
    If { condition: Rc<ASTNode>, execution: Rc<ASTNode> },
    Loop { condition: Rc<ASTNode>, execution: Rc<ASTNode> },
    Compare { left: Rc<ASTNode>, right: Rc<ASTNode>, compare_type: CompareType },
    Block { children: Vec<ASTNode> },
    Assign { left: Rc<ASTNode>, right: Rc<ASTNode> },
    Return { expression: Rc<ASTNode> },
    Variable { name: String },
    NoOp,
}

/// A syntax tree as a mathematical value.
#[allow(inconsistent_fields)]
pub enum AstView {
    UnaryOp { expression: Box<AstView>, token: TokenView },
    BinOp { left: Box<AstView>, right: Box<AstView>, token: TokenView },
    Value { value: ValueView },
    FunctionCall { function: Box<AstView>, parameters: Seq<AstView> },
    FunctionDeclaration { name: Seq<char>, parameters: Seq<Seq<char>>, execution_block: Box<AstView> },
    If { condition: Box<AstView>, execution: Box<AstView> },
    Loop { condition: Box<AstView>, execution: Box<AstView> },
    Compare { left: Box<AstView>, right: Box<AstView>, compare_type: CompareType },
    Block { children: Seq<AstView> },
    Assign { left: Box<AstView>, right: Box<AstView> },
    Return { expression: Box<AstView> },
    Variable { name: Seq<char> },
    NoOp,
}

/// The views of a list of nodes, in order.
#[verifier::opaque]
pub open spec fn views(nodes: Seq<ASTNode>) -> Seq<AstView>
    decreases nodes,
{
    if nodes.len() == 0 {
        Seq::<AstView>::empty()
    } else {
        views(nodes.drop_last()).push(tree(nodes.last()))
    }
}

/// The view of a list has the views of its nodes, in order.
pub broadcast proof fn lemma_views(nodes: Seq<ASTNode>)
    ensures
        #![trigger views(nodes)]
        views(nodes).len() == nodes.len(),
        forall|i: int| 0 <= i < nodes.len() ==> (#[trigger] views(nodes)[i]) == nodes[i]@,
    decreases nodes.len(),
{
    reveal(views);
    if nodes.len() > 0 {
        lemma_views(nodes.drop_last());
    }
}

/// The view of a list with one more node is the view of the list with the
/// view of the node.
pub proof fn lemma_views_push(nodes: Seq<ASTNode>, node: ASTNode)
    ensures
        views(nodes.push(node)) == views(nodes).push(node@),
{
    reveal(views);
    assert(nodes.push(node).drop_last() =~= nodes);
}

/// The view of the empty list is empty.
pub proof fn lemma_views_empty(nodes: Seq<ASTNode>)
    requires
        nodes.len() == 0,
    ensures
        views(nodes) == Seq::<AstView>::empty(),
{
    reveal(views);
}

/// The views of a list of strings, in order.
pub open spec fn texts(names: Seq<String>) -> Seq<Seq<char>> {
    Seq::new(names.len(), |i: int| names[i]@)
}

/// The syntax tree that a node is the root of.
pub open spec fn tree(node: ASTNode) -> AstView
    decreases node,
{
    match node {
        ASTNode::UnaryOp { expression, token } => AstView::UnaryOp {
            expression: Box::new(tree(*expression)),
            token: token@,
        },
        ASTNode::BinOp { left, right, token } => AstView::BinOp {
            left: Box::new(tree(*left)),
            right: Box::new(tree(*right)),
            token: token@,
        },
        ASTNode::Value { value } => AstView::Value { value: value@ },
        ASTNode::FunctionCall { function, parameters } => AstView::FunctionCall {
            function: Box::new(tree(*function)),
            parameters: views(parameters@),
        },
        ASTNode::FunctionDeclaration { name, parameters, execution_block } => {
            AstView::FunctionDeclaration {
                name: name@,
                parameters: texts(parameters@),
                execution_block: Box::new(tree(*execution_block)),
            }
        },
        ASTNode::If { condition, execution } => AstView::If {
            condition: Box::new(tree(*condition)),
            execution: Box::new(tree(*execution)),
        },
        ASTNode::Loop { condition, execution } => AstView::Loop {
            condition: Box::new(tree(*condition)),
            execution: Box::new(tree(*execution)),
        },
        ASTNode::Compare { left, right, compare_type } => AstView::Compare {
            left: Box::new(tree(*left)),
            right: Box::new(tree(*right)),
            compare_type,
        },
        ASTNode::Block { children } => AstView::Block { children: views(children@) },
        ASTNode::Assign { left, right } => AstView::Assign {
            left: Box::new(tree(*left)),
            right: Box::new(tree(*right)),
        },
        ASTNode::Return { expression } => AstView::Return {
            expression: Box::new(tree(*expression)),
        },
        ASTNode::Variable { name } => AstView::Variable { name: name@ },
        ASTNode::NoOp => AstView::NoOp,
    }
}

impl View for ASTNode {
    type V = AstView;

    open spec fn view(&self) -> AstView {
        tree(*self)
    }
}

impl ValueView {
    /// How the value reads: an integer in decimal, a text as it is, a
    /// boolean as `:)` or `:(`, and nothing as `-`.
    pub open spec fn text(self) -> Seq<char> {
        match self {
            ValueView::Integer(n) => decimal_text(n as int),
            ValueView::String(s) => s,
            ValueView::Boolean(b) => if b {
                ":)"@
            } else {
                ":("@
            },
            ValueView::Nothing => "-"@,
        }
    }

    /// The place of the value's kind among the kinds.
    pub open spec fn rank(self) -> int {
        match self {
            ValueView::Integer(_) => 0,
            ValueView::String(_) => 1,
            ValueView::Boolean(_) => 2,
            ValueView::Nothing => 3,
        }
    }

    /// Whether the value is less than `other`. Two integers compare as
    /// numbers, two texts character by character, and false is less than
    /// true; values of two kinds compare as their kinds do: integers are
    /// less than texts, these less than booleans, and these than nothing.
    pub open spec fn before(self, other: ValueView) -> bool {
        match (self, other) {
            (ValueView::Integer(x), ValueView::Integer(y)) => x < y,
            (ValueView::String(x), ValueView::String(y)) => text_before(x, y),
            (ValueView::Boolean(x), ValueView::Boolean(y)) => !x && y,
            _ => self.rank() < other.rank(),
        }
    }
}

impl Value {
    /// Whether two values are of one kind and hold the same.
    pub fn same(&self, other: &Value) -> (r: bool)
        ensures
            r == (self@ == other@),
    {
        match (self, other) {
            (Value::Integer(x), Value::Integer(y)) => *x == *y,
            (Value::String(x), Value::String(y)) => *x == *y,
            (Value::Boolean(x), Value::Boolean(y)) => *x == *y,
            (Value::Nothing, Value::Nothing) => true,
            _ => false,
        }
    }

    /// Whether the value is less than `other`.
    pub fn before(&self, other: &Value) -> (r: bool)
        ensures
            r == self@.before(other@),
    {
        match (self, other) {
            (Value::Integer(x), Value::Integer(y)) => *x < *y,
            (Value::String(x), Value::String(y)) => comes_before(
                &chars_of(x.as_str()),
                &chars_of(y.as_str()),
            ),
            (Value::Boolean(x), Value::Boolean(y)) => !*x && *y,
            (Value::Integer(_), _) => true,
            (Value::String(_), Value::Integer(_)) => false,
            (Value::String(_), _) => true,
            (Value::Boolean(_), Value::Nothing) => true,
            (Value::Boolean(_), _) => false,
            (Value::Nothing, _) => false,
        }
    }

    /// How the value reads.
    pub fn to_string(&self) -> (text: String)
        ensures
            text@ == self@.text(),
    {
        match self {
            Value::Integer(n) => {
                let mut text = String::new();
                if *n < 0 {
                    text.push('-');
                    push_decimal(&mut text, (-(*n as i64)) as u64);
                    assert(text@ =~= decimal_text(*n as int));
                } else {
                    push_decimal(&mut text, *n as u64);
                    assert(text@ =~= decimal_text(*n as int));
                }
                text
            },
            Value::String(s) => s.clone(),
            Value::Boolean(b) => if *b {
                String::from_str(":)")
            } else {
                String::from_str(":(")
            },
            Value::Nothing => String::from_str("-"),
        }
    }

    /// A copy of the value.
    pub fn duplicate(&self) -> (r: Value)
        ensures
            r@ == self@,
    {
        match self {
            Value::Integer(n) => Value::Integer(*n),
            Value::String(s) => Value::String(s.clone()),
            Value::Boolean(b) => Value::Boolean(*b),
            Value::Nothing => Value::Nothing,
        }
    }
}

/// A copy of a list of strings.
pub fn duplicate_names(names: &Vec<String>) -> (r: Vec<String>)
    ensures
        texts(r@) == texts(names@),
{
    let mut out: Vec<String> = Vec::new();
    let mut i: usize = 0;
    while i < names.len()
        invariant
            i <= names.len(),
            out@.len() == i,
            forall|j: int| 0 <= j < i ==> out@[j]@ == names@[j]@,
        decreases names.len() - i,
    {
        out.push(names[i].clone());
        i = i + 1;
    }
    assert(texts(out@) =~= texts(names@));
    out
}

impl Clone for ASTNode {
    fn clone(&self) -> (r: ASTNode)
        ensures
            r@ == self@,
    {
        self.duplicate()
    }
}

impl ASTNode {
    /// A copy of the node. Subtrees that the node shares stay shared.
    pub fn duplicate(&self) -> (r: ASTNode)
        ensures
            r@ == self@,
        decreases self,
    {
        match self {
            ASTNode::UnaryOp { expression, token } => ASTNode::UnaryOp {
                expression: expression.clone(),
                token: token.duplicate(),
            },
            ASTNode::BinOp { left, right, token } => ASTNode::BinOp {
                left: left.clone(),
                right: right.clone(),
                token: token.duplicate(),
            },
            ASTNode::Value { value } => ASTNode::Value { value: value.duplicate() },
            ASTNode::FunctionCall { function, parameters } => {
                let mut out: Vec<ASTNode> = Vec::new();
                let mut i: usize = 0;
                while i < parameters.len()
                    invariant
                        i <= parameters.len(),
                        out@.len() == i,
                        *self is FunctionCall,
                        self->FunctionCall_parameters == *parameters,
                        forall|j: int| 0 <= j < i ==> out@[j]@ == parameters@[j]@,
                    decreases parameters.len() - i,
                {
                    assert(decreases_to!(*self => self->FunctionCall_parameters[i as int]));
                    out.push(parameters[i].duplicate());
                    i = i + 1;
                }
                proof {
                    lemma_views(out@);
                    lemma_views(parameters@);
                }
                assert(views(out@) =~= views(parameters@));
                let copy = ASTNode::FunctionCall { function: function.clone(), parameters: out };
                assert(copy@->FunctionCall_parameters == self@->FunctionCall_parameters) by {
                    reveal(views);
                }
                copy
            },
            ASTNode::FunctionDeclaration { name, parameters, execution_block } => {
                ASTNode::FunctionDeclaration {
                    name: name.clone(),
                    parameters: duplicate_names(parameters),
                    execution_block: execution_block.clone(),
                }
            },
            ASTNode::If { condition, execution } => ASTNode::If {
                condition: condition.clone(),
                execution: execution.clone(),
            },
            ASTNode::Loop { condition, execution } => ASTNode::Loop {
                condition: condition.clone(),
                execution: execution.clone(),
            },
            ASTNode::Compare { left, right, compare_type } => ASTNode::Compare {
                left: left.clone(),
                right: right.clone(),
                compare_type: *compare_type,
            },
            ASTNode::Block { children } => {
                let mut out: Vec<ASTNode> = Vec::new();
                let mut i: usize = 0;
                while i < children.len()
                    invariant
                        i <= children.len(),
                        out@.len() == i,
                        *self is Block,
                        self->children == *children,
                        forall|j: int| 0 <= j < i ==> out@[j]@ == children@[j]@,
                    decreases children.len() - i,
                {
                    assert(decreases_to!(*self => self->children[i as int]));
                    out.push(children[i].duplicate());
                    i = i + 1;
                }
                proof {
                    lemma_views(out@);
                    lemma_views(children@);
                }
                assert(views(out@) =~= views(children@));
                let copy = ASTNode::Block { children: out };
                assert(copy@->children == self@->children) by {
                    reveal(views);
                }
                copy
            },
            ASTNode::Assign { left, right } => ASTNode::Assign {
                left: left.clone(),
                right: right.clone(),
            },
            ASTNode::Return { expression } => ASTNode::Return { expression: expression.clone() },
            ASTNode::Variable { name } => ASTNode::Variable { name: name.clone() },
            ASTNode::NoOp => ASTNode::NoOp,
        }
    }

    /// Whether the node is the empty statement.
    pub fn is_noop(&self) -> (r: bool)
        ensures
            r == (self@ is NoOp),
    {
        match self {
            ASTNode::NoOp => true,
            _ => false,
        }
    }
}

} // verus!
