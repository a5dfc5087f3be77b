//! The evaluator: it walks a tree node by node and can be left alone
//! between any two steps, so that its surroundings print, read and wait.

use vstd::prelude::*;
use vstd::string::StringExecFns;
use std::rc::Rc;
use crate::ast::{ASTNode, AstView, CompareType, Value, ValueView, lemma_views, views};
use crate::humanoid::{Demand, Mood, Worker, read_value};
use crate::lexer::{LexerError, Token};
use crate::parser::Parser;
use crate::semantics::{
    ActionView, FrameView, InterpreterErrorView, MachineView, OutcomeView, PhaseView, ScopeView,
    Stepped, answer_of, arithmetic, base, catcher, compared, complete, conclude, current, descend,
    empty_scope, fatal, finish, fresh, gather, gathered, halt, in_body, is_input, is_output,
    lives, popped, run, run_assign, run_binop, run_block, run_call, run_compare,
    run_declaration, run_declared, run_found, run_guarded, run_input, run_output, run_return,
    run_unary, run_variable, stay, step, unwind, with_current,
};
use crate::table::Table;
use crate::text::{chars_of, spells};

verus! {

/// One call's variables, and the functions that it can see.
#[derive(Debug)]
pub struct Scope {
    pub symbol_table: Table<Value>,
    pub function_table: Table<Rc<ASTNode>>,
}

impl View for Scope {
    type V = ScopeView;

    open spec fn view(&self) -> ScopeView {
        ScopeView { symbols: self.symbol_table@, functions: self.function_table@ }
    }
}

impl Scope {
    /// The scope without variables and functions.
    pub fn new() -> (scope: Scope)
        ensures
            scope@ == empty_scope(),
    {
        Scope { symbol_table: Table::new(), function_table: Table::new() }
    }

    /// A scope without variables that sees the functions of this one.
    pub fn inherit(&self) -> (scope: Scope)
        ensures
            scope@ == (ScopeView { symbols: Map::empty(), functions: self@.functions }),
    {
        let mut entries: Vec<(String, Rc<ASTNode>)> = Vec::new();
        let mut i: usize = 0;
        while i < self.function_table.entries.len()
            invariant
                i <= self.function_table.entries@.len(),
                entries@.len() == i,
                forall|j: int|
                    0 <= j < i ==> (#[trigger] entries@[j]).0@ == self.function_table.entries@[j].0@
                        && entries@[j].1@ == self.function_table.entries@[j].1@,
            decreases self.function_table.entries@.len() - i,
        {
            let entry = &self.function_table.entries[i];
            entries.push((entry.0.clone(), entry.1.clone()));
            i = i + 1;
        }
        proof {
            crate::table::lemma_same_bindings(entries@, self.function_table.entries@);
        }
        Scope { symbol_table: Table::new(), function_table: Table { entries } }
    }
}

/// Why an evaluation ended without a value.
#[derive(Debug)]
pub enum InterpreterError {
    /// A return that no call caught, with the value that it carried.
    HackyReturn(Value),
    /// The worker was given a wrong answer.
    DisturbedWorker,
    /// An arithmetic operand that is no integer.
    NotANumber,
    /// A boolean was needed as a condition.
    NotABoolean,
    UnknownVariable(String),
    UnknownFunction(String),
    /// A call with more or fewer arguments than the function has parameters.
    InvalidArgumentCount,
    /// A second declaration of a function in one scope.
    AlreadyDeclared(String),
    /// An operator node whose token is no operator of its kind.
    InvalidOperator,
    /// An assignment to what is no variable.
    InvalidAssignTarget,
    /// A function table entry that is no declaration.
    InvalidFunction,
    DivisionByZero,
    /// A result that does not fit into 32 bits.
    Overflow,
}

impl View for InterpreterError {
    type V = InterpreterErrorView;

    open spec fn view(&self) -> InterpreterErrorView {
        match self {
            InterpreterError::HackyReturn(value) => InterpreterErrorView::HackyReturn(value@),
            InterpreterError::DisturbedWorker => InterpreterErrorView::DisturbedWorker,
            InterpreterError::NotANumber => InterpreterErrorView::NotANumber,
            InterpreterError::NotABoolean => InterpreterErrorView::NotABoolean,
            InterpreterError::UnknownVariable(name) => InterpreterErrorView::UnknownVariable(name@),
            InterpreterError::UnknownFunction(name) => InterpreterErrorView::UnknownFunction(name@),
            InterpreterError::InvalidArgumentCount => InterpreterErrorView::InvalidArgumentCount,
            InterpreterError::AlreadyDeclared(name) => InterpreterErrorView::AlreadyDeclared(name@),
            InterpreterError::InvalidOperator => InterpreterErrorView::InvalidOperator,
            InterpreterError::InvalidAssignTarget => InterpreterErrorView::InvalidAssignTarget,
            InterpreterError::InvalidFunction => InterpreterErrorView::InvalidFunction,
            InterpreterError::DivisionByZero => InterpreterErrorView::DivisionByZero,
            InterpreterError::Overflow => InterpreterErrorView::Overflow,
        }
    }
}

impl InterpreterError {
    /// A copy of the error.
    pub fn duplicate(&self) -> (r: InterpreterError)
        ensures
            r@ == self@,
    {
        match self {
            InterpreterError::HackyReturn(value) => InterpreterError::HackyReturn(value.duplicate()),
            InterpreterError::DisturbedWorker => InterpreterError::DisturbedWorker,
            InterpreterError::NotANumber => InterpreterError::NotANumber,
            InterpreterError::NotABoolean => InterpreterError::NotABoolean,
            InterpreterError::UnknownVariable(name) => InterpreterError::UnknownVariable(name.clone()),
            InterpreterError::UnknownFunction(name) => InterpreterError::UnknownFunction(name.clone()),
            InterpreterError::InvalidArgumentCount => InterpreterError::InvalidArgumentCount,
            InterpreterError::AlreadyDeclared(name) => InterpreterError::AlreadyDeclared(name.clone()),
            InterpreterError::InvalidOperator => InterpreterError::InvalidOperator,
            InterpreterError::InvalidAssignTarget => InterpreterError::InvalidAssignTarget,
            InterpreterError::InvalidFunction => InterpreterError::InvalidFunction,
            InterpreterError::DivisionByZero => InterpreterError::DivisionByZero,
            InterpreterError::Overflow => InterpreterError::Overflow,
        }
    }
}

/// The view of how an evaluation ended.
pub open spec fn outcome_view(outcome: Result<Value, InterpreterError>) -> OutcomeView {
    match outcome {
        Ok(value) => Ok(value@),
        Err(error) => Err(error@),
    }
}

/// The view of a value that may be missing.
pub open spec fn optional_view(value: Option<Value>) -> Option<ValueView> {
    match value {
        Some(value) => Some(value@),
        None => None,
    }
}

/// A copy of how an evaluation ended.
pub fn duplicate_outcome(outcome: &Result<Value, InterpreterError>) -> (r: Result<
    Value,
    InterpreterError,
>)
    ensures
        outcome_view(r) == outcome_view(*outcome),
{
    match outcome {
        Ok(value) => Ok(value.duplicate()),
        Err(error) => Err(error.duplicate()),
    }
}

/// A node whose evaluation has begun, and how far it has come.
#[derive(Debug)]
pub struct Frame {
    pub node: Rc<ASTNode>,
    pub stage: usize,
    pub held: Value,
    pub text: String,
    pub scope: Scope,
    pub callee: Option<Rc<ASTNode>>,
    pub entered: bool,
}

impl View for Frame {
    type V = FrameView;

    open spec fn view(&self) -> FrameView {
        FrameView {
            node: self.node@,
            stage: self.stage as nat,
            held: self.held@,
            text: self.text@,
            scope: self.scope@,
            callee: match self.callee {
                Some(declaration) => Some(declaration@),
                None => None,
            },
            entered: self.entered,
        }
    }
}

impl Frame {
    /// The frame of a node of which nothing has been evaluated.
    pub fn fresh(node: Rc<ASTNode>) -> (frame: Frame)
        ensures
            frame@ == fresh(node@),
    {
        Frame {
            node,
            stage: 0,
            held: Value::Nothing,
            text: String::new(),
            scope: Scope::new(),
            callee: None,
            entered: false,
        }
    }
}

/// What the evaluator does next.
#[derive(Debug)]
pub enum Phase {
    Run,
    Pending { value: Value, question: bool },
    Asked { value: Value },
    Reading,
    Returning { value: Value },
    Done(Result<Value, InterpreterError>),
}

impl View for Phase {
    type V = PhaseView;

    open spec fn view(&self) -> PhaseView {
        match self {
            Phase::Run => PhaseView::Run,
            Phase::Pending { value, question } => PhaseView::Pending {
                value: value@,
                question: *question,
            },
            Phase::Asked { value } => PhaseView::Asked { value: value@ },
            Phase::Reading => PhaseView::Reading,
            Phase::Returning { value } => PhaseView::Returning { value: value@ },
            Phase::Done(outcome) => PhaseView::Done(outcome_view(*outcome)),
        }
    }
}

/// What the surroundings are to do before the next step.
#[derive(Debug)]
pub enum Action {
    /// Nothing.
    Continue,
    /// Show the mood that the worker is in now.
    ShowMood(Mood),
    /// Show the variables and the node, and read the answer.
    Ask { node: Rc<ASTNode> },
    /// The answer was right; `nothing` says that the value was none.
    Thank { nothing: bool },
    /// The answer was wrong: `expected` was the value.
    Rebuke { expected: Value },
    /// Hand the text to the output with the intensity `level`.
    Shout { level: usize, text: String },
    /// Show the prompt and read a line.
    Read { prompt: String },
    /// Nothing more: the evaluation is over.
    Finished(Result<Value, InterpreterError>),
}

impl View for Action {
    type V = ActionView;

    open spec fn view(&self) -> ActionView {
        match self {
            Action::Continue => ActionView::Continue,
            Action::ShowMood(mood) => ActionView::ShowMood(*mood),
            Action::Ask { node } => ActionView::Ask { node: node@ },
            Action::Thank { nothing } => ActionView::Thank { nothing: *nothing },
            Action::Rebuke { expected } => ActionView::Rebuke { expected: expected@ },
            Action::Shout { level, text } => ActionView::Shout { level: *level as nat, text: text@ },
            Action::Read { prompt } => ActionView::Read { prompt: prompt@ },
            Action::Finished(outcome) => ActionView::Finished(outcome_view(*outcome)),
        }
    }
}

/// The views of the scopes of a call stack.
pub open spec fn scope_views(scopes: Seq<Scope>) -> Seq<ScopeView> {
    Seq::new(scopes.len(), |i: int| scopes[i]@)
}

/// The views of the frames of a stack of nodes.
pub open spec fn frame_views(frames: Seq<Frame>) -> Seq<FrameView> {
    Seq::new(frames.len(), |i: int| frames[i]@)
}

/// The evaluator proper: what it evaluates, in which scopes, how far it
/// has come, and the worker that watches it.
pub struct Machine {
    /// The scope of the program.
    global: Scope,
    /// The scopes of the calls that evaluate their body, the innermost last.
    call_stack: Vec<Scope>,
    worker: Worker,
    frames: Vec<Frame>,
    delivered: Option<Value>,
    phase: Phase,
}

impl View for Machine {
    type V = MachineView;

    closed spec fn view(&self) -> MachineView {
        MachineView {
            scopes: seq![self.global@] + scope_views(self.call_stack@),
            worker: self.worker@,
            frames: frame_views(self.frames@),
            delivered: optional_view(self.delivered),
            phase: self.phase@,
        }
    }
}

/// A parser and the evaluator of what it parses.
pub struct Interpreter {
    parser: Parser,
    machine: Machine,
}

impl View for Interpreter {
    type V = MachineView;

    closed spec fn view(&self) -> MachineView {
        self.machine@
    }
}

/// The frames with one more have the views of the frames and its view.
pub proof fn lemma_frames_push(frames: Seq<Frame>, frame: Frame)
    ensures
        frame_views(frames.push(frame)) == frame_views(frames).push(frame@),
{
    assert(frame_views(frames.push(frame)) =~= frame_views(frames).push(frame@));
}

/// The frames without the last have the views of the frames without the
/// last.
pub proof fn lemma_frames_pop(frames: Seq<Frame>)
    requires
        frames.len() > 0,
    ensures
        frame_views(frames.drop_last()) == frame_views(frames).drop_last(),
        frame_views(frames).last() == frames.last()@,
{
    assert(frame_views(frames.drop_last()) =~= frame_views(frames).drop_last());
}

/// The scopes with one more have the views of the scopes and its view.
pub proof fn lemma_scopes_push(scopes: Seq<Scope>, scope: Scope)
    ensures
        scope_views(scopes.push(scope)) == scope_views(scopes).push(scope@),
{
    assert(scope_views(scopes.push(scope)) =~= scope_views(scopes).push(scope@));
}

/// The scopes without the last have the views of the scopes without the
/// last.
pub proof fn lemma_scopes_pop(scopes: Seq<Scope>)
    requires
        scopes.len() > 0,
    ensures
        scope_views(scopes.drop_last()) == scope_views(scopes).drop_last(),
        scope_views(scopes).last() == scopes.last()@,
{
    assert(scope_views(scopes.drop_last()) =~= scope_views(scopes).drop_last());
}

/// A state and an action as one.
pub open spec fn stepped(machine: MachineView, action: ActionView) -> Stepped {
    Stepped { machine, action }
}

impl Machine {
    /// A machine that has nothing to evaluate yet. Its worker is fresh, and
    /// never tires where `strict_work` is set.
    pub fn new(strict_work: bool) -> (machine: Machine)
        ensures
            machine@ == crate::semantics::idle(Worker::new_view(strict_work)),
    {
        let machine = Machine {
            global: Scope::new(),
            call_stack: Vec::new(),
            worker: Worker::new(strict_work),
            frames: Vec::new(),
            delivered: None,
            phase: Phase::Run,
        };
        assert(machine@.scopes =~= seq![empty_scope()]);
        assert(machine@.frames =~= Seq::<FrameView>::empty());
        machine
    }

    /// Gives up what is being evaluated and starts on `tree`, in one empty
    /// scope. The worker stays as it is.
    pub fn load(&mut self, tree: ASTNode)
        ensures
            final(self)@ == crate::semantics::loaded(old(self)@.worker, tree@),
    {
        self.global = Scope::new();
        self.call_stack.clear();
        self.frames.clear();
        self.frames.push(Frame::fresh(Rc::new(tree)));
        self.delivered = None;
        self.phase = Phase::Run;
        assert(self@.scopes =~= seq![empty_scope()]);
        assert(self@.frames =~= seq![fresh(tree@)]);
    }

    /// How many calls evaluate their body: each has a scope of its own,
    /// above the scope of the program.
    pub fn depth(&self) -> (depth: usize)
        ensures
            depth + 1 == self@.scopes.len(),
    {
        self.call_stack.len()
    }

    /// The scope of the running call, or of the program where none runs.
    pub fn scope(&self) -> (scope: &Scope)
        ensures
            scope@ == current(self@),
    {
        if self.call_stack.len() == 0 {
            &self.global
        } else {
            proof {
                lemma_scopes_pop(self.call_stack@);
            }
            &self.call_stack[self.call_stack.len() - 1]
        }
    }

    /// The worker that watches the evaluation.
    pub fn worker(&self) -> (worker: &Worker)
        ensures
            worker@ == self@.worker,
    {
        &self.worker
    }

    /// Whether the evaluation is over.
    pub fn is_done(&self) -> (done: bool)
        ensures
            done == (self@.phase is Done),
    {
        match &self.phase {
            Phase::Done(_) => true,
            _ => false,
        }
    }

    /// Leaves the scope of the running call, unless it is the first.
    fn leave_scope(&mut self)
        ensures
            final(self)@ == (MachineView { scopes: popped(old(self)@.scopes), ..old(self)@ }),
    {
        if self.call_stack.len() > 0 {
            let ghost before = self.call_stack@;
            self.call_stack.pop();
            assert(seq![self.global@] + scope_views(self.call_stack@) =~= (seq![self.global@]
                + scope_views(before)).drop_last());
        }
    }

    /// Enters a scope: it is that of the running call from now on.
    fn enter_scope(&mut self, scope: Scope)
        ensures
            final(self)@ == (MachineView {
                scopes: old(self)@.scopes.push(scope@),
                ..old(self)@
            }),
    {
        proof {
            lemma_scopes_push(self.call_stack@, scope);
            assert(seq![self.global@] + scope_views(self.call_stack@).push(scope@) =~= (seq![
                self.global@,
            ] + scope_views(self.call_stack@)).push(scope@));
        }
        self.call_stack.push(scope);
    }

    /// Takes the innermost node off the stack, and what was delivered to it.
    fn take_frame(&mut self) -> (taken: (Frame, Option<Value>))
        requires
            old(self)@.frames.len() > 0,
        ensures
            taken.0@ == old(self)@.frames.last(),
            optional_view(taken.1) == old(self)@.delivered,
            final(self)@ == (MachineView { phase: old(self)@.phase, ..base(old(self)@) }),
    {
        proof {
            lemma_frames_pop(self.frames@);
        }
        let frame: Frame = self.frames.pop().unwrap();
        let delivered: Option<Value> = self.delivered.take();
        (frame, delivered)
    }

    fn halt(&mut self, outcome: Result<Value, InterpreterError>) -> (action: Action)
        ensures
            stepped(final(self)@, action@) == halt(old(self)@, outcome_view(outcome)),
    {
        let ghost before = self.call_stack@;
        self.call_stack.clear();
        self.frames.clear();
        self.delivered = None;
        self.phase = Phase::Done(duplicate_outcome(&outcome));
        assert(seq![self.global@] + scope_views(self.call_stack@) =~= (seq![self.global@]
            + scope_views(before)).take(1));
        assert(frame_views(self.frames@) =~= Seq::<FrameView>::empty());
        Action::Finished(outcome)
    }

    fn fatal(&mut self, error: InterpreterError) -> (action: Action)
        ensures
            stepped(final(self)@, action@) == fatal(old(self)@, error@),
    {
        self.halt(Err(error))
    }

    fn complete(&mut self, value: Value) -> (action: Action)
        ensures
            stepped(final(self)@, action@) == complete(old(self)@, value@),
    {
        if self.frames.len() == 0 {
            self.halt(Ok(value))
        } else {
            self.delivered = Some(value);
            self.phase = Phase::Run;
            Action::Continue
        }
    }

    fn stay(&mut self, frame: Frame) -> (action: Action)
        ensures
            stepped(final(self)@, action@) == stay(old(self)@, frame@),
    {
        proof {
            lemma_frames_push(self.frames@, frame);
        }
        self.frames.push(frame);
        Action::Continue
    }

    fn descend(&mut self, frame: Frame, child: Rc<ASTNode>) -> (action: Action)
        ensures
            stepped(final(self)@, action@) == descend(old(self)@, frame@, child@),
    {
        let inner: Frame = Frame::fresh(child);
        proof {
            lemma_frames_push(self.frames@, frame);
            lemma_frames_push(self.frames@.push(frame), inner);
        }
        self.frames.push(frame);
        self.frames.push(inner);
        Action::Continue
    }

    fn conclude(&mut self, frame: Frame, value: Value) -> (action: Action)
        ensures
            stepped(final(self)@, action@) == conclude(old(self)@, frame@, value@),
    {
        let returns: bool = match &*frame.node {
            ASTNode::Return { .. } => true,
            _ => false,
        };
        if returns {
            self.delivered = None;
            self.phase = Phase::Returning { value };
            Action::Continue
        } else {
            self.complete(value)
        }
    }

    fn finish(&mut self, frame: Frame, value: Value, now: u128, stress: u32) -> (action: Action)
        ensures
            stepped(final(self)@, action@) == finish(old(self)@, frame@, value@, now, stress),
    {
        proof {
            reveal(finish);
        }
        let demand: Demand = self.worker.tick(stress, now, &*frame.node);
        match demand.mood {
            Some(mood) => {
                proof {
                    lemma_frames_push(self.frames@, frame);
                }
                self.frames.push(frame);
                self.phase = Phase::Pending { value, question: demand.question };
                Action::ShowMood(mood)
            },
            None => {
                if demand.question {
                    let node: Rc<ASTNode> = frame.node.clone();
                    proof {
                        lemma_frames_push(self.frames@, frame);
                    }
                    self.frames.push(frame);
                    self.phase = Phase::Asked { value };
                    Action::Ask { node }
                } else {
                    self.conclude(frame, value)
                }
            },
        }
    }
}


/// The result of an arithmetic operation on two integers.
pub fn calculate(token: &Token, left: i32, right: i32) -> (result: Result<i32, InterpreterError>)
    ensures
        match result {
            Ok(value) => arithmetic(token@, left, right) == Ok::<i32, InterpreterErrorView>(value),
            Err(error) => arithmetic(token@, left, right) == Err::<i32, InterpreterErrorView>(
                error@,
            ),
        },
{
    match token {
        Token::Plus => match left.checked_add(right) {
            Some(value) => Ok(value),
            None => Err(InterpreterError::Overflow),
        },
        Token::Minus => match left.checked_sub(right) {
            Some(value) => Ok(value),
            None => Err(InterpreterError::Overflow),
        },
        Token::Multiply => match left.checked_mul(right) {
            Some(value) => Ok(value),
            None => Err(InterpreterError::Overflow),
        },
        Token::Divide => if right == 0 {
            Err(InterpreterError::DivisionByZero)
        } else {
            match left.checked_div(right) {
                Some(value) => Ok(value),
                None => Err(InterpreterError::Overflow),
            }
        },
        _ => Err(InterpreterError::InvalidOperator),
    }
}

/// The result of a comparison.
pub fn compare(kind: CompareType, left: &Value, right: &Value) -> (result: bool)
    ensures
        result == compared(kind, left@, right@),
{
    match kind {
        CompareType::Equals => left.same(right),
        CompareType::Less => left.before(right),
        CompareType::Greater => right.before(left),
    }
}

impl Machine {
    /// What `name` stands for in the running call.
    fn resolve_variable(&self, name: &String) -> (value: Option<Value>)
        ensures
            match value {
                Some(v) => current(self@).symbols.dom().contains(name@) && current(
                    self@,
                ).symbols[name@] == v@,
                None => !current(self@).symbols.dom().contains(name@),
            },
    {
        match self.scope().symbol_table.get(name) {
            Some(value) => Some(value.duplicate()),
            None => None,
        }
    }

    /// The function that `name` stands for in the running call.
    fn resolve_function(&self, name: &String) -> (function: Option<Rc<ASTNode>>)
        ensures
            match function {
                Some(f) => current(self@).functions.dom().contains(name@) && current(
                    self@,
                ).functions[name@] == f@,
                None => !current(self@).functions.dom().contains(name@),
            },
    {
        match self.scope().function_table.get(name) {
            Some(function) => Some(function.clone()),
            None => None,
        }
    }

    /// Lets `name` stand for `value` in the running call.
    fn bind(&mut self, name: String, value: Value)
        ensures
            final(self)@ == with_current(
                old(self)@,
                ScopeView {
                    symbols: current(old(self)@).symbols.insert(name@, value@),
                    ..current(old(self)@)
                },
            ),
    {
        let ghost before = self@.scopes;
        match self.call_stack.pop() {
            Some(mut scope) => {
                scope.symbol_table.insert(name, value);
                self.call_stack.push(scope);
                assert(self@.scopes =~= before.update(before.len() - 1, scope@));
            },
            None => {
                self.global.symbol_table.insert(name, value);
                assert(self@.scopes =~= before.update(before.len() - 1, self.global@));
            },
        }
    }

    /// Lets `name` stand for the function `node` in the running call.
    fn declare(&mut self, name: String, node: Rc<ASTNode>)
        ensures
            final(self)@ == with_current(
                old(self)@,
                ScopeView {
                    functions: current(old(self)@).functions.insert(name@, node@),
                    ..current(old(self)@)
                },
            ),
    {
        let ghost before = self@.scopes;
        match self.call_stack.pop() {
            Some(mut scope) => {
                scope.function_table.insert(name, node);
                self.call_stack.push(scope);
                assert(self@.scopes =~= before.update(before.len() - 1, scope@));
            },
            None => {
                self.global.function_table.insert(name, node);
                assert(self@.scopes =~= before.update(before.len() - 1, self.global@));
            },
        }
    }

    fn run_variable(&mut self, frame: Frame, name: &String, now: u128, stress: u32) -> (action:
        Action)
        ensures
            stepped(final(self)@, action@) == run_variable(old(self)@, frame@, name@, now, stress),
    {
        proof {
            reveal(run_variable);
        }
        match self.resolve_variable(name) {
            Some(value) => self.finish(frame, value, now, stress),
            None => self.fatal(InterpreterError::UnknownVariable(name.clone())),
        }
    }

    fn run_declaration(&mut self, frame: Frame, name: &String, now: u128, stress: u32) -> (action:
        Action)
        ensures
            stepped(final(self)@, action@) == run_declaration(
                old(self)@,
                frame@,
                name@,
                now,
                stress,
            ),
    {
        proof {
            reveal(run_declaration);
        }
        match self.resolve_function(name) {
            Some(_) => self.fatal(InterpreterError::AlreadyDeclared(name.clone())),
            None => {
                self.declare(name.clone(), frame.node.clone());
                self.finish(frame, Value::Nothing, now, stress)
            },
        }
    }

    fn run_unary(
        &mut self,
        frame: Frame,
        delivered: Option<Value>,
        expression: &Rc<ASTNode>,
        token: &Token,
        now: u128,
        stress: u32,
    ) -> (action: Action)
        ensures
            stepped(final(self)@, action@) == run_unary(
                old(self)@,
                frame@,
                optional_view(delivered),
                expression@,
                token@,
                now,
                stress,
            ),
    {
        proof {
            reveal(run_unary);
        }
        let negates: bool = match token {
            Token::Plus => false,
            Token::Minus => true,
            _ => {
                return self.fatal(InterpreterError::InvalidOperator);
            },
        };
        if frame.stage == 0 {
            let mut frame: Frame = frame;
            frame.stage = 1;
            return self.descend(frame, expression.clone());
        }
        match delivered {
            Some(Value::Integer(v)) => {
                if !negates {
                    self.finish(frame, Value::Integer(v), now, stress)
                } else if v == i32::MIN {
                    self.fatal(InterpreterError::Overflow)
                } else {
                    self.finish(frame, Value::Integer(-v), now, stress)
                }
            },
            _ => self.fatal(InterpreterError::NotANumber),
        }
    }

    fn run_binop(
        &mut self,
        frame: Frame,
        delivered: Option<Value>,
        left: &Rc<ASTNode>,
        right: &Rc<ASTNode>,
        token: &Token,
        now: u128,
        stress: u32,
    ) -> (action: Action)
        ensures
            stepped(final(self)@, action@) == run_binop(
                old(self)@,
                frame@,
                optional_view(delivered),
                left@,
                right@,
                token@,
                now,
                stress,
            ),
    {
        proof {
            reveal(run_binop);
        }
        match token {
            Token::Plus | Token::Minus | Token::Multiply | Token::Divide => {},
            _ => {
                return self.fatal(InterpreterError::InvalidOperator);
            },
        }
        if frame.stage == 0 {
            let mut frame: Frame = frame;
            frame.stage = 1;
            return self.descend(frame, left.clone());
        }
        let v: i32 = match delivered {
            Some(Value::Integer(v)) => v,
            _ => {
                return self.fatal(InterpreterError::NotANumber);
            },
        };
        if frame.stage == 1 {
            let mut frame: Frame = frame;
            frame.stage = 2;
            frame.held = Value::Integer(v);
            return self.descend(frame, right.clone());
        }
        let l: i32 = match &frame.held {
            Value::Integer(l) => *l,
            _ => {
                return self.fatal(InterpreterError::NotANumber);
            },
        };
        match calculate(token, l, v) {
            Ok(result) => self.finish(frame, Value::Integer(result), now, stress),
            Err(error) => self.fatal(error),
        }
    }

    fn run_block(&mut self, frame: Frame, children: &Vec<ASTNode>, now: u128, stress: u32) -> (action:
        Action)
        ensures
            stepped(final(self)@, action@) == run_block(
                old(self)@,
                frame@,
                views(children@),
                now,
                stress,
            ),
    {
        proof {
            reveal(run_block);
        }
        proof {
            lemma_views(children@);
        }
        if frame.stage < children.len() {
            let child: Rc<ASTNode> = Rc::new(children[frame.stage].duplicate());
            let mut frame: Frame = frame;
            frame.stage = frame.stage + 1;
            self.descend(frame, child)
        } else {
            self.finish(frame, Value::Nothing, now, stress)
        }
    }

    fn run_assign(
        &mut self,
        frame: Frame,
        delivered: Option<Value>,
        left: &Rc<ASTNode>,
        right: &Rc<ASTNode>,
        now: u128,
        stress: u32,
    ) -> (action: Action)
        ensures
            stepped(final(self)@, action@) == run_assign(
                old(self)@,
                frame@,
                optional_view(delivered),
                left@,
                right@,
                now,
                stress,
            ),
    {
        proof {
            reveal(run_assign);
        }
        let name: String = match &**left {
            ASTNode::Variable { name } => name.clone(),
            _ => {
                return self.fatal(InterpreterError::InvalidAssignTarget);
            },
        };
        if frame.stage == 0 {
            let mut frame: Frame = frame;
            frame.stage = 1;
            return self.descend(frame, right.clone());
        }
        let value: Value = match delivered {
            Some(value) => value,
            None => Value::Nothing,
        };
        self.bind(name, value);
        self.finish(frame, Value::Nothing, now, stress)
    }

    fn run_guarded(
        &mut self,
        frame: Frame,
        delivered: Option<Value>,
        condition: &Rc<ASTNode>,
        execution: &Rc<ASTNode>,
        repeats: bool,
        now: u128,
        stress: u32,
    ) -> (action: Action)
        ensures
            stepped(final(self)@, action@) == run_guarded(
                old(self)@,
                frame@,
                optional_view(delivered),
                condition@,
                execution@,
                repeats,
                now,
                stress,
            ),
    {
        proof {
            reveal(run_guarded);
        }
        if frame.stage == 0 {
            let mut frame: Frame = frame;
            frame.stage = 1;
            self.descend(frame, condition.clone())
        } else if frame.stage == 1 {
            match delivered {
                Some(Value::Boolean(true)) => {
                    let mut frame: Frame = frame;
                    frame.stage = 2;
                    self.descend(frame, execution.clone())
                },
                Some(Value::Boolean(false)) => self.finish(
                    frame,
                    Value::Nothing,
                    now,
                    stress,
                ),
                _ => self.fatal(InterpreterError::NotABoolean),
            }
        } else if repeats {
            let mut frame: Frame = frame;
            frame.stage = 1;
            self.descend(frame, condition.clone())
        } else {
            self.finish(frame, Value::Nothing, now, stress)
        }
    }

    fn run_compare(
        &mut self,
        frame: Frame,
        delivered: Option<Value>,
        left: &Rc<ASTNode>,
        right: &Rc<ASTNode>,
        kind: CompareType,
        now: u128,
        stress: u32,
    ) -> (action: Action)
        ensures
            stepped(final(self)@, action@) == run_compare(
                old(self)@,
                frame@,
                optional_view(delivered),
                left@,
                right@,
                kind,
                now,
                stress,
            ),
    {
        proof {
            reveal(run_compare);
        }
        if frame.stage == 0 {
            let mut frame: Frame = frame;
            frame.stage = 1;
            return self.descend(frame, left.clone());
        }
        let value: Value = match delivered {
            Some(value) => value,
            None => Value::Nothing,
        };
        if frame.stage == 1 {
            let mut frame: Frame = frame;
            frame.stage = 2;
            frame.held = value;
            self.descend(frame, right.clone())
        } else {
            let result: bool = compare(kind, &frame.held, &value);
            self.finish(frame, Value::Boolean(result), now, stress)
        }
    }
}


/// Whether a name is that of the output call, and the intensity that it
/// asks for if it is.
pub fn output_level(name: &String) -> (level: Option<usize>)
    ensures
        match level {
            Some(l) => is_output(name@) && l == name@.len() - 3,
            None => !is_output(name@),
        },
{
    let chars: Vec<char> = chars_of(name.as_str());
    proof {
        reveal_strlit(":O__");
    }
    if chars.len() >= 4 && chars[0] == ':' && chars[1] == 'O' && chars[2] == '_' && chars[3]
        == '_' {
        assert(name@.subrange(0, 4) =~= ":O__"@);
        Some(chars.len() - 3)
    } else {
        if chars.len() >= 4 {
            assert(name@.subrange(0, 4)[0] == name@[0]);
            assert(name@.subrange(0, 4)[1] == name@[1]);
            assert(name@.subrange(0, 4)[2] == name@[2]);
            assert(name@.subrange(0, 4)[3] == name@[3]);
        }
        None
    }
}

/// Whether a name is that of the input call.
pub fn is_input_name(name: &String) -> (input: bool)
    ensures
        input == is_input(name@),
{
    let chars: Vec<char> = chars_of(name.as_str());
    spells(&chars, "d;D")
}

impl Frame {
    /// Whether the frame is a call of a declared function whose body is
    /// being evaluated.
    pub fn in_body(&self) -> (r: bool)
        ensures
            r == in_body(self@),
    {
        if !self.entered || self.callee.is_none() {
            return false;
        }
        match &*self.node {
            ASTNode::FunctionCall { function, parameters: _ } => {
                assert(self@.node->FunctionCall_function == function@);
                match &**function {
                    ASTNode::Variable { name } => {
                        assert(function@ == AstView::Variable { name: name@ });
                        output_level(name).is_none() && !is_input_name(name)
                    },
                    _ => {
                        assert(!(function@ is Variable));
                        false
                    },
                }
            },
            _ => false,
        }
    }

    /// Adds the text of a value that was delivered to the text gathered.
    fn take_text(&mut self, delivered: Option<Value>)
        ensures
            final(self)@ == (FrameView {
                text: gathered(old(self)@, optional_view(delivered)),
                ..old(self)@
            }),
    {
        match delivered {
            Some(value) => {
                let text: String = value.to_string();
                self.text.append(text.as_str());
            },
            None => {},
        }
    }
}

impl Machine {
    fn unwind(&mut self, value: Value, now: u128, stress: u32) -> (action: Action)
        ensures
            stepped(final(self)@, action@) == unwind(old(self)@, value@, now, stress),
    {
        proof {
            reveal(unwind);
        }
        let ghost start = self@;
        assert(start.frames.take(start.frames.len() as int) =~= start.frames);
        loop
            invariant
                self@ == (MachineView {
                    frames: start.frames.take(self@.frames.len() as int),
                    ..start
                }),
                self@.frames.len() <= start.frames.len(),
                catcher(start.frames) == catcher(self@.frames),
                start == old(self)@,
            decreases self@.frames.len(),
        {
            proof {
                reveal(unwind);
            }
            if self.frames.len() == 0 {
                return self.fatal(InterpreterError::HackyReturn(value));
            }
            proof {
                lemma_frames_pop(self.frames@);
            }
            let frame: Frame = self.frames.pop().unwrap();
            assert(self@.frames =~= start.frames.take(self@.frames.len() as int));
            if frame.in_body() {
                self.leave_scope();
                let mut frame: Frame = frame;
                frame.callee = None;
                return self.finish(frame, value, now, stress);
            }
        }
    }

    fn run_return(
        &mut self,
        frame: Frame,
        delivered: Option<Value>,
        expression: &Rc<ASTNode>,
        now: u128,
        stress: u32,
    ) -> (action: Action)
        ensures
            stepped(final(self)@, action@) == run_return(
                old(self)@,
                frame@,
                optional_view(delivered),
                expression@,
                now,
                stress,
            ),
    {
        proof {
            reveal(run_return);
        }
        if frame.stage == 0 {
            let mut frame: Frame = frame;
            frame.stage = 1;
            return self.descend(frame, expression.clone());
        }
        let value: Value = match delivered {
            Some(value) => value,
            None => Value::Nothing,
        };
        self.finish(frame, value, now, stress)
    }

    fn gather(&mut self, frame: Frame, delivered: Option<Value>, argument: &ASTNode) -> (action:
        Action)
        requires
            frame.stage < usize::MAX,
        ensures
            stepped(final(self)@, action@) == gather(
                old(self)@,
                frame@,
                optional_view(delivered),
                argument@,
            ),
    {
        proof {
            reveal(gather);
        }
        let mut frame: Frame = frame;
        frame.take_text(delivered);
        frame.stage = frame.stage + 1;
        match argument {
            ASTNode::Variable { name } => match self.resolve_variable(name) {
                Some(value) => {
                    let text: String = value.to_string();
                    frame.text.append(text.as_str());
                    self.stay(frame)
                },
                None => self.fatal(InterpreterError::UnknownVariable(name.clone())),
            },
            _ => self.descend(frame, Rc::new(argument.duplicate())),
        }
    }

    fn run_output(
        &mut self,
        frame: Frame,
        delivered: Option<Value>,
        level: usize,
        parameters: &Vec<ASTNode>,
        now: u128,
        stress: u32,
    ) -> (action: Action)
        ensures
            forall|name: Seq<char>|
                name.len() - 3 == level ==> stepped(final(self)@, action@) == #[trigger] run_output(
                    old(self)@,
                    frame@,
                    optional_view(delivered),
                    name,
                    views(parameters@),
                    now,
                    stress,
                ),
    {
        proof {
            reveal(run_output);
        }
        proof {
            lemma_views(parameters@);
        }
        if frame.stage < parameters.len() {
            let at: usize = frame.stage;
            self.gather(frame, delivered, &parameters[at])
        } else if !frame.entered {
            let mut frame: Frame = frame;
            frame.take_text(delivered);
            frame.entered = true;
            let text: String = frame.text.clone();
            proof {
                lemma_frames_push(self.frames@, frame);
            }
            self.frames.push(frame);
            Action::Shout { level, text }
        } else {
            self.finish(frame, Value::Nothing, now, stress)
        }
    }

    fn run_input(
        &mut self,
        frame: Frame,
        delivered: Option<Value>,
        parameters: &Vec<ASTNode>,
        now: u128,
        stress: u32,
    ) -> (action: Action)
        ensures
            stepped(final(self)@, action@) == run_input(
                old(self)@,
                frame@,
                optional_view(delivered),
                views(parameters@),
                now,
                stress,
            ),
    {
        proof {
            reveal(run_input);
        }
        proof {
            lemma_views(parameters@);
        }
        if frame.stage < parameters.len() {
            let at: usize = frame.stage;
            self.gather(frame, delivered, &parameters[at])
        } else if !frame.entered {
            let mut frame: Frame = frame;
            frame.take_text(delivered);
            frame.text.append(": ");
            frame.entered = true;
            let prompt: String = frame.text.clone();
            proof {
                lemma_frames_push(self.frames@, frame);
            }
            self.frames.push(frame);
            self.phase = Phase::Reading;
            Action::Read { prompt }
        } else {
            let value: Value = match delivered {
                Some(value) => value,
                None => Value::Nothing,
            };
            self.finish(frame, value, now, stress)
        }
    }

    fn run_found(
        &mut self,
        frame: Frame,
        delivered: Option<Value>,
        parameters: &Vec<ASTNode>,
        now: u128,
        stress: u32,
    ) -> (action: Action)
        ensures
            stepped(final(self)@, action@) == run_found(
                old(self)@,
                frame@,
                optional_view(delivered),
                views(parameters@),
                now,
                stress,
            ),
    {
        proof {
            reveal(run_found);
        }
        proof {
            lemma_views(parameters@);
        }
        let callee: Rc<ASTNode> = match &frame.callee {
            Some(callee) => callee.clone(),
            None => {
                return self.fatal(InterpreterError::InvalidFunction);
            },
        };
        match &*callee {
            ASTNode::FunctionDeclaration { name: _, parameters: names, execution_block } => {
                let mut frame: Frame = frame;
                let value: Value = match delivered {
                    Some(value) => {
                        if 1 <= frame.stage && frame.stage <= names.len() && !frame.entered {
                            frame.scope.symbol_table.insert(
                                names[frame.stage - 1].clone(),
                                value.duplicate(),
                            );
                        }
                        value
                    },
                    None => Value::Nothing,
                };
                if frame.stage < parameters.len() {
                    let argument: Rc<ASTNode> = Rc::new(parameters[frame.stage].duplicate());
                    frame.stage = frame.stage + 1;
                    self.descend(frame, argument)
                } else if !frame.entered {
                    frame.entered = true;
                    let scope: Scope = Scope {
                        symbol_table: crate::table::duplicate_values(&frame.scope.symbol_table),
                        function_table: frame.scope.inherit().function_table,
                    };
                    self.enter_scope(scope);
                    self.descend(frame, execution_block.clone())
                } else {
                    self.leave_scope();
                    frame.callee = None;
                    self.finish(frame, value, now, stress)
                }
            },
            _ => self.fatal(InterpreterError::InvalidFunction),
        }
    }

    fn run_declared(
        &mut self,
        frame: Frame,
        delivered: Option<Value>,
        name: &String,
        parameters: &Vec<ASTNode>,
        now: u128,
        stress: u32,
    ) -> (action: Action)
        ensures
            stepped(final(self)@, action@) == run_declared(
                old(self)@,
                frame@,
                optional_view(delivered),
                name@,
                views(parameters@),
                now,
                stress,
            ),
    {
        proof {
            reveal(run_declared);
        }
        proof {
            lemma_views(parameters@);
        }
        if frame.callee.is_some() {
            return self.run_found(frame, delivered, parameters, now, stress);
        }
        let callee: Rc<ASTNode> = match self.resolve_function(name) {
            Some(callee) => callee,
            None => {
                return self.fatal(InterpreterError::UnknownFunction(name.clone()));
            },
        };
        let count: usize = match &*callee {
            ASTNode::FunctionDeclaration { name: _, parameters: names, execution_block: _ } => {
                names.len()
            },
            _ => {
                return self.fatal(InterpreterError::InvalidFunction);
            },
        };
        if count != parameters.len() {
            return self.fatal(InterpreterError::InvalidArgumentCount);
        }
        let mut frame: Frame = frame;
        frame.scope = self.scope().inherit();
        frame.callee = Some(callee);
        frame.entered = false;
        self.run_found(frame, delivered, parameters, now, stress)
    }

    fn run_call(
        &mut self,
        frame: Frame,
        delivered: Option<Value>,
        function: &Rc<ASTNode>,
        parameters: &Vec<ASTNode>,
        now: u128,
        stress: u32,
    ) -> (action: Action)
        ensures
            stepped(final(self)@, action@) == run_call(
                old(self)@,
                frame@,
                optional_view(delivered),
                function@,
                views(parameters@),
                now,
                stress,
            ),
    {
        proof {
            reveal(run_call);
        }
        match &**function {
            ASTNode::Variable { name } => match output_level(name) {
                Some(level) => self.run_output(frame, delivered, level, parameters, now, stress),
                None => if is_input_name(name) {
                    self.run_input(frame, delivered, parameters, now, stress)
                } else {
                    self.run_declared(frame, delivered, name, parameters, now, stress)
                },
            },
            _ => self.finish(frame, Value::Nothing, now, stress),
        }
    }
}


/// The view of a line that may be missing.
pub open spec fn line_view(line: Option<&str>) -> Option<Seq<char>> {
    match line {
        Some(line) => Some(line@),
        None => None,
    }
}

/// The value that the line read, if one was read, answers with.
pub fn answer(line: Option<&str>) -> (value: Value)
    ensures
        value@ == answer_of(line_view(line)),
{
    match line {
        Some(line) => read_value(line),
        None => Value::Nothing,
    }
}

impl Machine {
    fn run(&mut self, frame: Frame, delivered: Option<Value>, now: u128, stress: u32) -> (action:
        Action)
        ensures
            stepped(final(self)@, action@) == run(
                old(self)@,
                frame@,
                optional_view(delivered),
                now,
                stress,
            ),
    {
        proof {
            reveal(run);
        }
        let node: Rc<ASTNode> = frame.node.clone();
        match &*node {
            ASTNode::UnaryOp { expression, token } => self.run_unary(
                frame,
                delivered,
                expression,
                token,
                now,
                stress,
            ),
            ASTNode::BinOp { left, right, token } => self.run_binop(
                frame,
                delivered,
                left,
                right,
                token,
                now,
                stress,
            ),
            ASTNode::Value { value } => self.finish(frame, value.duplicate(), now, stress),
            ASTNode::FunctionCall { function, parameters } => self.run_call(
                frame,
                delivered,
                function,
                parameters,
                now,
                stress,
            ),
            ASTNode::FunctionDeclaration { name, parameters: _, execution_block: _ } => {
                self.run_declaration(frame, name, now, stress)
            },
            ASTNode::If { condition, execution } => self.run_guarded(
                frame,
                delivered,
                condition,
                execution,
                false,
                now,
                stress,
            ),
            ASTNode::Loop { condition, execution } => self.run_guarded(
                frame,
                delivered,
                condition,
                execution,
                true,
                now,
                stress,
            ),
            ASTNode::Compare { left, right, compare_type } => self.run_compare(
                frame,
                delivered,
                left,
                right,
                *compare_type,
                now,
                stress,
            ),
            ASTNode::Block { children } => self.run_block(frame, children, now, stress),
            ASTNode::Assign { left, right } => self.run_assign(
                frame,
                delivered,
                left,
                right,
                now,
                stress,
            ),
            ASTNode::Return { expression } => self.run_return(
                frame,
                delivered,
                expression,
                now,
                stress,
            ),
            ASTNode::Variable { name } => self.run_variable(frame, name, now, stress),
            ASTNode::NoOp => self.finish(frame, Value::Nothing, now, stress),
        }
    }

    fn step_pending(&mut self, value: Value, question: bool) -> (action: Action)
        requires
            old(self)@.phase == (PhaseView::Pending { value: value@, question }),
        ensures
            stepped(final(self)@, action@) == step(old(self)@, None, 0, 0, 0),
    {
        if self.frames.len() == 0 {
            self.halt(Ok(value))
        } else if question {
            proof {
                lemma_frames_pop(self.frames@);
            }
            let node: Rc<ASTNode> = self.frames[self.frames.len() - 1].node.clone();
            self.phase = Phase::Asked { value };
            Action::Ask { node }
        } else {
            let taken: (Frame, Option<Value>) = self.take_frame();
            self.conclude(taken.0, value)
        }
    }

    fn step_asked(&mut self, value: Value, line: Option<&str>, now: u128, cooldown: u128) -> (action:
        Action)
        requires
            old(self)@.phase == (PhaseView::Asked { value: value@ }),
        ensures
            stepped(final(self)@, action@) == step(
                old(self)@,
                line_view(line),
                now,
                0,
                cooldown,
            ),
    {
        let given: Value = answer(line);
        match self.worker.settle(&given, &value, now, cooldown) {
            Ok(_) => {
                let nothing: bool = match &value {
                    Value::Nothing => true,
                    _ => false,
                };
                self.phase = Phase::Pending { value, question: false };
                Action::Thank { nothing }
            },
            Err(error) => {
                let _finished = self.halt(Err(error));
                Action::Rebuke { expected: value }
            },
        }
    }

    fn step_reading(&mut self, line: Option<&str>, now: u128, stress: u32) -> (action: Action)
        requires
            old(self)@.phase is Reading,
        ensures
            stepped(final(self)@, action@) == step(old(self)@, line_view(line), now, stress, 0),
    {
        let value: Value = answer(line);
        if self.frames.len() == 0 {
            self.halt(Ok(value))
        } else {
            let taken: (Frame, Option<Value>) = self.take_frame();
            self.phase = Phase::Run;
            self.finish(taken.0, value, now, stress)
        }
    }

    fn step_returning(&mut self, value: Value, now: u128, stress: u32) -> (action: Action)
        requires
            old(self)@.phase == (PhaseView::Returning { value: value@ }),
        ensures
            stepped(final(self)@, action@) == step(old(self)@, None, now, stress, 0),
    {
        self.phase = Phase::Run;
        self.unwind(value, now, stress)
    }

    fn step_run(&mut self, now: u128, stress: u32) -> (action: Action)
        requires
            old(self)@.phase is Run,
        ensures
            stepped(final(self)@, action@) == step(old(self)@, None, now, stress, 0),
    {
        if self.frames.len() == 0 {
            let value: Value = match self.delivered.take() {
                Some(value) => value,
                None => Value::Nothing,
            };
            self.halt(Ok(value))
        } else {
            let taken: (Frame, Option<Value>) = self.take_frame();
            self.run(taken.0, taken.1, now, stress)
        }
    }

    /// One step of the evaluation. `line` is the line that was read where
    /// the action of the step before asked for one; `now` is the time in
    /// nanoseconds on a clock that started with the worker; `stress` is the
    /// fatigue that the step adds where the worker watches it, and
    /// `cooldown` the rest that the worker takes where it is answered
    /// rightly. The action says what is to be done before the next step.
    pub fn step_with(
        &mut self,
        line: Option<&str>,
        now: u128,
        stress: u32,
        cooldown: u128,
    ) -> (action: Action)
        ensures
            lives(final(self)@),
            stepped(final(self)@, action@) == step(
                old(self)@,
                line_view(line),
                now,
                stress,
                cooldown,
            ),
    {
        match &self.phase {
            Phase::Done(outcome) => Action::Finished(duplicate_outcome(outcome)),
            Phase::Pending { value, question } => {
                let value: Value = value.duplicate();
                let question: bool = *question;
                self.step_pending(value, question)
            },
            Phase::Asked { value } => {
                let value: Value = value.duplicate();
                self.step_asked(value, line, now, cooldown)
            },
            Phase::Reading => self.step_reading(line, now, stress),
            Phase::Returning { value } => {
                let value: Value = value.duplicate();
                self.step_returning(value, now, stress)
            },
            Phase::Run => self.step_run(now, stress),
        }
    }

    /// One step of the evaluation, in which chance picks the fatigue and the
    /// cooldown of a worker that tires: the fatigue between 1 and 9, the
    /// cooldown between a millisecond and a second.
    pub fn step(&mut self, line: Option<&str>, now: u128) -> (action: Action)
        ensures
            lives(final(self)@),
            exists|stress: u32, cooldown: u128|
                stepped(final(self)@, action@) == #[trigger] step(
                    old(self)@,
                    line_view(line),
                    now,
                    stress,
                    cooldown,
                ) && (!old(self)@.worker.strict_work ==> 1 <= stress < 10 && 1000000 <= cooldown
                    < 1000000000),
    {
        if self.worker.is_strict() {
            self.step_with(line, now, 0, 0)
        } else {
            let stress: u32 = Worker::draw_stress();
            let cooldown: u128 = Worker::draw_cooldown();
            self.step_with(line, now, stress, cooldown)
        }
    }
}

impl Interpreter {
    /// An interpreter that will read its program with `parser`. Its worker
    /// is fresh, and never tires where `strict_work` is set.
    pub fn new(parser: Parser, strict_work: bool) -> (interpreter: Interpreter)
        ensures
            interpreter.source() == parser@,
            interpreter@ == crate::semantics::idle(Worker::new_view(strict_work)),
    {
        Interpreter { parser, machine: Machine::new(strict_work) }
    }

    /// The state of the parser that the interpreter reads its program with.
    pub closed spec fn source(&self) -> crate::grammar::ParserView {
        self.parser@
    }

    /// Reads the program and gets ready to evaluate it: the steps do the
    /// rest. Where the text is no program, nothing is evaluated.
    pub fn interpret(&mut self) -> (result: Result<(), LexerError>)
        ensures
            final(self).source() == crate::grammar::parse(old(self).source()).state,
            match result {
                Ok(_) => {
                    &&& crate::grammar::parse(old(self).source()).outcome matches Ok(tree)
                    &&& final(self)@ == crate::semantics::loaded(old(self)@.worker, tree)
                },
                Err(error) => {
                    &&& crate::grammar::parse(old(self).source()).outcome == Err::<
                        AstView,
                        crate::lexer::LexerErrorView,
                    >(error@)
                    &&& final(self)@ == old(self)@
                },
            },
    {
        match self.parser.parse() {
            Ok(tree) => {
                self.machine.load(tree);
                Ok(())
            },
            Err(error) => Err(error),
        }
    }

    /// One step of the evaluation; see `Machine::step_with`.
    pub fn step_with(
        &mut self,
        line: Option<&str>,
        now: u128,
        stress: u32,
        cooldown: u128,
    ) -> (action: Action)
        ensures
            lives(final(self)@),
            final(self).source() == old(self).source(),
            stepped(final(self)@, action@) == step(
                old(self)@,
                line_view(line),
                now,
                stress,
                cooldown,
            ),
    {
        self.machine.step_with(line, now, stress, cooldown)
    }

    /// One step of the evaluation, with what chance picks; see
    /// `Machine::step`.
    pub fn step(&mut self, line: Option<&str>, now: u128) -> (action: Action)
        ensures
            lives(final(self)@),
            final(self).source() == old(self).source(),
            exists|stress: u32, cooldown: u128|
                stepped(final(self)@, action@) == #[trigger] step(
                    old(self)@,
                    line_view(line),
                    now,
                    stress,
                    cooldown,
                ) && (!old(self)@.worker.strict_work ==> 1 <= stress < 10 && 1000000 <= cooldown
                    < 1000000000),
    {
        let ghost before = self@;
        let action: Action = self.machine.step(line, now);
        proof {
            let (stress, cooldown) = choose|stress: u32, cooldown: u128|
                stepped(self.machine@, action@) == #[trigger] step(
                    before,
                    line_view(line),
                    now,
                    stress,
                    cooldown,
                ) && (!before.worker.strict_work ==> 1 <= stress < 10 && 1000000 <= cooldown
                    < 1000000000);
            assert(stepped(self@, action@) == step(
                before,
                line_view(line),
                now,
                stress,
                cooldown,
            ));
        }
        action
    }

    /// How many calls evaluate their body.
    pub fn depth(&self) -> (depth: usize)
        ensures
            depth + 1 == self@.scopes.len(),
    {
        self.machine.depth()
    }

    /// The scope of the running call, or of the program where none runs.
    pub fn scope(&self) -> (scope: &Scope)
        ensures
            scope@ == current(self@),
    {
        self.machine.scope()
    }

    /// The worker that watches the evaluation.
    pub fn worker(&self) -> (worker: &Worker)
        ensures
            worker@ == self@.worker,
    {
        self.machine.worker()
    }

    /// Whether the evaluation is over.
    pub fn is_done(&self) -> (done: bool)
        ensures
            done == (self@.phase is Done),
    {
        self.machine.is_done()
    }
}

} // verus!
