//! What the evaluator does, as a function from one state to the next: it
//! evaluates a tree node by node, each node in steps, and between two steps
//! it can be left alone for as long as its surroundings need.

use vstd::prelude::*;
use crate::ast::{AstView, CompareType, ValueView};
use crate::grammar::parse_text;
use crate::humanoid::{Mood, WorkerView, after_answer, after_tick, demand_at};
use crate::lexer::{TokenView, framed};

verus! {

/// One call's variables, and the functions that it can see.
pub struct ScopeView {
    pub symbols: Map<Seq<char>, ValueView>,
    pub functions: Map<Seq<char>, AstView>,
}

/// Why an evaluation ended without a value.
pub enum InterpreterErrorView {
    /// A return that no call caught, with the value that it carried.
    HackyReturn(ValueView),
    /// The worker was given a wrong answer.
    DisturbedWorker,
    /// An arithmetic operand that is no integer.
    NotANumber,
    /// A boolean was needed as a condition.
    NotABoolean,
    UnknownVariable(Seq<char>),
    UnknownFunction(Seq<char>),
    /// A call with more or fewer arguments than the function has parameters.
    InvalidArgumentCount,
    /// A second declaration of a function in one scope.
    AlreadyDeclared(Seq<char>),
    /// An operator node whose token is no operator of its kind.
    InvalidOperator,
    /// An assignment to what is no variable.
    InvalidAssignTarget,
    /// A function table entry that is no declaration.
    InvalidFunction,
    DivisionByZero,
    /// A result that does not fit into 32 bits.
    Overflow,
}

/// How an evaluation ended: with a value or without.
pub type OutcomeView = Result<ValueView, InterpreterErrorView>;

/// A node whose evaluation has begun, and how far it has come.
pub struct FrameView {
    pub node: AstView,
    /// How many children have been started.
    pub stage: nat,
    /// The value of the left operand, where the node has one.
    pub held: ValueView,
    /// The text gathered from the arguments of an output or input call.
    pub text: Seq<char>,
    /// The scope that a call prepares for the function.
    pub scope: ScopeView,
    /// The declaration of the function that a call has found.
    pub callee: Option<AstView>,
    /// Whether a call is through with its arguments: the output call has
    /// handed out its text, the input call has asked for its line, the
    /// call of a function has begun to evaluate the body.
    pub entered: bool,
}

/// What the evaluator does next.
pub enum PhaseView {
    /// It goes on with the node on top.
    Run,
    /// The node on top has its value, and the worker has been heard: it
    /// asks for the value first if `question`.
    Pending { value: ValueView, question: bool },
    /// The worker has asked for the value of the node on top and waits.
    Asked { value: ValueView },
    /// An input call on top waits for its line.
    Reading,
    /// A return has its value and looks for the call that it ends.
    Returning { value: ValueView },
    /// The evaluation is over.
    Done(OutcomeView),
}

/// What the surroundings are to do before the next step.
pub enum ActionView {
    /// Nothing.
    Continue,
    /// Show the mood that the worker is in now.
    ShowMood(Mood),
    /// Show the variables and the node, and read the answer.
    Ask { node: AstView },
    /// The answer was right; `nothing` says that the value was none.
    Thank { nothing: bool },
    /// The answer was wrong: `expected` was the value.
    Rebuke { expected: ValueView },
    /// Hand the text to the output with the intensity `level`.
    Shout { level: nat, text: Seq<char> },
    /// Show the prompt and read a line.
    Read { prompt: Seq<char> },
    /// Nothing more: the evaluation is over.
    Finished(OutcomeView),
}

/// The state of an evaluator.
pub struct MachineView {
    /// The call stack; the scope of the running call is the last.
    pub scopes: Seq<ScopeView>,
    pub worker: WorkerView,
    /// The nodes under evaluation; the innermost is the last.
    pub frames: Seq<FrameView>,
    /// The value of the child that has just been evaluated.
    pub delivered: Option<ValueView>,
    pub phase: PhaseView,
}

/// A state and what is to be done before the next step from it.
pub struct Stepped {
    pub machine: MachineView,
    pub action: ActionView,
}

/// Whether the machine has a scope to run in: the call stack is never
/// empty.
pub open spec fn lives(m: MachineView) -> bool {
    m.scopes.len() >= 1
}

/// The scope without variables and functions.
pub open spec fn empty_scope() -> ScopeView {
    ScopeView { symbols: Map::empty(), functions: Map::empty() }
}

/// The frame of a node of which nothing has been evaluated.
pub open spec fn fresh(node: AstView) -> FrameView {
    FrameView {
        node,
        stage: 0,
        held: ValueView::Nothing,
        text: Seq::empty(),
        scope: empty_scope(),
        callee: None,
        entered: false,
    }
}

/// The value that a tree answers with: what the first statement assigns,
/// where that is an assignment of a literal.
pub open spec fn answer_in(tree: AstView) -> ValueView {
    match tree {
        AstView::Block { children } => if children.len() > 0 {
            match children[0] {
                AstView::Assign { left, right } => match *right {
                    AstView::Value { value } => value,
                    _ => ValueView::Nothing,
                },
                _ => ValueView::Nothing,
            }
        } else {
            ValueView::Nothing
        },
        _ => ValueView::Nothing,
    }
}

/// The value that a line answers with: an assignment of a literal gives
/// the literal, and everything else gives nothing.
pub open spec fn value_of_line(line: Seq<char>) -> ValueView {
    match parse_text(framed(line)) {
        Ok(tree) => answer_in(tree),
        Err(_) => ValueView::Nothing,
    }
}

/// The value that the line read, if one was read, answers with.
pub open spec fn answer_of(line: Option<Seq<char>>) -> ValueView {
    match line {
        Some(line) => value_of_line(line),
        None => ValueView::Nothing,
    }
}

/// The end of an evaluation: every pending node and call is given up.
pub open spec fn halt(m: MachineView, outcome: OutcomeView) -> Stepped {
    Stepped {
        machine: MachineView {
            scopes: m.scopes.take(1),
            worker: m.worker,
            frames: Seq::empty(),
            delivered: None,
            phase: PhaseView::Done(outcome),
        },
        action: ActionView::Finished(outcome),
    }
}

/// The machine without its innermost node and without a delivered value.
pub open spec fn base(m: MachineView) -> MachineView {
    MachineView { frames: m.frames.drop_last(), delivered: None, phase: PhaseView::Run, ..m }
}

/// A node, already off the stack, hands `value` to the node around it; the
/// outermost node ends the evaluation with it.
pub open spec fn complete(b: MachineView, value: ValueView) -> Stepped {
    if b.frames.len() == 0 {
        halt(b, Ok(value))
    } else {
        Stepped {
            machine: MachineView { delivered: Some(value), phase: PhaseView::Run, ..b },
            action: ActionView::Continue,
        }
    }
}

/// A node has its value, and the worker has nothing more to say: a return
/// begins to look for the call that it ends, and any other node hands its
/// value on.
pub open spec fn conclude(b: MachineView, frame: FrameView, value: ValueView) -> Stepped {
    if frame.node is Return {
        Stepped {
            machine: MachineView { delivered: None, phase: PhaseView::Returning { value }, ..b },
            action: ActionView::Continue,
        }
    } else {
        complete(b, value)
    }
}

/// The node of `frame`, which is off the stack, has evaluated to `value`.
/// The worker watches every node: it is heard first, may have its mood
/// shown, and may ask for the value before the node hands it on.
#[verifier::opaque]
pub open spec fn finish(b: MachineView, frame: FrameView, value: ValueView, now: u128, stress: u32) -> Stepped {
    let demand = demand_at(b.worker, stress, now, frame.node is Value);
    let heard = MachineView { worker: after_tick(b.worker, stress, now), ..b };
    match demand.mood {
        Some(mood) => Stepped {
            machine: MachineView {
                frames: heard.frames.push(frame),
                phase: PhaseView::Pending { value, question: demand.question },
                ..heard
            },
            action: ActionView::ShowMood(mood),
        },
        None => if demand.question {
            Stepped {
                machine: MachineView {
                    frames: heard.frames.push(frame),
                    phase: PhaseView::Asked { value },
                    ..heard
                },
                action: ActionView::Ask { node: frame.node },
            }
        } else {
            conclude(heard, frame, value)
        },
    }
}

/// The evaluation goes on inside `child`, and `frame` waits for it.
pub open spec fn descend(b: MachineView, frame: FrameView, child: AstView) -> Stepped {
    Stepped {
        machine: MachineView { frames: b.frames.push(frame).push(fresh(child)), ..b },
        action: ActionView::Continue,
    }
}

/// The scope of the running call.
pub open spec fn current(m: MachineView) -> ScopeView {
    m.scopes.last()
}

/// The machine with another scope for the running call.
pub open spec fn with_current(m: MachineView, scope: ScopeView) -> MachineView {
    MachineView { scopes: m.scopes.update(m.scopes.len() - 1, scope), ..m }
}

/// The quotient of two integers, rounded towards zero.
pub open spec fn quotient(x: int, d: int) -> int {
    if x >= 0 && d > 0 {
        x / d
    } else if x < 0 && d < 0 {
        (-x) / (-d)
    } else if x < 0 && d > 0 {
        -((-x) / d)
    } else if d < 0 {
        -(x / (-d))
    } else {
        0
    }
}

/// The result of an operation in unbounded integers; `None` where the token
/// is no arithmetic operator or the divisor is zero.
pub open spec fn exact(token: TokenView, left: int, right: int) -> Option<int> {
    match token {
        TokenView::Plus => Some(left + right),
        TokenView::Minus => Some(left - right),
        TokenView::Multiply => Some(left * right),
        TokenView::Divide => if right == 0 {
            None
        } else {
            Some(quotient(left, right))
        },
        _ => None,
    }
}

/// Whether a token is one of the four arithmetic operators.
pub open spec fn is_arithmetic(token: TokenView) -> bool {
    token is Plus || token is Minus || token is Multiply || token is Divide
}

/// The result of an arithmetic operation on two integers of 32 bits.
pub open spec fn arithmetic(token: TokenView, left: i32, right: i32) -> Result<
    i32,
    InterpreterErrorView,
> {
    if !is_arithmetic(token) {
        Err(InterpreterErrorView::InvalidOperator)
    } else if token is Divide && right == 0 {
        Err(InterpreterErrorView::DivisionByZero)
    } else {
        let result = exact(token, left as int, right as int)->0;
        if i32::MIN <= result <= i32::MAX {
            Ok(result as i32)
        } else {
            Err(InterpreterErrorView::Overflow)
        }
    }
}

/// The result of a comparison.
pub open spec fn compared(kind: CompareType, left: ValueView, right: ValueView) -> bool {
    match kind {
        CompareType::Equals => left == right,
        CompareType::Less => left.before(right),
        CompareType::Greater => right.before(left),
    }
}


/// The value that was delivered, or nothing where none was.
pub open spec fn received(delivered: Option<ValueView>) -> ValueView {
    match delivered {
        Some(value) => value,
        None => ValueView::Nothing,
    }
}

/// The call stack without the scope of the running call; the first scope
/// stays whatever happens.
pub open spec fn popped(scopes: Seq<ScopeView>) -> Seq<ScopeView> {
    if scopes.len() > 1 {
        scopes.drop_last()
    } else {
        scopes
    }
}

/// `frame` stays the innermost node and is looked at again.
pub open spec fn stay(b: MachineView, frame: FrameView) -> Stepped {
    Stepped {
        machine: MachineView { frames: b.frames.push(frame), ..b },
        action: ActionView::Continue,
    }
}

/// The end of an evaluation by an error.
pub open spec fn fatal(b: MachineView, error: InterpreterErrorView) -> Stepped {
    halt(b, Err(error))
}

/// A variable evaluates to what its name stands for in the running call.
#[verifier::opaque]
pub open spec fn run_variable(
    b: MachineView,
    f: FrameView,
    name: Seq<char>,
    now: u128,
    stress: u32,
) -> Stepped {
    if current(b).symbols.dom().contains(name) {
        finish(b, f, current(b).symbols[name], now, stress)
    } else {
        fatal(b, InterpreterErrorView::UnknownVariable(name))
    }
}

/// A declaration enters the function under its name in the running call,
/// once.
#[verifier::opaque]
pub open spec fn run_declaration(
    b: MachineView,
    f: FrameView,
    name: Seq<char>,
    now: u128,
    stress: u32,
) -> Stepped {
    if current(b).functions.dom().contains(name) {
        fatal(b, InterpreterErrorView::AlreadyDeclared(name))
    } else {
        let scope = ScopeView { functions: current(b).functions.insert(name, f.node), ..current(b) };
        finish(with_current(b, scope), f, ValueView::Nothing, now, stress)
    }
}

/// A sign before an operand: the operand is evaluated, has to be an integer,
/// and is kept or negated.
#[verifier::opaque]
pub open spec fn run_unary(
    b: MachineView,
    f: FrameView,
    d: Option<ValueView>,
    expression: AstView,
    token: TokenView,
    now: u128,
    stress: u32,
) -> Stepped {
    if !(token is Plus || token is Minus) {
        fatal(b, InterpreterErrorView::InvalidOperator)
    } else if f.stage == 0 {
        descend(b, FrameView { stage: 1, ..f }, expression)
    } else {
        match d {
            Some(ValueView::Integer(v)) => if token is Plus {
                finish(b, f, ValueView::Integer(v), now, stress)
            } else if v == i32::MIN {
                fatal(b, InterpreterErrorView::Overflow)
            } else {
                finish(b, f, ValueView::Integer((-v) as i32), now, stress)
            },
            _ => fatal(b, InterpreterErrorView::NotANumber),
        }
    }
}

/// An arithmetic operation: the left operand is evaluated and has to be an
/// integer, then the right one, then the operation is carried out.
#[verifier::opaque]
pub open spec fn run_binop(
    b: MachineView,
    f: FrameView,
    d: Option<ValueView>,
    left: AstView,
    right: AstView,
    token: TokenView,
    now: u128,
    stress: u32,
) -> Stepped {
    if !is_arithmetic(token) {
        fatal(b, InterpreterErrorView::InvalidOperator)
    } else if f.stage == 0 {
        descend(b, FrameView { stage: 1, ..f }, left)
    } else {
        match d {
            Some(ValueView::Integer(v)) => if f.stage == 1 {
                descend(b, FrameView { stage: 2, held: ValueView::Integer(v), ..f }, right)
            } else {
                match f.held {
                    ValueView::Integer(l) => match arithmetic(token, l, v) {
                        Ok(result) => finish(b, f, ValueView::Integer(result), now, stress),
                        Err(error) => fatal(b, error),
                    },
                    _ => fatal(b, InterpreterErrorView::NotANumber),
                }
            },
            _ => fatal(b, InterpreterErrorView::NotANumber),
        }
    }
}

/// A block evaluates its statements in order and has no value.
#[verifier::opaque]
pub open spec fn run_block(
    b: MachineView,
    f: FrameView,
    children: Seq<AstView>,
    now: u128,
    stress: u32,
) -> Stepped {
    if f.stage < children.len() {
        descend(b, FrameView { stage: f.stage + 1, ..f }, children[f.stage as int])
    } else {
        finish(b, f, ValueView::Nothing, now, stress)
    }
}

/// An assignment evaluates its right side and lets the variable on its left
/// stand for the value in the running call.
#[verifier::opaque]
pub open spec fn run_assign(
    b: MachineView,
    f: FrameView,
    d: Option<ValueView>,
    left: AstView,
    right: AstView,
    now: u128,
    stress: u32,
) -> Stepped {
    match left {
        AstView::Variable { name } => if f.stage == 0 {
            descend(b, FrameView { stage: 1, ..f }, right)
        } else {
            let scope = ScopeView {
                symbols: current(b).symbols.insert(name, received(d)),
                ..current(b)
            };
            finish(with_current(b, scope), f, ValueView::Nothing, now, stress)
        },
        _ => fatal(b, InterpreterErrorView::InvalidAssignTarget),
    }
}

/// A conditional (`repeats` is false) or a loop: the condition is
/// evaluated and has to be a boolean. Where it is true the body is
/// evaluated, and behind the body a loop evaluates the condition again;
/// where it is false the statement is over, and the body was not touched.
#[verifier::opaque]
pub open spec fn run_guarded(
    b: MachineView,
    f: FrameView,
    d: Option<ValueView>,
    condition: AstView,
    execution: AstView,
    repeats: bool,
    now: u128,
    stress: u32,
) -> Stepped {
    if f.stage == 0 {
        descend(b, FrameView { stage: 1, ..f }, condition)
    } else if f.stage == 1 {
        match d {
            Some(ValueView::Boolean(true)) => descend(b, FrameView { stage: 2, ..f }, execution),
            Some(ValueView::Boolean(false)) => finish(
                b,
                f,
                ValueView::Nothing,
                now,
                stress,
            ),
            _ => fatal(b, InterpreterErrorView::NotABoolean),
        }
    } else if repeats {
        descend(b, FrameView { stage: 1, ..f }, condition)
    } else {
        finish(b, f, ValueView::Nothing, now, stress)
    }
}

/// A comparison evaluates its left side, then its right side, and compares.
#[verifier::opaque]
pub open spec fn run_compare(
    b: MachineView,
    f: FrameView,
    d: Option<ValueView>,
    left: AstView,
    right: AstView,
    kind: CompareType,
    now: u128,
    stress: u32,
) -> Stepped {
    if f.stage == 0 {
        descend(b, FrameView { stage: 1, ..f }, left)
    } else if f.stage == 1 {
        descend(b, FrameView { stage: 2, held: received(d), ..f }, right)
    } else {
        finish(
            b,
            f,
            ValueView::Boolean(compared(kind, f.held, received(d))),
            now,
            stress,
        )
    }
}

/// Whether a frame is a call of a declared function whose body is being
/// evaluated: the place where a return is caught.
pub open spec fn in_body(f: FrameView) -> bool {
    &&& f.node matches AstView::FunctionCall { function, .. }
    &&& *function matches AstView::Variable { name }
    &&& !is_output(name)
    &&& !is_input(name)
    &&& f.callee is Some
    &&& f.entered
}

/// The index of the innermost frame that catches a return.
pub open spec fn catcher(frames: Seq<FrameView>) -> Option<int>
    decreases frames.len(),
{
    if frames.len() == 0 {
        None
    } else if in_body(frames.last()) {
        Some(frames.len() - 1)
    } else {
        catcher(frames.drop_last())
    }
}

/// A return with `value` ends the innermost call that is evaluating its
/// body: what was pending inside the body is given up, the scope of the call
/// is left, and the call has the value. Where there is no such call the
/// evaluation ends with the uncaught return.
#[verifier::opaque]
pub open spec fn unwind(b: MachineView, value: ValueView, now: u128, stress: u32) -> Stepped {
    match catcher(b.frames) {
        Some(at) => finish(
            MachineView { frames: b.frames.take(at), scopes: popped(b.scopes), ..b },
            FrameView { callee: None, ..b.frames[at] },
            value,
            now,
            stress,
        ),
        None => fatal(b, InterpreterErrorView::HackyReturn(value)),
    }
}

/// A return evaluates its expression; with the value it then looks for the
/// call that it ends.
#[verifier::opaque]
pub open spec fn run_return(
    b: MachineView,
    f: FrameView,
    d: Option<ValueView>,
    expression: AstView,
    now: u128,
    stress: u32,
) -> Stepped {
    if f.stage == 0 {
        descend(b, FrameView { stage: 1, ..f }, expression)
    } else {
        finish(b, f, received(d), now, stress)
    }
}

/// Whether a name is that of the output call: it begins with `:O__`.
pub open spec fn is_output(name: Seq<char>) -> bool {
    name.len() >= 4 && name.subrange(0, 4) == ":O__"@
}

/// Whether a name is that of the input call.
pub open spec fn is_input(name: Seq<char>) -> bool {
    name == "d;D"@
}

/// The text that an output or input call has gathered, with the value that
/// was just delivered to it.
pub open spec fn gathered(f: FrameView, d: Option<ValueView>) -> Seq<char> {
    match d {
        Some(value) => f.text + value.text(),
        None => f.text,
    }
}

/// The next argument of an output or input call: a variable is looked up
/// in the running call, anything else is evaluated, and the text of the
/// value is added to the text gathered.
#[verifier::opaque]
pub open spec fn gather(
    b: MachineView,
    f: FrameView,
    d: Option<ValueView>,
    argument: AstView,
) -> Stepped {
    let next = FrameView { stage: f.stage + 1, text: gathered(f, d), ..f };
    match argument {
        AstView::Variable { name } => if current(b).symbols.dom().contains(name) {
            stay(b, FrameView { text: next.text + current(b).symbols[name].text(), ..next })
        } else {
            fatal(b, InterpreterErrorView::UnknownVariable(name))
        },
        _ => descend(b, next, argument),
    }
}

/// The output call: the texts of the arguments are joined and handed out
/// with an intensity that grows with the length of the name. The call has
/// no value.
#[verifier::opaque]
pub open spec fn run_output(
    b: MachineView,
    f: FrameView,
    d: Option<ValueView>,
    name: Seq<char>,
    parameters: Seq<AstView>,
    now: u128,
    stress: u32,
) -> Stepped {
    if f.stage < parameters.len() {
        gather(b, f, d, parameters[f.stage as int])
    } else if !f.entered {
        let text = gathered(f, d);
        Stepped {
            machine: MachineView {
                frames: b.frames.push(FrameView { entered: true, text, ..f }),
                ..b
            },
            action: ActionView::Shout { level: (name.len() - 3) as nat, text },
        }
    } else {
        finish(b, f, ValueView::Nothing, now, stress)
    }
}

/// The input call: the texts of the arguments and `: ` are the prompt, and
/// the value of the line that is read is the value of the call.
#[verifier::opaque]
pub open spec fn run_input(
    b: MachineView,
    f: FrameView,
    d: Option<ValueView>,
    parameters: Seq<AstView>,
    now: u128,
    stress: u32,
) -> Stepped {
    if f.stage < parameters.len() {
        gather(b, f, d, parameters[f.stage as int])
    } else if !f.entered {
        let prompt = gathered(f, d) + ": "@;
        Stepped {
            machine: MachineView {
                frames: b.frames.push(FrameView { entered: true, text: prompt, ..f }),
                phase: PhaseView::Reading,
                ..b
            },
            action: ActionView::Read { prompt },
        }
    } else {
        finish(b, f, received(d), now, stress)
    }
}

/// A call whose function has been found: the arguments are evaluated in
/// order in the scope of the caller and bound to the parameters in the scope
/// of the function; then that scope is entered and the body evaluated; then
/// the scope is left, and the value of the body is the value of the call.
#[verifier::opaque]
pub open spec fn run_found(
    b: MachineView,
    f: FrameView,
    d: Option<ValueView>,
    parameters: Seq<AstView>,
    now: u128,
    stress: u32,
) -> Stepped {
    match f.callee {
        Some(AstView::FunctionDeclaration { name, parameters: names, execution_block }) => {
            let bound = if 1 <= f.stage <= names.len() && !f.entered && d is Some {
                FrameView {
                    scope: ScopeView {
                        symbols: f.scope.symbols.insert(names[f.stage - 1], received(d)),
                        ..f.scope
                    },
                    ..f
                }
            } else {
                f
            };
            if f.stage < parameters.len() {
                descend(b, FrameView { stage: f.stage + 1, ..bound }, parameters[f.stage as int])
            } else if !f.entered {
                descend(
                    MachineView { scopes: b.scopes.push(bound.scope), ..b },
                    FrameView { entered: true, ..bound },
                    *execution_block,
                )
            } else {
                finish(
                    MachineView { scopes: popped(b.scopes), ..b },
                    FrameView { callee: None, ..f },
                    received(d),
                    now,
                    stress,
                )
            }
        },
        _ => fatal(b, InterpreterErrorView::InvalidFunction),
    }
}

/// A call of a declared function. It is looked up in the running call
/// first, and has to have as many parameters as the call has arguments; the
/// scope for it sees the functions that the caller sees.
#[verifier::opaque]
pub open spec fn run_declared(
    b: MachineView,
    f: FrameView,
    d: Option<ValueView>,
    name: Seq<char>,
    parameters: Seq<AstView>,
    now: u128,
    stress: u32,
) -> Stepped {
    if f.callee is Some {
        run_found(b, f, d, parameters, now, stress)
    } else if !current(b).functions.dom().contains(name) {
        fatal(b, InterpreterErrorView::UnknownFunction(name))
    } else {
        match current(b).functions[name] {
            AstView::FunctionDeclaration { parameters: names, .. } => if names.len()
                != parameters.len() {
                fatal(b, InterpreterErrorView::InvalidArgumentCount)
            } else {
                run_found(
                    b,
                    FrameView {
                        callee: Some(current(b).functions[name]),
                        scope: ScopeView {
                            symbols: Map::empty(),
                            functions: current(b).functions,
                        },
                        entered: false,
                        ..f
                    },
                    d,
                    parameters,
                    now,
                    stress,
                )
            },
            _ => fatal(b, InterpreterErrorView::InvalidFunction),
        }
    }
}

/// A call: of the output, of the input, or of a declared function. A call
/// of what is no name does nothing.
#[verifier::opaque]
pub open spec fn run_call(
    b: MachineView,
    f: FrameView,
    d: Option<ValueView>,
    function: AstView,
    parameters: Seq<AstView>,
    now: u128,
    stress: u32,
) -> Stepped {
    match function {
        AstView::Variable { name } => if is_output(name) {
            run_output(b, f, d, name, parameters, now, stress)
        } else if is_input(name) {
            run_input(b, f, d, parameters, now, stress)
        } else {
            run_declared(b, f, d, name, parameters, now, stress)
        },
        _ => finish(b, f, ValueView::Nothing, now, stress),
    }
}

/// One step in the evaluation of the node of `f`, the innermost, which is
/// off the stack of `b`; `d` is what its last child has delivered.
#[verifier::opaque]
pub open spec fn run(b: MachineView, f: FrameView, d: Option<ValueView>, now: u128, stress: u32) -> Stepped {
    match f.node {
        AstView::UnaryOp { expression, token } => run_unary(
            b,
            f,
            d,
            *expression,
            token,
            now,
            stress,
        ),
        AstView::BinOp { left, right, token } => run_binop(
            b,
            f,
            d,
            *left,
            *right,
            token,
            now,
            stress,
        ),
        AstView::Value { value } => finish(b, f, value, now, stress),
        AstView::FunctionCall { function, parameters } => run_call(
            b,
            f,
            d,
            *function,
            parameters,
            now,
            stress,
        ),
        AstView::FunctionDeclaration { name, .. } => run_declaration(b, f, name, now, stress),
        AstView::If { condition, execution } => run_guarded(
            b,
            f,
            d,
            *condition,
            *execution,
            false,
            now,
            stress,
        ),
        AstView::Loop { condition, execution } => run_guarded(
            b,
            f,
            d,
            *condition,
            *execution,
            true,
            now,
            stress,
        ),
        AstView::Compare { left, right, compare_type } => run_compare(
            b,
            f,
            d,
            *left,
            *right,
            compare_type,
            now,
            stress,
        ),
        AstView::Block { children } => run_block(b, f, children, now, stress),
        AstView::Assign { left, right } => run_assign(b, f, d, *left, *right, now, stress),
        AstView::Return { expression } => run_return(b, f, d, *expression, now, stress),
        AstView::Variable { name } => run_variable(b, f, name, now, stress),
        AstView::NoOp => finish(b, f, ValueView::Nothing, now, stress),
    }
}

/// One step of the evaluator. `line` is the line that was read if the last
/// action asked for one; `now` is the time in nanoseconds; `stress` is the
/// fatigue that the step adds where the worker watches it, and `cooldown`
/// the rest that the worker takes where it is answered rightly.
pub open spec fn step(
    m: MachineView,
    line: Option<Seq<char>>,
    now: u128,
    stress: u32,
    cooldown: u128,
) -> Stepped {
    match m.phase {
        PhaseView::Done(outcome) => Stepped { machine: m, action: ActionView::Finished(outcome) },
        PhaseView::Pending { value, question } => if m.frames.len() == 0 {
            halt(m, Ok(value))
        } else if question {
            Stepped {
                machine: MachineView { phase: PhaseView::Asked { value }, ..m },
                action: ActionView::Ask { node: m.frames.last().node },
            }
        } else {
            conclude(base(m), m.frames.last(), value)
        },
        PhaseView::Asked { value } => if answer_of(line) == value {
            Stepped {
                machine: MachineView {
                    worker: after_answer(m.worker, now, cooldown),
                    phase: PhaseView::Pending { value, question: false },
                    ..m
                },
                action: ActionView::Thank { nothing: value is Nothing },
            }
        } else {
            Stepped {
                machine: halt(m, Err(InterpreterErrorView::DisturbedWorker)).machine,
                action: ActionView::Rebuke { expected: value },
            }
        },
        PhaseView::Reading => if m.frames.len() == 0 {
            halt(m, Ok(answer_of(line)))
        } else {
            finish(base(m), m.frames.last(), answer_of(line), now, stress)
        },
        PhaseView::Returning { value } => unwind(
            MachineView { phase: PhaseView::Run, ..m },
            value,
            now,
            stress,
        ),
        PhaseView::Run => if m.frames.len() == 0 {
            halt(m, Ok(received(m.delivered)))
        } else {
            run(base(m), m.frames.last(), m.delivered, now, stress)
        },
    }
}

/// The machine that is about to evaluate `tree` in one empty scope.
pub open spec fn loaded(worker: WorkerView, tree: AstView) -> MachineView {
    MachineView {
        scopes: seq![empty_scope()],
        worker,
        frames: seq![fresh(tree)],
        delivered: None,
        phase: PhaseView::Run,
    }
}

/// The machine that has nothing to evaluate.
pub open spec fn idle(worker: WorkerView) -> MachineView {
    MachineView {
        scopes: seq![empty_scope()],
        worker,
        frames: Seq::empty(),
        delivered: None,
        phase: PhaseView::Run,
    }
}


/// An evaluation that is over stays over: every further step reports how
/// it ended and changes nothing.
pub proof fn lemma_done_stays(
    m: MachineView,
    line: Option<Seq<char>>,
    now: u128,
    stress: u32,
    cooldown: u128,
)
    requires
        m.phase is Done,
    ensures
        step(m, line, now, stress, cooldown).machine == m,
        step(m, line, now, stress, cooldown).action == ActionView::Finished(m.phase->Done_0),
{
}

/// A node that finishes leaves the call stack as it is, or the evaluation
/// ends.
pub proof fn lemma_finish_lives()
    ensures
        forall|b: MachineView, f: FrameView, value: ValueView, now: u128, stress: u32|
            lives(b) ==> lives(#[trigger] finish(b, f, value, now, stress).machine),
{
    reveal(finish);
}

/// The machine always has a scope to run in: no step empties the call
/// stack.
pub proof fn lemma_step_lives(
    m: MachineView,
    line: Option<Seq<char>>,
    now: u128,
    stress: u32,
    cooldown: u128,
)
    requires
        lives(m),
    ensures
        lives(step(m, line, now, stress, cooldown).machine),
{
    lemma_finish_lives();
    reveal(unwind);
    if m.phase is Run && m.frames.len() > 0 {
        lemma_run_lives(base(m), m.frames.last(), m.delivered, now, stress);
    }
}

/// No step in the evaluation of a node empties the call stack.
pub proof fn lemma_run_lives(
    b: MachineView,
    f: FrameView,
    d: Option<ValueView>,
    now: u128,
    stress: u32,
)
    requires
        lives(b),
    ensures
        lives(run(b, f, d, now, stress).machine),
{
    reveal(run);
    lemma_finish_lives();
    match f.node {
        AstView::UnaryOp { .. } => {
            reveal(run_unary);
        },
        AstView::BinOp { .. } => {
            reveal(run_binop);
        },
        AstView::Value { .. } => {},
        AstView::FunctionCall { function, parameters } => {
            reveal(run_call);
            match *function {
                AstView::Variable { name } => {
                    if is_output(name) {
                        reveal(run_output);
                        reveal(gather);
                    } else if is_input(name) {
                        reveal(run_input);
                        reveal(gather);
                    } else {
                        reveal(run_declared);
                        reveal(run_found);
                    }
                },
                _ => {},
            }
        },
        AstView::FunctionDeclaration { .. } => {
            reveal(run_declaration);
        },
        AstView::If { .. } => {
            reveal(run_guarded);
        },
        AstView::Loop { .. } => {
            reveal(run_guarded);
        },
        AstView::Compare { .. } => {
            reveal(run_compare);
        },
        AstView::Block { .. } => {
            reveal(run_block);
        },
        AstView::Assign { .. } => {
            reveal(run_assign);
        },
        AstView::Return { .. } => {
            reveal(run_return);
        },
        AstView::Variable { .. } => {
            reveal(run_variable);
        },
        AstView::NoOp => {},
    }
}

/// A loop evaluates its condition before every turn: first of all, and
/// again behind the body. Where the condition is true the body is
/// evaluated next. Where it is false the loop is over at once: nothing is
/// evaluated any more, so that a condition that is false from the start
/// leaves the body untouched.
pub proof fn lemma_loop_turns(
    m: MachineView,
    line: Option<Seq<char>>,
    now: u128,
    stress: u32,
    cooldown: u128,
)
    requires
        m.phase is Run,
        m.frames.len() > 0,
        m.frames.last().node is Loop,
    ensures
        ({
            let top = m.frames.last();
            let condition = *top.node->Loop_condition;
            let body = *top.node->Loop_execution;
            let next = step(m, line, now, stress, cooldown);
            &&& top.stage == 0 || top.stage >= 2 ==> next == descend(
                base(m),
                FrameView { stage: 1, ..top },
                condition,
            )
            &&& top.stage == 1 && m.delivered == Some(ValueView::Boolean(true)) ==> next == descend(
                base(m),
                FrameView { stage: 2, ..top },
                body,
            )
            &&& top.stage == 1 && m.delivered == Some(ValueView::Boolean(false)) ==> {
                &&& next == finish(base(m), top, ValueView::Nothing, now, stress)
                &&& next.machine.frames.len() <= m.frames.len()
                &&& forall|i: int|
                    0 <= i < next.machine.frames.len() ==> next.machine.frames[i] == m.frames[i]
            }
            &&& top.stage == 1 && !(m.delivered matches Some(ValueView::Boolean(_))) ==> next
                == fatal(base(m), InterpreterErrorView::NotABoolean)
        }),
{
    reveal(run);
    reveal(run_guarded);
    reveal(finish);
}

/// The innermost call that evaluates its body, where there is one, is
/// where `catcher` says, and no frame above it evaluates the body of a call.
pub proof fn lemma_catcher(frames: Seq<FrameView>)
    ensures
        match catcher(frames) {
            Some(at) => {
                &&& 0 <= at < frames.len()
                &&& in_body(frames[at])
                &&& forall|j: int| at < j < frames.len() ==> !in_body(#[trigger] frames[j])
            },
            None => forall|j: int| 0 <= j < frames.len() ==> !in_body(#[trigger] frames[j]),
        },
    decreases frames.len(),
{
    if frames.len() > 0 && !in_body(frames.last()) {
        lemma_catcher(frames.drop_last());
        assert forall|j: int| 0 <= j < frames.drop_last().len() implies frames.drop_last()[j]
            == frames[j] by {}
    }
}

/// A return whose value has been evaluated, and about which the worker has
/// nothing to say, looks for the call that it ends: the return itself is
/// through, and nothing else has changed.
pub proof fn lemma_return_leaves(
    m: MachineView,
    line: Option<Seq<char>>,
    now: u128,
    stress: u32,
    cooldown: u128,
    value: ValueView,
)
    requires
        m.phase is Run,
        m.frames.len() > 0,
        m.frames.last().node is Return,
        m.frames.last().stage >= 1,
        m.delivered == Some(value),
        demand_at(m.worker, stress, now, false) == (crate::humanoid::Demand {
            mood: None,
            question: false,
        }),
    ensures
        step(m, line, now, stress, cooldown) == (Stepped {
            machine: MachineView {
                worker: after_tick(m.worker, stress, now),
                frames: m.frames.drop_last(),
                delivered: None,
                phase: PhaseView::Returning { value },
                ..m
            },
            action: ActionView::Continue,
        }),
{
    reveal(run);
    reveal(run_return);
    reveal(finish);
}

/// A return ends the innermost call that evaluates its body, however deep
/// inside the body the return stands: that call and everything that was
/// pending inside it are given up, so that no statement behind the return is
/// evaluated; the scope of the call is left, and the call has the value that
/// was returned. A return outside every call ends the evaluation, which
/// reports it.
pub proof fn lemma_return_ends_call(
    m: MachineView,
    line: Option<Seq<char>>,
    now: u128,
    stress: u32,
    cooldown: u128,
)
    requires
        m.phase is Returning,
    ensures
        ({
            let value = m.phase->Returning_value;
            let next = step(m, line, now, stress, cooldown);
            &&& forall|at: int|
                0 <= at < m.frames.len() && #[trigger] in_body(m.frames[at]) && (forall|j: int|
                    at < j < m.frames.len() ==> !in_body(#[trigger] m.frames[j])) ==> next
                    == finish(
                    MachineView {
                        frames: m.frames.take(at),
                        scopes: popped(m.scopes),
                        phase: PhaseView::Run,
                        ..m
                    },
                    FrameView { callee: None, ..m.frames[at] },
                    value,
                    now,
                    stress,
                )
            &&& (forall|j: int| 0 <= j < m.frames.len() ==> !in_body(#[trigger] m.frames[j]))
                ==> next == halt(m, Err(InterpreterErrorView::HackyReturn(value)))
        }),
{
    reveal(unwind);
    lemma_catcher(m.frames);
}

/// Whether the worker of a machine will ask for the value of the node on
/// top, `f`, should the node finish now: it tires, it is or comes into its
/// last mood, it has rested, and the node is no bare literal.
pub open spec fn exhausted(worker: WorkerView, f: FrameView, now: u128, stress: u32) -> bool {
    &&& !worker.strict_work
    &&& crate::humanoid::mood_at(
        crate::humanoid::tired(worker.stress_level, stress),
        crate::humanoid::worker_range(),
    ) == Mood::Deactivated
    &&& crate::humanoid::rested(worker, now)
    &&& !(f.node is Value)
}

/// A worker in its last mood that has rested asks for the value of every
/// node but a bare literal before the node hands the value on: at once, or
/// behind the step that shows the mood which it has just come into.
pub proof fn lemma_exhausted_worker_asks(
    b: MachineView,
    f: FrameView,
    value: ValueView,
    now: u128,
    stress: u32,
    line: Option<Seq<char>>,
    cooldown: u128,
)
    requires
        exhausted(b.worker, f, now, stress),
    ensures
        ({
            let next = finish(b, f, value, now, stress);
            let asks = Stepped {
                machine: MachineView {
                    worker: after_tick(b.worker, stress, now),
                    frames: b.frames.push(f),
                    phase: PhaseView::Asked { value },
                    ..b
                },
                action: ActionView::Ask { node: f.node },
            };
            if b.worker.prev_mood == Mood::Deactivated {
                next == asks
            } else {
                &&& next.action == ActionView::ShowMood(Mood::Deactivated)
                &&& step(next.machine, line, now, stress, cooldown) == asks
            }
        }),
{
    reveal(finish);
    let next = finish(b, f, value, now, stress);
    assert(b.frames.push(f).last() == f);
}

/// Every node that evaluates to a value is finished under the eyes of the
/// worker: whatever the node is, the step in which it gets its value is one
/// in which the worker is heard.
pub proof fn lemma_every_node_is_watched(
    b: MachineView,
    f: FrameView,
    d: Option<ValueView>,
    now: u128,
    stress: u32,
)
    ensures
        f.node matches AstView::Value { value } ==> run(b, f, d, now, stress) == finish(
            b,
            f,
            value,
            now,
            stress,
        ),
        f.node is NoOp ==> run(b, f, d, now, stress) == finish(
            b,
            f,
            ValueView::Nothing,
            now,
            stress,
        ),
        f.node is Compare && f.stage >= 2 ==> run(b, f, d, now, stress) == finish(
            b,
            f,
            ValueView::Boolean(compared(f.node->compare_type, f.held, received(d))),
            now,
            stress,
        ),
        f.node is Return && f.stage >= 1 ==> run(b, f, d, now, stress) == finish(
            b,
            f,
            received(d),
            now,
            stress,
        ),
        f.node matches AstView::Block { children } && f.stage >= children.len() ==> run(
            b,
            f,
            d,
            now,
            stress,
        ) == finish(b, f, ValueView::Nothing, now, stress),
{
    reveal(run);
    reveal(run_compare);
    reveal(run_return);
    reveal(run_block);
}

/// The right answer lets the evaluation go on: the worker is thanked and
/// rests, its fatigue is gone, and the next step concludes the node as if
/// nothing had been asked.
pub proof fn lemma_right_answer_resumes(
    m: MachineView,
    line: Option<Seq<char>>,
    now: u128,
    stress: u32,
    cooldown: u128,
)
    requires
        m.phase is Asked,
        m.frames.len() > 0,
        answer_of(line) == m.phase->Asked_value,
    ensures
        ({
            let value = m.phase->Asked_value;
            let thanked = step(m, line, now, stress, cooldown);
            &&& thanked.action == ActionView::Thank { nothing: value is Nothing }
            &&& thanked.machine.worker == after_answer(m.worker, now, cooldown)
            &&& thanked.machine.worker.stress_level == 0
            &&& thanked.machine.frames == m.frames
            &&& thanked.machine.scopes == m.scopes
            &&& forall|next_line: Option<Seq<char>>, later: u128, more: u32, rest: u128|
                #[trigger] step(thanked.machine, next_line, later, more, rest) == conclude(
                    base(thanked.machine),
                    m.frames.last(),
                    value,
                )
        }),
{
}

/// Any other answer ends the whole evaluation: every pending node and call
/// is given up, the expected value is named, and nothing is evaluated or
/// handed out any more.
pub proof fn lemma_wrong_answer_aborts(
    m: MachineView,
    line: Option<Seq<char>>,
    now: u128,
    stress: u32,
    cooldown: u128,
)
    requires
        m.phase is Asked,
        answer_of(line) != m.phase->Asked_value,
    ensures
        ({
            let aborted = step(m, line, now, stress, cooldown);
            &&& aborted.action == ActionView::Rebuke { expected: m.phase->Asked_value }
            &&& aborted.machine.phase == PhaseView::Done(
                Err(InterpreterErrorView::DisturbedWorker),
            )
            &&& aborted.machine.frames.len() == 0
            &&& forall|next_line: Option<Seq<char>>, later: u128, more: u32, rest: u128|
                #[trigger] step(aborted.machine, next_line, later, more, rest) == (Stepped {
                    machine: aborted.machine,
                    action: ActionView::Finished(Err(InterpreterErrorView::DisturbedWorker)),
                })
        }),
{
}

/// Whether a machine is not in the middle of a question of its worker.
pub open spec fn calm(m: MachineView) -> bool {
    match m.phase {
        PhaseView::Asked { .. } => false,
        PhaseView::Pending { question, .. } => !question,
        _ => true,
    }
}

/// The machines from which an evaluation starts are calm.
pub proof fn lemma_start_calm(worker: WorkerView, tree: AstView)
    ensures
        calm(idle(worker)),
        calm(loaded(worker, tree)),
{
}

/// Whether an action comes from the worker.
pub open spec fn from_worker(action: ActionView) -> bool {
    action is ShowMood || action is Ask || action is Thank || action is Rebuke
}

/// A strict worker is never heard: a node that finishes is concluded at
/// once.
pub proof fn lemma_strict_finish()
    ensures
        forall|b: MachineView, f: FrameView, value: ValueView, now: u128, stress: u32|
            b.worker.strict_work ==> #[trigger] finish(b, f, value, now, stress) == conclude(
                b,
                f,
                value,
            ),
{
    reveal(finish);
}

/// With a strict worker a step is a function of the state and the line
/// alone: the time and what chance picks change nothing, the worker stays
/// as it is and never shows a mood or asks.
pub proof fn lemma_strict_steps_ignore_chance(
    m: MachineView,
    line: Option<Seq<char>>,
    now: u128,
    stress: u32,
    cooldown: u128,
    other_now: u128,
    other_stress: u32,
    other_cooldown: u128,
)
    requires
        m.worker.strict_work,
        calm(m),
    ensures
        step(m, line, now, stress, cooldown) == step(
            m,
            line,
            other_now,
            other_stress,
            other_cooldown,
        ),
        step(m, line, now, stress, cooldown).machine.worker == m.worker,
        calm(step(m, line, now, stress, cooldown).machine),
        !from_worker(step(m, line, now, stress, cooldown).action),
{
    lemma_strict_finish();
    reveal(unwind);
    if m.phase is Run && m.frames.len() > 0 {
        lemma_strict_runs_ignore_chance(
            base(m),
            m.frames.last(),
            m.delivered,
            now,
            stress,
            other_now,
            other_stress,
        );
    }
}

/// With a strict worker a step in the evaluation of a node is a function
/// of the state alone.
pub proof fn lemma_strict_runs_ignore_chance(
    b: MachineView,
    f: FrameView,
    d: Option<ValueView>,
    now: u128,
    stress: u32,
    other_now: u128,
    other_stress: u32,
)
    requires
        b.worker.strict_work,
        calm(b),
    ensures
        run(b, f, d, now, stress) == run(b, f, d, other_now, other_stress),
        run(b, f, d, now, stress).machine.worker == b.worker,
        calm(run(b, f, d, now, stress).machine),
        !from_worker(run(b, f, d, now, stress).action),
{
    reveal(run);
    lemma_strict_finish();
    match f.node {
        AstView::UnaryOp { .. } => {
            reveal(run_unary);
        },
        AstView::BinOp { .. } => {
            reveal(run_binop);
        },
        AstView::Value { .. } => {},
        AstView::FunctionCall { function, parameters } => {
            lemma_strict_calls_ignore_chance(
                b,
                f,
                d,
                *function,
                parameters,
                now,
                stress,
                other_now,
                other_stress,
            );
        },
        AstView::FunctionDeclaration { .. } => {
            reveal(run_declaration);
        },
        AstView::If { .. } => {
            reveal(run_guarded);
        },
        AstView::Loop { .. } => {
            reveal(run_guarded);
        },
        AstView::Compare { .. } => {
            reveal(run_compare);
        },
        AstView::Block { .. } => {
            reveal(run_block);
        },
        AstView::Assign { .. } => {
            reveal(run_assign);
        },
        AstView::Return { .. } => {
            reveal(run_return);
        },
        AstView::Variable { .. } => {
            reveal(run_variable);
        },
        AstView::NoOp => {},
    }
}

/// With a strict worker a step in the evaluation of a call is a function
/// of the state alone.
pub proof fn lemma_strict_calls_ignore_chance(
    b: MachineView,
    f: FrameView,
    d: Option<ValueView>,
    function: AstView,
    parameters: Seq<AstView>,
    now: u128,
    stress: u32,
    other_now: u128,
    other_stress: u32,
)
    requires
        b.worker.strict_work,
        calm(b),
    ensures
        run_call(b, f, d, function, parameters, now, stress) == run_call(
            b,
            f,
            d,
            function,
            parameters,
            other_now,
            other_stress,
        ),
        run_call(b, f, d, function, parameters, now, stress).machine.worker == b.worker,
        calm(run_call(b, f, d, function, parameters, now, stress).machine),
        !from_worker(run_call(b, f, d, function, parameters, now, stress).action),
{
    reveal(run_call);
    lemma_strict_finish();
    match function {
        AstView::Variable { name } => {
            if is_output(name) {
                reveal(run_output);
                reveal(gather);
            } else if is_input(name) {
                reveal(run_input);
                reveal(gather);
            } else {
                reveal(run_declared);
                reveal(run_found);
            }
        },
        _ => {},
    }
}

/// How many calls evaluate their body among these frames.
pub open spec fn calls_running(frames: Seq<FrameView>) -> nat
    decreases frames.len(),
{
    if frames.len() == 0 {
        0
    } else {
        calls_running(frames.drop_last()) + if in_body(frames.last()) {
            1nat
        } else {
            0nat
        }
    }
}

/// Whether the call stack holds one scope for the program and one for each
/// call that evaluates its body, and the node that waits for the worker or
/// for a line is no such call.
pub open spec fn balanced(m: MachineView) -> bool {
    &&& m.scopes.len() == 1 + calls_running(m.frames)
    &&& (m.phase is Pending || m.phase is Asked || m.phase is Reading) && m.frames.len() > 0
        ==> !in_body(m.frames.last())
}

/// One frame more is one call more where the frame evaluates the body of
/// a call.
pub proof fn lemma_calls_push(frames: Seq<FrameView>, f: FrameView)
    ensures
        calls_running(frames.push(f)) == calls_running(frames) + if in_body(f) {
            1nat
        } else {
            0nat
        },
{
    assert(frames.push(f).drop_last() =~= frames);
}

/// The frames below the innermost call that evaluates its body hold one
/// such call less.
pub proof fn lemma_calls_below_catcher(frames: Seq<FrameView>)
    ensures
        catcher(frames) matches Some(at) ==> calls_running(frames.take(at)) + 1 == calls_running(
            frames,
        ),
    decreases frames.len(),
{
    if frames.len() > 0 {
        if in_body(frames.last()) {
            assert(frames.take(frames.len() - 1) =~= frames.drop_last());
        } else {
            lemma_calls_below_catcher(frames.drop_last());
            if catcher(frames) is Some {
                let at = catcher(frames)->0;
                lemma_catcher(frames.drop_last());
                assert(frames.drop_last().take(at) =~= frames.take(at));
            }
        }
    }
}

/// The machines from which an evaluation starts are balanced.
pub proof fn lemma_start_balanced(worker: WorkerView, tree: AstView)
    ensures
        balanced(idle(worker)),
        balanced(loaded(worker, tree)),
{
    assert(seq![fresh(tree)].drop_last() =~= Seq::<FrameView>::empty());
    reveal_with_fuel(calls_running, 2);
}

/// What a machine does to end, to hand a value on, or to go on inside a
/// node keeps it balanced.
pub proof fn lemma_moves_balanced()
    ensures
        forall|b: MachineView, outcome: OutcomeView|
            b.scopes.len() >= 1 ==> balanced(#[trigger] halt(b, outcome).machine),
        forall|b: MachineView, value: ValueView|
            b.scopes.len() == 1 + calls_running(b.frames) ==> balanced(
                #[trigger] complete(b, value).machine,
            ),
        forall|b: MachineView, f: FrameView, value: ValueView|
            b.scopes.len() == 1 + calls_running(b.frames) ==> balanced(
                #[trigger] conclude(b, f, value).machine,
            ),
        forall|b: MachineView, f: FrameView, value: ValueView, now: u128, stress: u32|
            b.scopes.len() == 1 + calls_running(b.frames) && !in_body(f) ==> balanced(
                #[trigger] finish(b, f, value, now, stress).machine,
            ),
        forall|b: MachineView, f: FrameView, child: AstView|
            b.scopes.len() == 1 + calls_running(b.frames) + (if in_body(f) {
                1nat
            } else {
                0nat
            }) && b.phase is Run ==> balanced(#[trigger] descend(b, f, child).machine),
        forall|b: MachineView, f: FrameView|
            b.scopes.len() == 1 + calls_running(b.frames) && !in_body(f) && b.phase is Run
                ==> balanced(#[trigger] stay(b, f).machine),
{
    reveal(finish);
    assert forall|b: MachineView, outcome: OutcomeView| b.scopes.len() >= 1 implies balanced(
        #[trigger] halt(b, outcome).machine,
    ) by {}
    assert forall|b: MachineView, value: ValueView|
        b.scopes.len() == 1 + calls_running(b.frames) implies balanced(
        #[trigger] complete(b, value).machine,
    ) by {}
    assert forall|b: MachineView, f: FrameView, value: ValueView|
        b.scopes.len() == 1 + calls_running(b.frames) implies balanced(
        #[trigger] conclude(b, f, value).machine,
    ) by {}
    assert forall|b: MachineView, f: FrameView, value: ValueView, now: u128, stress: u32|
        b.scopes.len() == 1 + calls_running(b.frames) && !in_body(f) implies balanced(
        #[trigger] finish(b, f, value, now, stress).machine,
    ) by {
        lemma_calls_push(b.frames, f);
        assert(b.frames.push(f).last() == f);
    }
    assert forall|b: MachineView, f: FrameView, child: AstView|
        b.scopes.len() == 1 + calls_running(b.frames) + (if in_body(f) {
            1nat
        } else {
            0nat
        }) && b.phase is Run implies balanced(#[trigger] descend(b, f, child).machine) by {
        lemma_calls_push(b.frames, f);
        lemma_calls_push(b.frames.push(f), fresh(child));
    }
    assert forall|b: MachineView, f: FrameView|
        b.scopes.len() == 1 + calls_running(b.frames) && !in_body(f) && b.phase is Run
        implies balanced(#[trigger] stay(b, f).machine) by {
        lemma_calls_push(b.frames, f);
    }
}

/// A step in the evaluation of a node keeps the machine balanced.
pub proof fn lemma_run_balanced(
    b: MachineView,
    f: FrameView,
    d: Option<ValueView>,
    now: u128,
    stress: u32,
)
    requires
        b.phase is Run,
        b.scopes.len() == 1 + calls_running(b.frames) + if in_body(f) {
            1nat
        } else {
            0nat
        },
    ensures
        balanced(run(b, f, d, now, stress).machine),
{
    reveal(run);
    lemma_moves_balanced();
    match f.node {
        AstView::UnaryOp { .. } => {
            reveal(run_unary);
        },
        AstView::BinOp { .. } => {
            reveal(run_binop);
        },
        AstView::Value { .. } => {},
        AstView::FunctionCall { function, parameters } => {
            lemma_call_balanced(b, f, d, *function, parameters, now, stress);
        },
        AstView::FunctionDeclaration { .. } => {
            reveal(run_declaration);
        },
        AstView::If { .. } => {
            reveal(run_guarded);
        },
        AstView::Loop { .. } => {
            reveal(run_guarded);
        },
        AstView::Compare { .. } => {
            reveal(run_compare);
        },
        AstView::Block { .. } => {
            reveal(run_block);
        },
        AstView::Assign { .. } => {
            reveal(run_assign);
        },
        AstView::Return { .. } => {
            reveal(run_return);
        },
        AstView::Variable { .. } => {
            reveal(run_variable);
        },
        AstView::NoOp => {},
    }
}

/// A step in the evaluation of a call keeps the machine balanced.
pub proof fn lemma_call_balanced(
    b: MachineView,
    f: FrameView,
    d: Option<ValueView>,
    function: AstView,
    parameters: Seq<AstView>,
    now: u128,
    stress: u32,
)
    requires
        b.phase is Run,
        f.node == (AstView::FunctionCall { function: Box::new(function), parameters }),
        b.scopes.len() == 1 + calls_running(b.frames) + if in_body(f) {
            1nat
        } else {
            0nat
        },
    ensures
        balanced(run_call(b, f, d, function, parameters, now, stress).machine),
{
    reveal(run_call);
    lemma_moves_balanced();
    match function {
        AstView::Variable { name } => {
            if is_output(name) {
                reveal(run_output);
                reveal(gather);
                lemma_calls_push(b.frames, FrameView { entered: true, text: gathered(f, d), ..f });
            } else if is_input(name) {
                reveal(run_input);
                reveal(gather);
                let waiting = FrameView { entered: true, text: gathered(f, d) + ": "@, ..f };
                lemma_calls_push(b.frames, waiting);
                assert(b.frames.push(waiting).last() == waiting);
            } else {
                reveal(run_declared);
                reveal(run_found);
            }
        },
        _ => {},
    }
}

/// Every step keeps the machine balanced: a scope is entered with the body
/// of a call and left with it, however the body ends, and when the
/// evaluation ends only the scope of the program is left.
pub proof fn lemma_step_balanced(
    m: MachineView,
    line: Option<Seq<char>>,
    now: u128,
    stress: u32,
    cooldown: u128,
)
    requires
        balanced(m),
    ensures
        balanced(step(m, line, now, stress, cooldown).machine),
{
    lemma_moves_balanced();
    if m.frames.len() > 0 {
        assert(m.frames.drop_last().push(m.frames.last()) =~= m.frames);
        lemma_calls_push(m.frames.drop_last(), m.frames.last());
    }
    if m.phase is Run && m.frames.len() > 0 {
        lemma_run_balanced(base(m), m.frames.last(), m.delivered, now, stress);
    }
    if m.phase is Returning {
        reveal(unwind);
        lemma_calls_below_catcher(m.frames);
        lemma_catcher(m.frames);
    }
}

/// A call of a declared function with more or fewer arguments than the
/// function has parameters ends the evaluation before any argument is
/// evaluated.
pub proof fn lemma_argument_count(
    m: MachineView,
    line: Option<Seq<char>>,
    now: u128,
    stress: u32,
    cooldown: u128,
)
    requires
        m.phase is Run,
        m.frames.len() > 0,
        m.frames.last().callee is None,
        m.frames.last().node matches AstView::FunctionCall { function, parameters } && (*function
            matches AstView::Variable { name } && !is_output(name) && !is_input(name) && current(
            m,
        ).functions.dom().contains(name) && (current(m).functions[name]
            matches AstView::FunctionDeclaration { parameters: names, .. } && names.len()
            != parameters.len())),
    ensures
        step(m, line, now, stress, cooldown) == halt(
            base(m),
            Err(InterpreterErrorView::InvalidArgumentCount),
        ),
{
    reveal(run);
    reveal(run_call);
    reveal(run_declared);
}


/// The machine with a strict worker in the place of its own: what is left
/// of a machine when its worker is not looked at.
pub open spec fn unwatched(m: MachineView) -> MachineView {
    MachineView { worker: crate::humanoid::Worker::new_view(true), ..m }
}

/// Whether the machine is not held up by its worker.
pub open spec fn at_rest(m: MachineView) -> bool {
    !(m.phase is Pending) && !(m.phase is Asked)
}

/// Whether the machine is held up by its worker, with the node on top that
/// the worker is about.
pub open spec fn waits(m: MachineView) -> bool {
    (m.phase is Pending || m.phase is Asked) && m.frames.len() > 0
}

/// The value of the node that the worker holds up.
pub open spec fn awaited(m: MachineView) -> ValueView {
    match m.phase {
        PhaseView::Pending { value, .. } => value,
        PhaseView::Asked { value } => value,
        _ => ValueView::Nothing,
    }
}

/// What a machine that is held up does once its worker is satisfied: the
/// node on top is concluded with its value.
pub open spec fn owed(m: MachineView) -> Stepped {
    conclude(base(m), m.frames.last(), awaited(m))
}

/// Whether a step of a watched machine is the step of the strict machine:
/// the same action, the same state but for the worker, and no worker in
/// the way.
pub open spec fn agrees(watched: Stepped, strict: Stepped) -> bool {
    &&& unwatched(watched.machine) == strict.machine
    &&& watched.action == strict.action
    &&& at_rest(watched.machine)
}

/// Whether a step of a watched machine is the step of the strict machine
/// or will be it once the worker is satisfied.
pub open spec fn keeps_pace(watched: Stepped, strict: Stepped) -> bool {
    if from_worker(watched.action) {
        waits(watched.machine) && agrees(owed(watched.machine), strict)
    } else {
        agrees(watched, strict)
    }
}

/// A node that finishes under the eyes of a worker is concluded as without
/// one, at once or once the worker is satisfied.
pub proof fn lemma_finish_keeps_pace()
    ensures
        forall|b: MachineView, f: FrameView, value: ValueView, now: u128, stress: u32|
            keeps_pace(
                #[trigger] finish(b, f, value, now, stress),
                conclude(unwatched(b), f, value),
            ),
{
    reveal(finish);
    assert forall|b: MachineView, f: FrameView, value: ValueView, now: u128, stress: u32|
        keeps_pace(
            #[trigger] finish(b, f, value, now, stress),
            conclude(unwatched(b), f, value),
        ) by {
        let x = finish(b, f, value, now, stress);
        if from_worker(x.action) {
            assert(b.frames.push(f).drop_last() =~= b.frames);
            assert(b.frames.push(f).last() == f);
        }
    }
}

/// A step in the evaluation of a node under the eyes of a worker is the
/// step without one, at once or once the worker is satisfied.
pub proof fn lemma_run_keeps_pace(
    b: MachineView,
    f: FrameView,
    d: Option<ValueView>,
    now: u128,
    stress: u32,
)
    requires
        b.phase is Run,
    ensures
        keeps_pace(run(b, f, d, now, stress), run(unwatched(b), f, d, now, stress)),
{
    reveal(run);
    lemma_strict_finish();
    lemma_finish_keeps_pace();
    match f.node {
        AstView::UnaryOp { .. } => {
            reveal(run_unary);
        },
        AstView::BinOp { .. } => {
            reveal(run_binop);
        },
        AstView::Value { .. } => {},
        AstView::FunctionCall { function, parameters } => {
            lemma_call_keeps_pace(b, f, d, *function, parameters, now, stress);
        },
        AstView::FunctionDeclaration { name, .. } => {
            reveal(run_declaration);
            let scope = ScopeView {
                functions: current(b).functions.insert(name, f.node),
                ..current(b)
            };
            assert(unwatched(with_current(b, scope)) == with_current(unwatched(b), scope));
        },
        AstView::If { .. } => {
            reveal(run_guarded);
        },
        AstView::Loop { .. } => {
            reveal(run_guarded);
        },
        AstView::Compare { .. } => {
            reveal(run_compare);
        },
        AstView::Block { .. } => {
            reveal(run_block);
        },
        AstView::Assign { left, .. } => {
            reveal(run_assign);
            if *left is Variable {
                let scope = ScopeView {
                    symbols: current(b).symbols.insert(left->Variable_name, received(d)),
                    ..current(b)
                };
                assert(unwatched(with_current(b, scope)) == with_current(unwatched(b), scope));
            }
        },
        AstView::Return { .. } => {
            reveal(run_return);
        },
        AstView::Variable { .. } => {
            reveal(run_variable);
        },
        AstView::NoOp => {},
    }
}

/// A step in the evaluation of a call under the eyes of a worker is the
/// step without one, at once or once the worker is satisfied.
pub proof fn lemma_call_keeps_pace(
    b: MachineView,
    f: FrameView,
    d: Option<ValueView>,
    function: AstView,
    parameters: Seq<AstView>,
    now: u128,
    stress: u32,
)
    requires
        b.phase is Run,
    ensures
        keeps_pace(
            run_call(b, f, d, function, parameters, now, stress),
            run_call(unwatched(b), f, d, function, parameters, now, stress),
        ),
{
    reveal(run_call);
    lemma_strict_finish();
    lemma_finish_keeps_pace();
    match function {
        AstView::Variable { name } => {
            if is_output(name) {
                reveal(run_output);
                reveal(gather);
            } else if is_input(name) {
                reveal(run_input);
                reveal(gather);
            } else {
                reveal(run_declared);
                reveal(run_found);
                let left = MachineView { scopes: popped(b.scopes), ..b };
                assert(unwatched(left) == (MachineView {
                    scopes: popped(unwatched(b).scopes),
                    ..unwatched(b)
                }));
            }
        },
        _ => {},
    }
}

/// A step of a machine that its worker does not hold up is the step of the
/// strict machine, at once or once the worker is satisfied.
pub proof fn lemma_step_keeps_pace(
    m: MachineView,
    line: Option<Seq<char>>,
    now: u128,
    stress: u32,
    cooldown: u128,
)
    requires
        at_rest(m),
    ensures
        keeps_pace(
            step(m, line, now, stress, cooldown),
            step(unwatched(m), line, now, stress, cooldown),
        ),
{
    lemma_strict_finish();
    lemma_finish_keeps_pace();
    match m.phase {
        PhaseView::Run => {
            if m.frames.len() > 0 {
                assert(unwatched(base(m)) == base(unwatched(m)));
                lemma_run_keeps_pace(base(m), m.frames.last(), m.delivered, now, stress);
            }
        },
        PhaseView::Reading => {
            assert(unwatched(base(m)) == base(unwatched(m)));
        },
        PhaseView::Returning { value } => {
            reveal(unwind);
            let running = MachineView { phase: PhaseView::Run, ..m };
            if catcher(m.frames) is Some {
                let at = catcher(m.frames)->0;
                let left = MachineView {
                    frames: running.frames.take(at),
                    scopes: popped(running.scopes),
                    ..running
                };
                assert(unwatched(left) == (MachineView {
                    frames: m.frames.take(at),
                    scopes: popped(m.scopes),
                    ..unwatched(running)
                }));
            }
        },
        _ => {},
    }
}

/// The machine stepped on for as long as its worker has something to say,
/// at most `patience` times, with `answer` for what is asked.
pub open spec fn appeased(
    x: Stepped,
    answer: Option<Seq<char>>,
    later: u128,
    rest: u128,
    patience: nat,
) -> Stepped
    decreases patience,
{
    if from_worker(x.action) && patience > 0 {
        appeased(step(x.machine, answer, later, 0, rest), answer, later, rest, (patience - 1) as nat)
    } else {
        x
    }
}

/// A worker that is satisfied changes nothing: where a step lets the worker
/// show its mood or ask, and the answer is right, the machine is after at
/// most three steps more where the strict machine is after the one step,
/// but for the worker, and the action is that of the strict machine.
pub proof fn lemma_satisfied_worker_changes_nothing(
    m: MachineView,
    line: Option<Seq<char>>,
    now: u128,
    stress: u32,
    cooldown: u128,
    answer: Option<Seq<char>>,
    later: u128,
    rest: u128,
)
    requires
        at_rest(m),
        waits(step(m, line, now, stress, cooldown).machine) ==> answer_of(answer) == awaited(
            step(m, line, now, stress, cooldown).machine,
        ),
    ensures
        agrees(
            appeased(step(m, line, now, stress, cooldown), answer, later, rest, 3),
            step(unwatched(m), line, now, stress, cooldown),
        ),
{
    let first = step(m, line, now, stress, cooldown);
    let strict = step(unwatched(m), line, now, stress, cooldown);
    lemma_step_keeps_pace(m, line, now, stress, cooldown);
    reveal_with_fuel(appeased, 4);
    if from_worker(first.action) {
        let value = awaited(first.machine);
        let top = first.machine.frames.last();
        let second = step(first.machine, answer, later, 0, rest);
        if first.machine.phase is Pending && !first.machine.phase->question {
            assert(second == owed(first.machine));
        } else {
            let asked = if first.machine.phase is Asked {
                first
            } else {
                second
            };
            assert(asked.machine.phase == PhaseView::Asked { value });
            assert(asked.machine.frames == first.machine.frames);
            let thanked = step(asked.machine, answer, later, 0, rest);
            assert(thanked.action == ActionView::Thank { nothing: value is Nothing });
            let last = step(thanked.machine, answer, later, 0, rest);
            assert(last == conclude(base(thanked.machine), top, value));
            assert(unwatched(base(thanked.machine)) == unwatched(base(first.machine)));
            assert(unwatched(last.machine) == unwatched(owed(first.machine).machine));
            assert(last.action == owed(first.machine).action);
        }
    }
}


/// What one turn of a run brings from outside: the line read, the time and
/// what chance picks for the step, and the answer, the time and the
/// cooldown for the steps in which the worker is satisfied.
pub struct Turn {
    pub line: Option<Seq<char>>,
    pub now: u128,
    pub stress: u32,
    pub cooldown: u128,
    pub answer: Option<Seq<char>>,
    pub later: u128,
    pub rest: u128,
}

/// One turn of a watched machine: a step, and the steps in which its worker
/// is satisfied.
pub open spec fn watched_turn(m: MachineView, turn: Turn) -> Stepped {
    appeased(
        step(m, turn.line, turn.now, turn.stress, turn.cooldown),
        turn.answer,
        turn.later,
        turn.rest,
        3,
    )
}

/// One turn of a strict machine: a step.
pub open spec fn strict_turn(m: MachineView, turn: Turn) -> Stepped {
    step(m, turn.line, turn.now, turn.stress, turn.cooldown)
}

/// Whether the answer of a turn is the right one, should the worker ask.
pub open spec fn answered(m: MachineView, turn: Turn) -> bool {
    let first = step(m, turn.line, turn.now, turn.stress, turn.cooldown);
    waits(first.machine) ==> answer_of(turn.answer) == awaited(first.machine)
}

/// A run of a watched machine, turn by turn.
pub open spec fn watched_run(m: MachineView, turns: Seq<Turn>) -> Seq<Stepped>
    decreases turns.len(),
{
    if turns.len() == 0 {
        Seq::empty()
    } else {
        seq![watched_turn(m, turns[0])] + watched_run(
            watched_turn(m, turns[0]).machine,
            turns.drop_first(),
        )
    }
}

/// A run of a strict machine, turn by turn.
pub open spec fn strict_run(m: MachineView, turns: Seq<Turn>) -> Seq<Stepped>
    decreases turns.len(),
{
    if turns.len() == 0 {
        Seq::empty()
    } else {
        seq![strict_turn(m, turns[0])] + strict_run(
            strict_turn(m, turns[0]).machine,
            turns.drop_first(),
        )
    }
}

/// Whether every question of a run is answered rightly.
pub open spec fn all_answered(m: MachineView, turns: Seq<Turn>) -> bool
    decreases turns.len(),
{
    turns.len() == 0 || (answered(m, turns[0]) && all_answered(
        watched_turn(m, turns[0]).machine,
        turns.drop_first(),
    ))
}

/// A run in which the worker is satisfied whenever it asks is the strict
/// run: turn by turn the action is the same, and so is the state but for
/// the worker, with the same scopes, variables and functions.
pub proof fn lemma_satisfied_run_is_the_strict_run(m: MachineView, turns: Seq<Turn>)
    requires
        at_rest(m),
        all_answered(m, turns),
    ensures
        watched_run(m, turns).len() == turns.len(),
        strict_run(unwatched(m), turns).len() == turns.len(),
        forall|i: int|
            0 <= i < turns.len() ==> agrees(
                #[trigger] watched_run(m, turns)[i],
                strict_run(unwatched(m), turns)[i],
            ),
    decreases turns.len(),
{
    if turns.len() > 0 {
        let turn = turns[0];
        let watched = watched_turn(m, turn);
        let strict = strict_turn(unwatched(m), turn);
        lemma_satisfied_worker_changes_nothing(
            m,
            turn.line,
            turn.now,
            turn.stress,
            turn.cooldown,
            turn.answer,
            turn.later,
            turn.rest,
        );
        lemma_satisfied_run_is_the_strict_run(watched.machine, turns.drop_first());
        assert forall|i: int| 0 <= i < turns.len() implies agrees(
            #[trigger] watched_run(m, turns)[i],
            strict_run(unwatched(m), turns)[i],
        ) by {
            if i > 0 {
                assert(watched_run(m, turns)[i] == watched_run(
                    watched.machine,
                    turns.drop_first(),
                )[i - 1]);
                assert(strict_run(unwatched(m), turns)[i] == strict_run(
                    strict.machine,
                    turns.drop_first(),
                )[i - 1]);
            }
        }
    }
}

} // verus!
