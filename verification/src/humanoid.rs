//! Moods, and the two that have them: the worker, who tires of evaluating
//! and then asks to be told a result, and the shouter, whose voice wears.

use vstd::prelude::*;
use vstd::string::StringExecFns;
use rand::Rng;
use crate::ast::{ASTNode, Value, ValueView, lemma_views, views};
use crate::interpreter::InterpreterError;
use crate::lexer::Lexer;
use crate::parser::Parser;
use crate::semantics::value_of_line;
use crate::text::{chars_of, spells};

verus! {

/// The moods, from the calmest to the last.
#[derive(PartialEq, Eq, Clone, Copy, Debug, Structural)]
pub enum Mood {
    Happy,
    Glad,
    Okay,
    Sad,
    Aggressive,
    Deactivated,
}

impl Mood {
    /// The face that shows the mood.
    pub open spec fn face(self) -> Seq<char> {
        match self {
            Mood::Happy => "=D"@,
            Mood::Glad => "=)"@,
            Mood::Okay => "=I"@,
            Mood::Sad => "=("@,
            Mood::Aggressive => "=X"@,
            Mood::Deactivated => "Xc"@,
        }
    }

    /// The face that shows the mood.
    pub fn to_string(&self) -> (text: String)
        ensures
            text@ == self.face(),
    {
        match self {
            Mood::Happy => String::from_str("=D"),
            Mood::Glad => String::from_str("=)"),
            Mood::Okay => String::from_str("=I"),
            Mood::Sad => String::from_str("=("),
            Mood::Aggressive => String::from_str("=X"),
            Mood::Deactivated => String::from_str("Xc"),
        }
    }
}

/// The mood at `level`, where `range` holds the five levels at which the
/// next mood begins, in rising order.
pub open spec fn mood_at(level: u32, range: Seq<u32>) -> Mood {
    if level < range[0] {
        Mood::Happy
    } else if level < range[1] {
        Mood::Glad
    } else if level < range[2] {
        Mood::Okay
    } else if level < range[3] {
        Mood::Sad
    } else if level < range[4] {
        Mood::Aggressive
    } else {
        Mood::Deactivated
    }
}

/// What has a mood: a level, and the levels at which the moods change.
pub trait Humanoid {
    /// The level that `mood_level` returns.
    spec fn level(&self) -> u32;

    /// The five levels that `mood_range` returns.
    spec fn range(&self) -> Seq<u32>;

    fn mood_level(&self) -> (level: u32)
        ensures
            level == self.level(),
    ;

    /// Whether the mood differs from the one that was last noted, which
    /// a humanoid that notes moods then updates.
    fn mood_changed(&mut self) -> (changed: bool);

    fn mood_range(&self) -> (range: [u32; 5])
        ensures
            range@ == self.range(),
    ;
}

/// The mood at `level` within `range`.
pub fn mood_within(level: u32, range: &[u32; 5]) -> (mood: Mood)
    ensures
        mood == mood_at(level, range@),
{
    if level < range[0] {
        Mood::Happy
    } else if level < range[1] {
        Mood::Glad
    } else if level < range[2] {
        Mood::Okay
    } else if level < range[3] {
        Mood::Sad
    } else if level < range[4] {
        Mood::Aggressive
    } else {
        Mood::Deactivated
    }
}

/// Reads the mood of a humanoid.
pub struct HumanoidControl {}

impl HumanoidControl {
    /// The mood of a humanoid: that of its level within its range.
    pub fn mood<T: Humanoid>(humanoid: &T) -> (mood: Mood)
        ensures
            mood == mood_at(humanoid.level(), humanoid.range()),
    {
        let level: u32 = humanoid.mood_level();
        let range: [u32; 5] = humanoid.mood_range();
        mood_within(level, &range)
    }
}

/// The value that a line answers with: an assignment of a literal gives
/// the literal, and everything else gives nothing.
pub fn read_value(line: &str) -> (value: Value)
    ensures
        value@ == value_of_line(line@),
{
    let mut parser: Parser = Parser::new(Lexer::new_fill_greeting_farewell(line));
    match parser.parse() {
        Ok(tree) => {
            match &tree {
                ASTNode::Block { children } => {
                    proof {
                        lemma_views(children@);
                        assert(tree@ == crate::ast::AstView::Block { children: views(children@) }) by {
                            reveal(views);
                        }
                    }
                    if children.len() > 0 {
                        match &children[0] {
                            ASTNode::Assign { left: _, right } => {
                                assert(views(children@)[0] == children[0]@);
                                assert(children[0]@->Assign_right == right@);
                                match &**right {
                                    ASTNode::Value { value } => {
                                        assert(right@ == crate::ast::AstView::Value {
                                            value: value@,
                                        });
                                        value.duplicate()
                                    },
                                    _ => {
                                        assert(!(right@ is Value));
                                        Value::Nothing
                                    },
                                }
                            },
                            _ => Value::Nothing,
                        }
                    } else {
                        Value::Nothing
                    }
                },
                _ => Value::Nothing,
            }
        },
        Err(_) => Value::Nothing,
    }
}

/// `rand::Rng::gen_range` on the generator of the thread: some number of the
/// half-open range, of which nothing more is known.
#[verifier::external_body]
fn random_between(low: u128, high: u128) -> (number: u128)
    requires
        low < high,
    ensures
        low <= number < high,
{
    rand::thread_rng().gen_range(low..high)
}

/// The levels at which the moods of a worker change.
pub open spec fn worker_range() -> Seq<u32> {
    seq![50u32, 1000u32, 10000u32, 100000u32, 1000000u32]
}

/// The state of a worker.
pub struct WorkerView {
    /// The mood that was last noted.
    pub prev_mood: Mood,
    /// The fatigue that has gathered since the last reset.
    pub stress_level: u32,
    /// The time of the last reset, in nanoseconds.
    pub question_cooldown: u128,
    /// The time that has to pass after a reset before the next question.
    pub cooldown: u128,
    /// Whether the worker never tires.
    pub strict_work: bool,
}

/// What a worker asks of its surroundings after a node was evaluated.
#[derive(PartialEq, Eq, Clone, Copy, Debug, Structural)]
pub struct Demand {
    /// The mood to show, where it has changed.
    pub mood: Option<Mood>,
    /// Whether the worker wants to be told what the node evaluated to.
    pub question: bool,
}

/// Fatigue after it has grown by `increment`; it stops at the largest number.
pub open spec fn tired(stress_level: u32, increment: u32) -> u32 {
    if stress_level + increment > u32::MAX {
        u32::MAX
    } else {
        (stress_level + increment) as u32
    }
}

/// Whether more time than the cooldown has passed at `now` since the reset.
pub open spec fn rested(worker: WorkerView, now: u128) -> bool {
    now >= worker.question_cooldown && now - worker.question_cooldown > worker.cooldown
}

/// The worker after a node was evaluated, where `increment` is the fatigue
/// that this adds. A strict worker stays as it is; another tires and notes
/// the mood that it is in.
pub open spec fn after_tick(worker: WorkerView, increment: u32, now: u128) -> WorkerView {
    if worker.strict_work {
        worker
    } else {
        WorkerView {
            prev_mood: mood_at(tired(worker.stress_level, increment), worker_range()),
            stress_level: tired(worker.stress_level, increment),
            ..worker
        }
    }
}

/// What the worker demands after a node was evaluated, where `now` is
/// the time and `literal` says that the node is a bare literal. A strict
/// worker demands nothing. Another shows its mood where that has changed, and
/// asks for the result where it is in its last mood, has rested and the node
/// is no bare literal.
pub open spec fn demand_at(worker: WorkerView, increment: u32, now: u128, literal: bool) -> Demand {
    if worker.strict_work {
        Demand { mood: None, question: false }
    } else {
        let mood = mood_at(tired(worker.stress_level, increment), worker_range());
        Demand {
            mood: if mood != worker.prev_mood {
                Some(mood)
            } else {
                None
            },
            question: mood == Mood::Deactivated && rested(worker, now) && !literal,
        }
    }
}

/// The worker after the right answer: rested, with a new cooldown that
/// starts at `now`.
pub open spec fn after_answer(worker: WorkerView, now: u128, cooldown: u128) -> WorkerView {
    WorkerView { stress_level: 0, cooldown, question_cooldown: now, ..worker }
}

/// The worker that watches an evaluation: it tires with every node, and
/// once it is exhausted and has rested it wants to be told results.
pub struct Worker {
    prev_mood: Mood,
    stress_level: u32,
    question_cooldown: u128,
    cooldown: u128,
    strict_work: bool,
}

impl View for Worker {
    type V = WorkerView;

    closed spec fn view(&self) -> WorkerView {
        WorkerView {
            prev_mood: self.prev_mood,
            stress_level: self.stress_level,
            question_cooldown: self.question_cooldown,
            cooldown: self.cooldown,
            strict_work: self.strict_work,
        }
    }
}

impl Humanoid for Worker {
    open spec fn level(&self) -> u32 {
        self@.stress_level
    }

    open spec fn range(&self) -> Seq<u32> {
        worker_range()
    }

    fn mood_level(&self) -> (level: u32) {
        self.stress_level
    }

    fn mood_changed(&mut self) -> (changed: bool)
        ensures
            changed == (mood_at(old(self)@.stress_level, worker_range()) != old(self)@.prev_mood),
            final(self)@ == (WorkerView {
                prev_mood: mood_at(old(self)@.stress_level, worker_range()),
                ..old(self)@
            }),
    {
        let last: Mood = self.prev_mood;
        let range: [u32; 5] = self.mood_range();
        let new_mood: Mood = mood_within(self.stress_level, &range);
        self.prev_mood = new_mood;
        last != new_mood
    }

    fn mood_range(&self) -> (range: [u32; 5]) {
        let range: [u32; 5] = [50, 1000, 10000, 100000, 1000000];
        assert(range@ =~= worker_range());
        range
    }
}

impl Worker {
    /// The state of a fresh worker: happy, rested, with a cooldown of 20
    /// nanoseconds. Its clock starts at zero.
    pub open spec fn new_view(strict_work: bool) -> WorkerView {
        WorkerView {
            prev_mood: Mood::Happy,
            stress_level: 0,
            question_cooldown: 0,
            cooldown: 20,
            strict_work,
        }
    }

    /// A fresh worker.
    pub fn new(strict_work: bool) -> (worker: Worker)
        ensures
            worker@ == Worker::new_view(strict_work),
    {
        Worker { prev_mood: Mood::Happy, strict_work, stress_level: 0, question_cooldown: 0, cooldown: 20 }
    }

    /// Whether the worker never tires.
    pub fn is_strict(&self) -> (strict: bool)
        ensures
            strict == self@.strict_work,
    {
        self.strict_work
    }

    /// The fatigue that has gathered.
    pub fn stress(&self) -> (level: u32)
        ensures
            level == self@.stress_level,
    {
        self.stress_level
    }

    /// Notes that a node was evaluated, which adds `increment` to the
    /// fatigue, and says what the worker demands now.
    pub fn tick(&mut self, increment: u32, now: u128, node: &ASTNode) -> (demand: Demand)
        ensures
            final(self)@ == after_tick(old(self)@, increment, now),
            demand == demand_at(old(self)@, increment, now, node@ is Value),
    {
        if self.strict_work {
            return Demand { mood: None, question: false };
        }
        let rested: bool = now >= self.question_cooldown && now - self.question_cooldown
            > self.cooldown;
        self.stress_level = self.stress_level.saturating_add(increment);
        let current_mood: Mood = HumanoidControl::mood::<Worker>(self);
        let changed: bool = self.mood_changed();
        let literal: bool = match node {
            ASTNode::Value { .. } => true,
            _ => false,
        };
        Demand {
            mood: if changed {
                Some(current_mood)
            } else {
                None
            },
            question: current_mood == Mood::Deactivated && rested && !literal,
        }
    }

    /// Notes that a node was evaluated, with a fatigue that chance picks
    /// between 1 and 9, and says what the worker demands now.
    pub fn call(&mut self, now: u128, node: &ASTNode) -> (demand: Demand)
        ensures
            exists|increment: u32|
                1 <= increment < 10 && final(self)@ == after_tick(old(self)@, increment, now)
                    && demand == demand_at(old(self)@, increment, now, node@ is Value),
    {
        if self.strict_work {
            return self.tick(1, now, node);
        }
        let increment: u32 = Worker::draw_stress();
        self.tick(increment, now, node)
    }

    /// Takes the answer to the question what a node evaluated to, which was
    /// `correct`. The right answer lets the worker rest: the fatigue is gone,
    /// and `cooldown` has to pass from `now` on before the next question.
    /// Any other answer disturbs the worker and changes nothing.
    pub fn settle(&mut self, answer: &Value, correct: &Value, now: u128, cooldown: u128) -> (result:
        Result<(), InterpreterError>)
        ensures
            result is Ok <==> answer@ == correct@,
            result matches Err(error) ==> error@ is DisturbedWorker,
            final(self)@ == if answer@ == correct@ {
                after_answer(old(self)@, now, cooldown)
            } else {
                old(self)@
            },
    {
        if answer.same(correct) {
            self.stress_level = 0;
            self.cooldown = cooldown;
            self.question_cooldown = now;
            Ok(())
        } else {
            Err(InterpreterError::DisturbedWorker)
        }
    }

    /// A fatigue as chance picks it: between 1 and 9.
    pub fn draw_stress() -> (stress: u32)
        ensures
            1 <= stress < 10,
    {
        random_between(1, 10) as u32
    }

    /// A cooldown as chance picks it: between a millisecond and a second,
    /// in nanoseconds.
    pub fn draw_cooldown() -> (cooldown: u128)
        ensures
            1000000 <= cooldown < 1000000000,
    {
        random_between(1000000, 1000000000)
    }
}

/// The upper case of a character, as `char::to_uppercase` gives it: one
/// character or several.
pub uninterp spec fn uppercased(c: char) -> Seq<char>;

/// The lower case of a text, as `str::to_lowercase` gives it.
pub uninterp spec fn lowercased(text: Seq<char>) -> Seq<char>;

/// `char::to_uppercase` maps a character to the characters of its upper
/// case, which `uppercased` names.
#[verifier::external_body]
fn uppercase(c: char) -> (upper: Vec<char>)
    ensures
        upper@ == uppercased(c),
{
    c.to_uppercase().collect()
}

/// `str::to_lowercase` maps a text to its lower case, which `lowercased`
/// names.
#[verifier::external_body]
fn lowercase(text: &str) -> (lower: String)
    ensures
        lower@ == lowercased(text@),
{
    text.to_lowercase()
}

/// The levels at which the moods of a shouter change.
pub open spec fn shouter_range() -> Seq<u32> {
    seq![20u32, 30u32, 40u32, 100u32, 10000u32]
}

/// The state of a shouter.
pub struct ShouterView {
    /// What shouting has done to the voice.
    pub voice_damage: u32,
    /// Whether the shouter says everything as it is.
    pub strict_work: bool,
}

/// The shouter that utters what a program hands out, and whose voice
/// suffers from it.
pub struct Shouter {
    voice_damage: u32,
    strict_work: bool,
}

impl View for Shouter {
    type V = ShouterView;

    closed spec fn view(&self) -> ShouterView {
        ShouterView { voice_damage: self.voice_damage, strict_work: self.strict_work }
    }
}

impl Humanoid for Shouter {
    open spec fn level(&self) -> u32 {
        self@.voice_damage
    }

    open spec fn range(&self) -> Seq<u32> {
        shouter_range()
    }

    fn mood_level(&self) -> (level: u32) {
        self.voice_damage
    }

    fn mood_changed(&mut self) -> (changed: bool)
        ensures
            !changed,
            final(self)@ == old(self)@,
    {
        false
    }

    fn mood_range(&self) -> (range: [u32; 5]) {
        let range: [u32; 5] = [20, 30, 40, 100, 10000];
        assert(range@ =~= shouter_range());
        range
    }
}

/// What a shouter utters.
#[derive(Debug)]
pub enum Utterance {
    /// The text as it is.
    Plain { text: String },
    /// No text, for the voice is gone: a pause of so many milliseconds, the
    /// mood, one of three coughs, and the wish for a drink.
    Cough { pause: u64, mood: Mood, cough: u32 },
    /// The text with some characters in upper case, and then a pause of so
    /// many nanoseconds.
    Shout { text: String, pause: u64 },
}

/// An utterance as a mathematical value.
pub enum UtteranceView {
    Plain { text: Seq<char> },
    Cough { pause: u64, mood: Mood, cough: u32 },
    Shout { text: Seq<char>, pause: u64 },
}

impl View for Utterance {
    type V = UtteranceView;

    open spec fn view(&self) -> UtteranceView {
        match self {
            Utterance::Plain { text } => UtteranceView::Plain { text: text@ },
            Utterance::Cough { pause, mood, cough } => UtteranceView::Cough {
                pause: *pause,
                mood: *mood,
                cough: *cough,
            },
            Utterance::Shout { text, pause } => UtteranceView::Shout { text: text@, pause: *pause },
        }
    }
}

/// How a drink is taken.
#[derive(PartialEq, Eq, Clone, Copy, Debug, Structural)]
pub enum Reply {
    /// It was tea or water, and the voice is back.
    Thanks,
    /// It was something else.
    Refused,
    /// It was no text at all.
    Foreign,
}

/// How a cough sounds.
pub open spec fn cough_text(cough: u32) -> Seq<char> {
    if cough == 1 {
        "*hust*"@
    } else if cough == 2 {
        "*keuch*"@
    } else if cough == 3 {
        "*arr*"@
    } else {
        "*hrrm*"@
    }
}

/// How a cough sounds.
pub fn cough_sound(cough: u32) -> (sound: String)
    ensures
        sound@ == cough_text(cough),
{
    if cough == 1 {
        String::from_str("*hust*")
    } else if cough == 2 {
        String::from_str("*keuch*")
    } else if cough == 3 {
        String::from_str("*arr*")
    } else {
        String::from_str("*hrrm*")
    }
}

/// Whether a character is raised at an intensity when chance drew `draw`
/// out of a hundred.
pub open spec fn raised(level: int, draw: u32) -> bool {
    (level - 1) * 10 > draw
}

/// The draw for the character at `index`; where the draws run out nothing
/// is raised any more.
pub open spec fn draw_at(draws: Seq<u32>, index: int) -> u32 {
    if 0 <= index < draws.len() {
        draws[index]
    } else {
        u32::MAX
    }
}

/// A text as it is shouted: each character that is raised is put in upper
/// case.
pub open spec fn shouted(text: Seq<char>, level: int, draws: Seq<u32>) -> Seq<char>
    decreases text.len(),
{
    if text.len() == 0 {
        Seq::empty()
    } else {
        shouted(text.drop_last(), level, draws) + if raised(
            level,
            draw_at(draws, text.len() - 1),
        ) {
            uppercased(text.last())
        } else {
            seq![text.last()]
        }
    }
}

/// The voice after a shout at an intensity.
pub open spec fn strained(voice_damage: u32, level: int) -> u32 {
    if voice_damage + level > u32::MAX {
        u32::MAX
    } else {
        (voice_damage + level) as u32
    }
}

/// What a shouter utters for `text` at an intensity, where chance drew
/// `draws` for the characters, `pause` for the pause of a cough and `cough`
/// for its sound. A strict shouter says the text as it is. One whose voice
/// has suffered more than 1000 coughs. Another shouts and strains its voice.
pub open spec fn uttered(
    shouter: ShouterView,
    level: int,
    text: Seq<char>,
    draws: Seq<u32>,
    pause: u64,
    cough: u32,
) -> UtteranceView {
    if shouter.strict_work {
        UtteranceView::Plain { text }
    } else if shouter.voice_damage > 1000 {
        UtteranceView::Cough {
            pause,
            mood: mood_at(shouter.voice_damage, shouter_range()),
            cough,
        }
    } else {
        UtteranceView::Shout {
            text: shouted(text, level, draws),
            pause: (strained(shouter.voice_damage, level) * 100000) as u64,
        }
    }
}

/// The shouter after it has uttered at an intensity.
pub open spec fn after_utterance(shouter: ShouterView, level: int) -> ShouterView {
    if shouter.strict_work || shouter.voice_damage > 1000 {
        shouter
    } else {
        ShouterView { voice_damage: strained(shouter.voice_damage, level), ..shouter }
    }
}

/// How a drink is taken: tea and water, in any case of letters, are.
pub open spec fn reply_to(drink: ValueView) -> Reply {
    match drink {
        ValueView::String(s) => if lowercased(s) == "tee"@ || lowercased(s) == "wasser"@ {
            Reply::Thanks
        } else {
            Reply::Refused
        },
        _ => Reply::Foreign,
    }
}

impl Shouter {
    /// A shouter with its voice intact.
    pub fn new(strict_work: bool) -> (shouter: Shouter)
        ensures
            shouter@ == (ShouterView { voice_damage: 0, strict_work }),
    {
        Shouter { voice_damage: 0, strict_work }
    }

    /// Whether a character is raised at an intensity with a draw.
    pub fn raises(shout_level: usize, draw: u32) -> (r: bool)
        ensures
            r == raised(shout_level as int, draw),
    {
        let tenth: usize = (draw / 10) as usize;
        shout_level >= 1 && tenth < shout_level - 1
    }

    /// The text as it is shouted at an intensity with these draws.
    pub fn distort(shout_level: usize, text: &str, draws: &Vec<u32>) -> (out: String)
        ensures
            out@ == shouted(text@, shout_level as int, draws@),
    {
        let chars: Vec<char> = chars_of(text);
        let mut out: String = String::new();
        let mut i: usize = 0;
        assert(chars@.take(0) =~= Seq::<char>::empty());
        while i < chars.len()
            invariant
                i <= chars@.len(),
                chars@ == text@,
                out@ == shouted(chars@.take(i as int), shout_level as int, draws@),
            decreases chars@.len() - i,
        {
            let c: char = chars[i];
            let draw: u32 = if i < draws.len() {
                draws[i]
            } else {
                u32::MAX
            };
            proof {
                assert(chars@.take(i + 1).drop_last() =~= chars@.take(i as int));
                assert(chars@.take(i + 1).last() == c);
            }
            if Shouter::raises(shout_level, draw) {
                let upper: Vec<char> = uppercase(c);
                let ghost before = out@;
                let mut j: usize = 0;
                while j < upper.len()
                    invariant
                        j <= upper@.len(),
                        out@ == before + upper@.take(j as int),
                    decreases upper@.len() - j,
                {
                    out.push(upper[j]);
                    assert(upper@.take(j + 1) =~= upper@.take(j as int).push(upper@[j as int]));
                    j = j + 1;
                }
                assert(upper@.take(upper@.len() as int) =~= upper@);
            } else {
                out.push(c);
                assert(out@ =~= shouted(chars@.take(i as int), shout_level as int, draws@)
                    + seq![c]);
            }
            i = i + 1;
        }
        assert(chars@.take(chars@.len() as int) =~= chars@);
        out
    }

    /// What the shouter utters for `text` at an intensity, with what chance
    /// drew: `draws` for the characters, `pause` for the pause of a cough
    /// and `cough` for its sound.
    pub fn shout_with(
        &mut self,
        shout_level: usize,
        text: String,
        draws: &Vec<u32>,
        pause: u64,
        cough: u32,
    ) -> (utterance: Utterance)
        ensures
            utterance@ == uttered(old(self)@, shout_level as int, text@, draws@, pause, cough),
            final(self)@ == after_utterance(old(self)@, shout_level as int),
    {
        if self.strict_work {
            Utterance::Plain { text }
        } else if self.voice_damage > 1000 {
            let range: [u32; 5] = self.mood_range();
            Utterance::Cough { pause, mood: mood_within(self.voice_damage, &range), cough }
        } else {
            let out: String = Shouter::distort(shout_level, text.as_str(), draws);
            self.voice_damage = if shout_level > (u32::MAX - self.voice_damage) as usize {
                u32::MAX
            } else {
                self.voice_damage + shout_level as u32
            };
            Utterance::Shout { text: out, pause: self.voice_damage as u64 * 100000 }
        }
    }

    /// What the shouter utters for `text` at an intensity, where chance
    /// draws a number under a hundred for each character, the pause of a
    /// cough between 20 and 499 milliseconds, and one of three coughs.
    pub fn shout(&mut self, shout_level: usize, text: String) -> (utterance: Utterance)
        ensures
            final(self)@ == after_utterance(old(self)@, shout_level as int),
            exists|draws: Seq<u32>, pause: u64, cough: u32|
                utterance@ == #[trigger] uttered(
                    old(self)@,
                    shout_level as int,
                    text@,
                    draws,
                    pause,
                    cough,
                ) && 20 <= pause < 500 && 1 <= cough < 4 && draws.len() == text@.len()
                    && forall|i: int| 0 <= i < draws.len() ==> draws[i] < 100,
    {
        let mut draws: Vec<u32> = Vec::new();
        let mut pause: u64 = 20;
        let mut cough: u32 = 1;
        let ghost before = self@;
        let ghost said = text@;
        let ghost picked: Seq<u32> = Seq::new(said.len(), |i: int| 0u32);
        if !self.strict_work {
            if self.voice_damage > 1000 {
                pause = random_between(20, 500) as u64;
                cough = random_between(1, 4) as u32;
            } else {
                let count: usize = chars_of(text.as_str()).len();
                let mut i: usize = 0;
                while i < count
                    invariant
                        i <= count,
                        draws@.len() == i,
                        forall|j: int| 0 <= j < draws@.len() ==> draws@[j] < 100,
                    decreases count - i,
                {
                    draws.push(random_between(0, 100) as u32);
                    i = i + 1;
                }
                proof {
                    picked = draws@;
                }
            }
        }
        let utterance: Utterance = self.shout_with(shout_level, text, &draws, pause, cough);
        assert(utterance@ == uttered(before, shout_level as int, said, picked, pause, cough));
        utterance
    }

    /// Gives the shouter a drink. Tea and water bring the voice back.
    pub fn quench(&mut self, drink: &Value) -> (reply: Reply)
        ensures
            reply == reply_to(drink@),
            final(self)@ == if reply == Reply::Thanks {
                ShouterView { voice_damage: 0, ..old(self)@ }
            } else {
                old(self)@
            },
    {
        match drink {
            Value::String(s) => {
                let lower: Vec<char> = chars_of(lowercase(s.as_str()).as_str());
                if spells(&lower, "tee") || spells(&lower, "wasser") {
                    self.voice_damage = 0;
                    Reply::Thanks
                } else {
                    Reply::Refused
                }
            },
            _ => Reply::Foreign,
        }
    }
}

} // verus!
