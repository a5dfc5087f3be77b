use dmm::ast::{ASTNode, Value};
use dmm::interpreter::InterpreterError;
use dmm::humanoid::{
    cough_sound, mood_within, read_value, Demand, Humanoid, HumanoidControl, Mood, Reply, Shouter,
    Utterance, Worker,
};

fn literal() -> ASTNode {
    ASTNode::Value { value: Value::Integer(1) }
}

fn variable() -> ASTNode {
    ASTNode::Variable { name: "a".to_string() }
}

#[test]
fn moods_have_faces() {
    assert_eq!(Mood::Happy.to_string(), "=D");
    assert_eq!(Mood::Glad.to_string(), "=)");
    assert_eq!(Mood::Okay.to_string(), "=I");
    assert_eq!(Mood::Sad.to_string(), "=(");
    assert_eq!(Mood::Aggressive.to_string(), "=X");
    assert_eq!(Mood::Deactivated.to_string(), "Xc");
}

#[test]
fn the_mood_follows_the_level_within_the_range() {
    let range = [50, 1000, 10000, 100000, 1000000];
    assert_eq!(mood_within(0, &range), Mood::Happy);
    assert_eq!(mood_within(49, &range), Mood::Happy);
    assert_eq!(mood_within(50, &range), Mood::Glad);
    assert_eq!(mood_within(999, &range), Mood::Glad);
    assert_eq!(mood_within(1000, &range), Mood::Okay);
    assert_eq!(mood_within(9999, &range), Mood::Okay);
    assert_eq!(mood_within(10000, &range), Mood::Sad);
    assert_eq!(mood_within(99999, &range), Mood::Sad);
    assert_eq!(mood_within(100000, &range), Mood::Aggressive);
    assert_eq!(mood_within(999999, &range), Mood::Aggressive);
    assert_eq!(mood_within(1000000, &range), Mood::Deactivated);
    assert_eq!(mood_within(u32::MAX, &range), Mood::Deactivated);
}

#[test]
fn a_fresh_worker_is_happy() {
    let worker = Worker::new(false);
    assert_eq!(worker.mood_level(), 0);
    assert_eq!(worker.mood_range(), [50, 1000, 10000, 100000, 1000000]);
    assert_eq!(HumanoidControl::mood(&worker), Mood::Happy);
    assert!(!worker.is_strict());
    assert!(Worker::new(true).is_strict());
}

#[test]
fn a_worker_tires_with_every_node() {
    let mut worker = Worker::new(false);
    assert_eq!(worker.tick(9, 0, &variable()), Demand { mood: None, question: false });
    assert_eq!(worker.stress(), 9);
    assert_eq!(worker.tick(41, 0, &variable()), Demand { mood: Some(Mood::Glad), question: false });
    assert_eq!(worker.stress(), 50);
    assert_eq!(worker.tick(1, 0, &variable()), Demand { mood: None, question: false });
    assert_eq!(HumanoidControl::mood(&worker), Mood::Glad);
}

#[test]
fn a_worker_notes_the_mood_it_has_shown() {
    let mut worker = Worker::new(false);
    worker.tick(60, 0, &variable());
    assert!(!worker.mood_changed());
    let mut other = Worker::new(false);
    assert!(!other.mood_changed());
}

#[test]
fn fatigue_stops_at_the_largest_number() {
    let mut worker = Worker::new(false);
    worker.tick(u32::MAX, 0, &literal());
    worker.tick(5, 0, &literal());
    assert_eq!(worker.stress(), u32::MAX);
}

#[test]
fn an_exhausted_worker_asks_once_it_has_rested() {
    let mut worker = Worker::new(false);
    let demand = worker.tick(1000000, 21, &variable());
    assert_eq!(demand, Demand { mood: Some(Mood::Deactivated), question: true });
    let again = worker.tick(1, 21, &variable());
    assert_eq!(again, Demand { mood: None, question: true });
}

#[test]
fn an_exhausted_worker_waits_for_the_cooldown() {
    let mut worker = Worker::new(false);
    assert!(!worker.tick(1000000, 20, &variable()).question);
    assert!(!worker.tick(1, 0, &variable()).question);
    assert!(worker.tick(1, 21, &variable()).question);
}

#[test]
fn an_exhausted_worker_does_not_ask_for_literals() {
    let mut worker = Worker::new(false);
    let demand = worker.tick(1000000, 100, &literal());
    assert_eq!(demand, Demand { mood: Some(Mood::Deactivated), question: false });
}

#[test]
fn a_worker_that_is_not_exhausted_does_not_ask() {
    let mut worker = Worker::new(false);
    let demand = worker.tick(999999, 100, &variable());
    assert_eq!(demand, Demand { mood: Some(Mood::Aggressive), question: false });
}

#[test]
fn the_right_answer_lets_the_worker_rest() {
    let mut worker = Worker::new(false);
    worker.tick(1000000, 100, &variable());
    assert!(worker.settle(&Value::Integer(3), &Value::Integer(3), 100, 5000).is_ok());
    assert_eq!(worker.stress(), 0);
    assert!(!worker.tick(1000000, 5100, &variable()).question);
    assert!(worker.tick(1, 5101, &variable()).question);
}

#[test]
fn a_wrong_answer_changes_nothing() {
    let mut worker = Worker::new(false);
    worker.tick(1000000, 100, &variable());
    assert!(matches!(
        worker.settle(&Value::Integer(4), &Value::Integer(3), 100, 5000),
        Err(InterpreterError::DisturbedWorker)
    ));
    assert!(worker.settle(&Value::String("3".to_string()), &Value::Integer(3), 100, 5000).is_err());
    assert!(worker.settle(&Value::Nothing, &Value::Integer(3), 100, 5000).is_err());
    assert_eq!(worker.stress(), 1000000);
    assert!(worker.tick(1, 101, &variable()).question);
}

#[test]
fn a_strict_worker_never_tires() {
    let mut worker = Worker::new(true);
    for now in [0u128, 100, 1000000000] {
        let demand = worker.tick(1000000, now, &variable());
        assert_eq!(demand, Demand { mood: None, question: false });
        assert_eq!(worker.call(now, &variable()), Demand { mood: None, question: false });
    }
    assert_eq!(worker.stress(), 0);
    assert_eq!(HumanoidControl::mood(&worker), Mood::Happy);
}

#[test]
fn chance_adds_between_one_and_nine() {
    for _ in 0..200 {
        let mut worker = Worker::new(false);
        worker.call(0, &variable());
        assert!(1 <= worker.stress() && worker.stress() < 10, "{}", worker.stress());
        let stress = Worker::draw_stress();
        assert!(1 <= stress && stress < 10);
    }
}

#[test]
fn chance_picks_a_cooldown_between_a_millisecond_and_a_second() {
    let mut seen = std::collections::HashSet::new();
    for _ in 0..200 {
        let cooldown = Worker::draw_cooldown();
        assert!(1000000 <= cooldown && cooldown < 1000000000, "{}", cooldown);
        seen.insert(cooldown);
    }
    assert!(seen.len() > 1);
}

#[test]
fn a_line_answers_with_the_literal_that_it_assigns() {
    assert_eq!(read_value("x = 3\n"), Value::Integer(3));
    assert_eq!(read_value("x = 3"), Value::Integer(3));
    assert_eq!(read_value("answer = <tee>\n"), Value::String("tee".to_string()));
    assert_eq!(read_value("a = :)\n"), Value::Boolean(true));
    assert_eq!(read_value("a = :(\n"), Value::Boolean(false));
    assert_eq!(read_value("machma a uf 12\n"), Value::Integer(12));
}

#[test]
fn any_other_line_answers_with_nothing() {
    assert_eq!(read_value(""), Value::Nothing);
    assert_eq!(read_value("\n"), Value::Nothing);
    assert_eq!(read_value("3\n"), Value::Nothing);
    assert_eq!(read_value("x = 1 + 2\n"), Value::Nothing);
    assert_eq!(read_value("x = -3\n"), Value::Nothing);
    assert_eq!(read_value("x = y\n"), Value::Nothing);
    assert_eq!(read_value("f(1)\n"), Value::Nothing);
    assert_eq!(read_value("x = <open\n"), Value::Nothing);
    assert_eq!(read_value("x = 3 reicht dann auch mal\n"), Value::Nothing);
}

#[test]
fn a_fresh_shouter_has_its_voice() {
    let shouter = Shouter::new(false);
    assert_eq!(shouter.mood_level(), 0);
    assert_eq!(shouter.mood_range(), [20, 30, 40, 100, 10000]);
    assert_eq!(HumanoidControl::mood(&shouter), Mood::Happy);
    let mut same = Shouter::new(false);
    assert!(!same.mood_changed());
}

#[test]
fn a_character_is_raised_when_the_draw_is_low() {
    assert!(!Shouter::raises(0, 0));
    assert!(!Shouter::raises(1, 0));
    assert!(Shouter::raises(2, 0));
    assert!(Shouter::raises(2, 9));
    assert!(!Shouter::raises(2, 10));
    assert!(Shouter::raises(5, 39));
    assert!(!Shouter::raises(5, 40));
    assert!(Shouter::raises(11, 99));
    assert!(!Shouter::raises(10, 99));
}

#[test]
fn shouting_raises_the_characters_that_chance_picks() {
    assert_eq!(Shouter::distort(2, "abc", &vec![0, 50, 9]), "AbC");
    assert_eq!(Shouter::distort(11, "abc", &vec![99, 99, 99]), "ABC");
    assert_eq!(Shouter::distort(1, "abc", &vec![0, 0, 0]), "abc");
    assert_eq!(Shouter::distort(11, "abc", &vec![0]), "Abc");
    assert_eq!(Shouter::distort(11, "straße", &vec![0, 0, 0, 0, 0, 0]), "STRASSE");
    assert_eq!(Shouter::distort(11, "", &vec![]), "");
}

#[test]
fn a_strict_shouter_says_the_text_as_it_is() {
    let mut shouter = Shouter::new(true);
    for _ in 0..3 {
        match shouter.shout(9, "hello".to_string()) {
            Utterance::Plain { text } => assert_eq!(text, "hello"),
            other => panic!("{:?}", other),
        }
    }
    assert_eq!(shouter.mood_level(), 0);
}

#[test]
fn shouting_strains_the_voice() {
    let mut shouter = Shouter::new(false);
    match shouter.shout_with(3, "ab".to_string(), &vec![19, 20], 0, 0) {
        Utterance::Shout { text, pause } => {
            assert_eq!(text, "Ab");
            assert_eq!(pause, 300000);
        }
        other => panic!("{:?}", other),
    }
    assert_eq!(shouter.mood_level(), 3);
    shouter.shout_with(20, String::new(), &vec![], 0, 0);
    assert_eq!(shouter.mood_level(), 23);
    assert_eq!(HumanoidControl::mood(&shouter), Mood::Glad);
}

#[test]
fn a_shouter_without_voice_coughs() {
    let mut shouter = Shouter::new(false);
    shouter.shout_with(1001, String::new(), &vec![], 0, 0);
    assert_eq!(shouter.mood_level(), 1001);
    match shouter.shout_with(5, "lost".to_string(), &vec![0, 0, 0, 0], 123, 2) {
        Utterance::Cough { pause, mood, cough } => {
            assert_eq!(pause, 123);
            assert_eq!(mood, Mood::Aggressive);
            assert_eq!(cough, 2);
        }
        other => panic!("{:?}", other),
    }
    assert_eq!(shouter.mood_level(), 1001);
    match shouter.shout(5, "lost".to_string()) {
        Utterance::Cough { pause, cough, .. } => {
            assert!(20 <= pause && pause < 500);
            assert!(1 <= cough && cough < 4);
        }
        other => panic!("{:?}", other),
    }
}

#[test]
fn the_voice_cannot_get_worse_than_the_largest_number() {
    let mut shouter = Shouter::new(false);
    shouter.shout_with(1000, String::new(), &vec![], 0, 0);
    shouter.shout_with(usize::MAX, String::new(), &vec![], 0, 0);
    assert_eq!(shouter.mood_level(), u32::MAX);
}

#[test]
fn chance_shouts_louder_at_a_higher_intensity() {
    let mut quiet = Shouter::new(false);
    match quiet.shout(1, "abcdefghij".to_string()) {
        Utterance::Shout { text, .. } => assert_eq!(text, "abcdefghij"),
        other => panic!("{:?}", other),
    }
    let mut loud = Shouter::new(false);
    match loud.shout(11, "abcdefghij".to_string()) {
        Utterance::Shout { text, .. } => assert_eq!(text, "ABCDEFGHIJ"),
        other => panic!("{:?}", other),
    }
}

#[test]
fn tea_and_water_bring_the_voice_back() {
    for drink in ["tee", "Tee", "TEE", "wasser", "WaSSer"] {
        let mut shouter = Shouter::new(false);
        shouter.shout_with(2000, String::new(), &vec![], 0, 0);
        assert_eq!(shouter.quench(&Value::String(drink.to_string())), Reply::Thanks);
        assert_eq!(shouter.mood_level(), 0);
    }
}

#[test]
fn other_drinks_are_refused() {
    let mut shouter = Shouter::new(false);
    shouter.shout_with(2000, String::new(), &vec![], 0, 0);
    assert_eq!(shouter.quench(&Value::String("bier".to_string())), Reply::Refused);
    assert_eq!(shouter.quench(&Value::String(String::new())), Reply::Refused);
    assert_eq!(shouter.quench(&Value::Integer(3)), Reply::Foreign);
    assert_eq!(shouter.quench(&Value::Nothing), Reply::Foreign);
    assert_eq!(shouter.mood_level(), 2000);
}

#[test]
fn there_are_three_coughs_and_one_more() {
    assert_eq!(cough_sound(1), "*hust*");
    assert_eq!(cough_sound(2), "*keuch*");
    assert_eq!(cough_sound(3), "*arr*");
    assert_eq!(cough_sound(0), "*hrrm*");
    assert_eq!(cough_sound(4), "*hrrm*");
}
