use dmm::ast::Value;
use dmm::table::Table;

fn text(s: &str) -> Value {
    Value::String(s.to_string())
}

#[test]
fn integers_read_in_decimal() {
    assert_eq!(Value::Integer(0).to_string(), "0");
    assert_eq!(Value::Integer(7).to_string(), "7");
    assert_eq!(Value::Integer(10).to_string(), "10");
    assert_eq!(Value::Integer(1234567890).to_string(), "1234567890");
    assert_eq!(Value::Integer(-1).to_string(), "-1");
    assert_eq!(Value::Integer(-305).to_string(), "-305");
    assert_eq!(Value::Integer(i32::MAX).to_string(), "2147483647");
    assert_eq!(Value::Integer(i32::MIN).to_string(), "-2147483648");
}

#[test]
fn other_values_read_as_text_smiley_or_dash() {
    assert_eq!(text("hi there").to_string(), "hi there");
    assert_eq!(text("").to_string(), "");
    assert_eq!(Value::Boolean(true).to_string(), ":)");
    assert_eq!(Value::Boolean(false).to_string(), ":(");
    assert_eq!(Value::Nothing.to_string(), "-");
}

#[test]
fn values_are_the_same_by_kind_and_payload() {
    assert!(Value::Integer(3).same(&Value::Integer(3)));
    assert!(!Value::Integer(3).same(&Value::Integer(4)));
    assert!(text("a").same(&text("a")));
    assert!(!text("a").same(&text("b")));
    assert!(Value::Boolean(true).same(&Value::Boolean(true)));
    assert!(!Value::Boolean(true).same(&Value::Boolean(false)));
    assert!(Value::Nothing.same(&Value::Nothing));
    assert!(!Value::Integer(1).same(&text("1")));
    assert!(!Value::Nothing.same(&Value::Boolean(false)));
    assert!(Value::Integer(3).duplicate().same(&Value::Integer(3)));
    assert!(text("abc").duplicate().same(&text("abc")));
}

#[test]
fn integers_are_ordered_as_numbers() {
    assert!(Value::Integer(1).before(&Value::Integer(2)));
    assert!(!Value::Integer(2).before(&Value::Integer(2)));
    assert!(!Value::Integer(3).before(&Value::Integer(2)));
    assert!(Value::Integer(-5).before(&Value::Integer(0)));
}

#[test]
fn texts_are_ordered_character_by_character() {
    assert!(text("a").before(&text("b")));
    assert!(text("a").before(&text("ab")));
    assert!(text("").before(&text("a")));
    assert!(!text("a").before(&text("a")));
    assert!(!text("b").before(&text("ab")));
    assert!(text("Z").before(&text("a")));
    assert!(text("z").before(&text("ä")));
    assert!(!text("").before(&text("")));
}

#[test]
fn false_comes_before_true() {
    assert!(Value::Boolean(false).before(&Value::Boolean(true)));
    assert!(!Value::Boolean(true).before(&Value::Boolean(false)));
    assert!(!Value::Boolean(true).before(&Value::Boolean(true)));
    assert!(!Value::Nothing.before(&Value::Nothing));
}

#[test]
fn kinds_are_ordered_among_each_other() {
    let kinds = [Value::Integer(9), text("a"), Value::Boolean(false), Value::Nothing];
    for i in 0..kinds.len() {
        for j in 0..kinds.len() {
            assert_eq!(kinds[i].before(&kinds[j]), i < j, "{:?} {:?}", kinds[i], kinds[j]);
        }
    }
}

#[test]
fn the_order_agrees_with_the_derived_one() {
    let values = [
        Value::Integer(-3),
        Value::Integer(3),
        text(""),
        text("a"),
        text("ab"),
        text("b"),
        Value::Boolean(false),
        Value::Boolean(true),
        Value::Nothing,
    ];
    for a in &values {
        for b in &values {
            assert_eq!(a.same(b), a == b);
        }
    }
}

#[test]
fn a_table_keeps_what_was_last_written() {
    let mut table: Table<Value> = Table::new();
    assert!(table.get(&"a".to_string()).is_none());
    assert!(!table.insert("a".to_string(), Value::Integer(1)));
    assert!(!table.insert("b".to_string(), Value::Integer(2)));
    assert_eq!(table.get(&"a".to_string()), Some(&Value::Integer(1)));
    assert!(table.insert("a".to_string(), Value::Integer(3)));
    assert_eq!(table.get(&"a".to_string()), Some(&Value::Integer(3)));
    assert_eq!(table.get(&"b".to_string()), Some(&Value::Integer(2)));
    assert!(table.get(&"c".to_string()).is_none());
    assert_eq!(table.entries.len(), 2);
    let copy = dmm::table::duplicate_values(&table);
    assert_eq!(copy.get(&"a".to_string()), Some(&Value::Integer(3)));
    assert_eq!(copy.entries.len(), 2);
}
