use hayabusa::condition::{
    instantiate, parse_condition, read_condition, tokenize, ConditionError, Formula, NamedSelection,
    Token,
};
use hayabusa::enrich::{enrich_record, EnrichedRecord};
use hayabusa::record::Value;
use hayabusa::rule::{ConditionExpr, Matcher};

fn name(text: &str, word: &str) -> Formula {
    let start = text.find(word).unwrap();
    Formula::Name { start, end: start + word.len() }
}

fn and(a: Formula, b: Formula) -> Formula {
    Formula::And(Box::new(a), Box::new(b))
}

fn or(a: Formula, b: Formula) -> Formula {
    Formula::Or(Box::new(a), Box::new(b))
}

fn not(a: Formula) -> Formula {
    Formula::Not(Box::new(a))
}

fn is(key: &str, value: &str) -> ConditionExpr {
    ConditionExpr::Selection(key.to_string(), Matcher::Exact(value.to_string()))
}

fn selections() -> Vec<NamedSelection> {
    vec![
        NamedSelection { name: "logon".to_string(), condition: is("EventID", "4624") },
        NamedSelection {
            name: "network".to_string(),
            condition: ConditionExpr::And(vec![is("LogonType", "3"), is("Channel", "Security")]),
        },
        NamedSelection {
            name: "admin".to_string(),
            condition: ConditionExpr::Selection(
                "User".to_string(),
                Matcher::OneOf(vec!["root".to_string(), "Administrator".to_string()]),
            ),
        },
        NamedSelection { name: "logon".to_string(), condition: is("EventID", "shadowed") },
    ]
}

fn record(id: &str, logon_type: &str, user: &str) -> EnrichedRecord {
    let raw = Value::Object(vec![
        ("EventID".to_string(), Value::Number(id.to_string())),
        ("LogonType".to_string(), Value::Number(logon_type.to_string())),
        ("Channel".to_string(), Value::Text("Security".to_string())),
        ("User".to_string(), Value::Text(user.to_string())),
    ]);
    let keys: Vec<String> =
        vec!["EventID", "LogonType", "Channel", "User"].into_iter().map(|s| s.to_string()).collect();
    enrich_record(raw, "t", 0, &keys, "Time")
}

#[test]
fn tokenize_cuts_words_and_signs() {
    let chars: Vec<char> = "(a and not b_2)or c".chars().collect();
    assert_eq!(tokenize(&chars), Ok(vec![
        Token::Open,
        Token::Name { start: 1, end: 2 },
        Token::And,
        Token::Not,
        Token::Name { start: 11, end: 14 },
        Token::Close,
        Token::Or,
        Token::Name { start: 18, end: 19 },
    ]));
    assert_eq!(tokenize(&Vec::new()), Ok(Vec::new()));
    assert_eq!(tokenize(&" \t\r\n".chars().collect()), Ok(Vec::new()));
}

#[test]
fn tokenize_takes_connectives_as_whole_words_only() {
    let chars: Vec<char> = "android notorious AND oreo".chars().collect();
    assert_eq!(tokenize(&chars), Ok(vec![
        Token::Name { start: 0, end: 7 },
        Token::Name { start: 8, end: 17 },
        Token::Name { start: 18, end: 21 },
        Token::Name { start: 22, end: 26 },
    ]));
}

#[test]
fn tokenize_reports_the_first_bad_character() {
    assert_eq!(tokenize(&"a and b | count()".chars().collect()), Err(8));
    assert_eq!(tokenize(&"!a".chars().collect()), Err(0));
    assert_eq!(tokenize(&"selection-1".chars().collect()), Err(9));
}

#[test]
fn parse_condition_reads_one_name() {
    assert_eq!(parse_condition("selection"), Ok(Formula::Name { start: 0, end: 9 }));
    assert_eq!(parse_condition("  ( selection )  "), Ok(Formula::Name { start: 4, end: 13 }));
}

#[test]
fn parse_condition_follows_precedence() {
    let t = "a or b and not c";
    assert_eq!(parse_condition(t), Ok(or(name(t, "a"), and(name(t, "b"), not(name(t, "c"))))));
    let t = "not a and b";
    assert_eq!(parse_condition(t), Ok(and(not(name(t, "a")), name(t, "b"))));
    let t = "not (a and b)";
    assert_eq!(parse_condition(t), Ok(not(and(name(t, "a"), name(t, "b")))));
    let t = "(a or b) and c";
    assert_eq!(parse_condition(t), Ok(and(or(name(t, "a"), name(t, "b")), name(t, "c"))));
    let t = "not not a";
    assert_eq!(parse_condition(t), Ok(not(not(name(t, "a")))));
}

#[test]
fn parse_condition_groups_from_the_left() {
    let t = "a and b and c";
    assert_eq!(parse_condition(t), Ok(and(and(name(t, "a"), name(t, "b")), name(t, "c"))));
    let t = "a or b or c";
    assert_eq!(parse_condition(t), Ok(or(or(name(t, "a"), name(t, "b")), name(t, "c"))));
}

#[test]
fn parse_condition_rejects_what_is_no_condition() {
    for text in ["", "   ", "and", "a and", "a or or b", "(a", "a)", "()", "a b", "not", "a not b", "(a and b"] {
        assert_eq!(parse_condition(text), Err(ConditionError::Malformed), "{:?}", text);
    }
    assert_eq!(parse_condition("a & b"), Err(ConditionError::BadCharacter(2)));
    assert_eq!(parse_condition("a and b | count() > 5"), Err(ConditionError::BadCharacter(8)));
}

#[test]
fn read_condition_puts_selections_for_names() {
    let c = read_condition("logon and network", &selections()).unwrap();
    assert_eq!(c, ConditionExpr::And(vec![
        is("EventID", "4624"),
        ConditionExpr::And(vec![is("LogonType", "3"), is("Channel", "Security")]),
    ]));
    let c = read_condition("not admin", &selections()).unwrap();
    assert_eq!(c, ConditionExpr::Not(Box::new(ConditionExpr::Selection(
        "User".to_string(),
        Matcher::OneOf(vec!["root".to_string(), "Administrator".to_string()]),
    ))));
}

#[test]
fn read_condition_evaluates_like_its_text() {
    let c = read_condition("logon and (network or admin) and not (network and admin)", &selections())
        .unwrap();
    assert!(c.evaluate(&record("4624", "3", "alice")));
    assert!(c.evaluate(&record("4624", "2", "root")));
    assert!(!c.evaluate(&record("4624", "3", "root")));
    assert!(!c.evaluate(&record("4624", "2", "alice")));
    assert!(!c.evaluate(&record("4625", "3", "alice")));
}

#[test]
fn read_condition_names_the_first_unknown_selection() {
    assert_eq!(
        read_condition("logon and nowhere or neither", &selections()),
        Err(ConditionError::UnknownName(10))
    );
    assert_eq!(read_condition("Logon", &selections()), Err(ConditionError::UnknownName(0)));
    assert_eq!(read_condition("logon", &Vec::new()), Err(ConditionError::UnknownName(0)));
    assert_eq!(read_condition("logon and", &selections()), Err(ConditionError::Malformed));
    assert_eq!(read_condition("logon; network", &selections()), Err(ConditionError::BadCharacter(5)));
}

#[test]
fn instantiate_refuses_names_outside_the_text() {
    let chars: Vec<char> = "logon".chars().collect();
    assert_eq!(
        instantiate(&Formula::Name { start: 2, end: 9 }, &chars, &selections()),
        Err(ConditionError::UnknownName(2))
    );
    assert_eq!(
        instantiate(&Formula::Name { start: 3, end: 1 }, &chars, &selections()),
        Err(ConditionError::UnknownName(3))
    );
    assert_eq!(
        instantiate(&Formula::Name { start: 0, end: 5 }, &chars, &selections()),
        Ok(is("EventID", "4624"))
    );
}

#[test]
fn duplicates_are_equal_to_what_they_copy() {
    for s in selections() {
        assert_eq!(s.condition.duplicate(), s.condition);
    }
    let nested = ConditionExpr::Or(vec![
        ConditionExpr::Not(Box::new(ConditionExpr::And(vec![]))),
        ConditionExpr::Selection("a".to_string(), Matcher::Regex("x+".to_string())),
        ConditionExpr::Selection("b".to_string(), Matcher::Wildcard("x*".to_string())),
        ConditionExpr::Selection(
            "c".to_string(),
            Matcher::Numeric(hayabusa::rule::CompareOp::Less, -3),
        ),
    ]);
    assert_eq!(nested.duplicate(), nested);
}

#[test]
fn a_condition_with_all_its_parentheses_reads_back() {
    let t = "((a) and (not (b))) or (c)";
    assert_eq!(
        parse_condition(t),
        Ok(or(and(name(t, "a"), not(name(t, "b"))), name(t, "c")))
    );
    let t = "not ((a) or (b))";
    assert_eq!(parse_condition(t), Ok(not(or(name(t, "a"), name(t, "b")))));
}
