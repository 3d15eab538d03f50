use stalch::{tokenize, Command, Error, Value, Word};

#[test]
fn add_rules() {
    assert!(matches!(Value::Null.add(Value::Integer(3)), Value::Integer(3)));
    assert!(matches!(Value::Integer(3).add(Value::Null), Value::Integer(3)));
    assert!(matches!(Value::Integer(3).add(Value::Integer(4)), Value::Integer(7)));
    assert!(matches!(Value::Integer(i64::MAX).add(Value::Integer(1)), Value::Integer(i64::MIN)));
    match Value::Str("n=".to_owned()).add(Value::Integer(-12)) {
        Value::Str(s) => assert_eq!(s, "n=-12"),
        other => panic!("{:?}", other),
    }
    match Value::Integer(5).add(Value::Str("x".to_owned())) {
        Value::Str(s) => assert_eq!(s, "5x"),
        other => panic!("{:?}", other),
    }
    match Value::Str("a".to_owned()).add(Value::Bool(true)) {
        Value::Str(s) => assert_eq!(s, "atrue"),
        other => panic!("{:?}", other),
    }
    match Value::Str("a".to_owned()).add(Value::Variable("q".to_owned())) {
        Value::Str(s) => assert_eq!(s, "a[variable: q]"),
        other => panic!("{:?}", other),
    }
    assert!(matches!(Value::Bool(true).add(Value::Integer(1)), Value::Null));
}

fn lit(s: &str) -> Command {
    Command::Literal(s.to_owned())
}

#[test]
fn block_addition() {
    let a = Value::Block(1, vec![lit("1")]);
    let b = Value::Block(1, vec![lit("2")]);
    match a.add(b) {
        Value::Block(1, c) => assert_eq!(c.len(), 2),
        other => panic!("{:?}", other),
    }
    let a = Value::Block(2, vec![lit("1")]);
    let b = Value::Block(3, vec![lit("1")]);
    match a.add(b) {
        Value::Block(5, c) => assert_eq!(c.len(), 1),
        other => panic!("{:?}", other),
    }
    let a = Value::Block(2, vec![lit("1")]);
    let b = Value::Block(1, vec![lit("2")]);
    match a.add(b) {
        Value::Block(1, c) => {
            assert_eq!(c.len(), 3);
            assert!(matches!(&c[2], Command::Literal(s) if s == "2"));
        }
        other => panic!("{:?}", other),
    }
}

#[test]
fn multiplication_rules() {
    match Value::Str("ab".to_owned()).mul(Value::Integer(3)) {
        Value::Str(s) => assert_eq!(s, "ababab"),
        other => panic!("{:?}", other),
    }
    match Value::Integer(-2).mul(Value::Str("ab".to_owned())) {
        Value::Str(s) => assert_eq!(s, ""),
        other => panic!("{:?}", other),
    }
    assert!(matches!(Value::Integer(6).mul(Value::Integer(7)), Value::Integer(42)));
    assert!(matches!(Value::Block(3, vec![]).mul(Value::Integer(4)), Value::Block(12, _)));
    assert!(matches!(Value::Block(3, vec![]).mul(Value::Integer(0)), Value::Null));
    assert!(matches!(Value::Block(300, vec![]).mul(Value::Integer(300)), Value::Null));
    assert!(matches!(Value::Bool(true).mul(Value::Integer(2)), Value::Null));
}

#[test]
fn numeric_only_operators() {
    assert!(matches!(Value::Integer(9).sub(Value::Integer(4)), Value::Integer(5)));
    assert!(matches!(Value::Str("a".to_owned()).sub(Value::Integer(4)), Value::Null));
    assert!(matches!(Value::Integer(9).div(Value::Integer(2)), Value::Integer(4)));
    assert!(matches!(Value::Integer(9).rem(Value::Integer(4)), Value::Integer(1)));
    assert!(matches!(Value::Integer(9).div(Value::Integer(0)), Value::Null));
    assert!(matches!(Value::Integer(9).rem(Value::Integer(0)), Value::Null));
    assert!(matches!(Value::Integer(6).bitxor(Value::Integer(3)), Value::Integer(5)));
}

#[test]
fn truthiness() {
    assert!(Value::Float(0.0f64.to_bits()).as_bool());
    assert!(!Value::Float(f64::NAN.to_bits()).as_bool());
    assert!(Value::Integer(0).as_bool());
    assert!(!Value::Str(String::new()).as_bool());
    assert!(Value::Block(1, vec![]).as_bool());
    assert!(!Value::Variable("x".to_owned()).as_bool());
    assert!(!Value::Null.as_bool());
}

#[test]
fn literal_parsing() {
    assert!(matches!(Value::parse("42"), Some(Value::Integer(42))));
    assert!(matches!(Value::parse("+42"), Some(Value::Integer(42))));
    assert!(matches!(Value::parse("-9223372036854775808"), Some(Value::Integer(i64::MIN))));
    assert!(Value::parse("9223372036854775808").is_none());
    assert!(Value::parse("1.5").is_none());
    assert!(matches!(Value::parse("-"), Some(Value::Variable(ref s)) if s == "-"));
    assert!(matches!(Value::parse("x"), Some(Value::Variable(ref s)) if s == "x"));
    assert!(matches!(Value::parse("true"), Some(Value::Bool(true))));
    assert!(matches!(Value::parse("null"), Some(Value::Null)));
    assert!(matches!(Value::parse("1e"), Some(Value::Variable(ref s)) if s == "1e"));
    assert!(matches!(Value::parse("."), Some(Value::Variable(ref s)) if s == "."));
    assert!(matches!(Value::parse("1.2.3"), Some(Value::Variable(_))));
    for f in ["1e5", ".5", "5.", "-2.5E-3", "inf", "-Infinity", "NaN", "+1.0e+9"] {
        assert!(Value::parse(f).is_none(), "{}", f);
        assert!(f.parse::<f64>().is_ok());
    }
    assert!(matches!(Value::parse("\"a b\""), Some(Value::Str(ref s)) if s == "a b"));
    assert!(matches!(Value::parse("\""), Some(Value::Str(ref s)) if s.is_empty()));
    assert!(matches!(Value::parse_word("true"), Value::Bool(true)));
    assert!(matches!(Value::parse_word("false"), Value::Bool(false)));
    assert!(matches!(Value::parse_word("null"), Value::Null));
    assert!(matches!(Value::parse_word("\u{f8}"), Value::Null));
    assert!(matches!(Value::parse_word("True"), Value::Variable(ref s) if s == "True"));
}

#[test]
fn display_text() {
    assert_eq!(Value::Integer(-305).display(), "-305");
    assert_eq!(Value::Integer(i64::MIN).display(), "-9223372036854775808");
    assert_eq!(Value::Bool(false).display(), "false");
    assert_eq!(Value::Block(1, vec![]).display(), "[code block]");
    assert_eq!(Value::Variable("v".to_owned()).display(), "[variable: v]");
    assert_eq!(Value::Null.display(), "NULL");
}

#[test]
fn flatten_writes_out_multiplicity() {
    match Value::Block(3, vec![lit("a"), Command::Word(Word::Dup)]).flatten() {
        Value::Block(1, c) => {
            assert_eq!(c.len(), 6);
            assert!(matches!(&c[4], Command::Literal(s) if s == "a"));
        }
        other => panic!("{:?}", other),
    }
    assert!(matches!(Value::Integer(3).flatten(), Value::Integer(3)));
}

#[test]
fn coercions() {
    let mut v = Value::Str("12".to_owned());
    v.make_int();
    assert!(matches!(v, Value::Integer(12)));
    let mut v = Value::Block(1, vec![]);
    v.make_float();
    assert!(matches!(v, Value::Float(b) if f64::from_bits(b).is_nan()));
    let mut v = Value::Str("x".to_owned());
    v.make_bool();
    assert!(matches!(v, Value::Bool(true)));
}

#[test]
fn tokenizer_respects_quotes() {
    assert_eq!(tokenize("  1 2\t+\n"), vec!["1", "2", "+"]);
    assert_eq!(tokenize("\"a b\" dup"), vec!["\"a b\"", "dup"]);
    assert_eq!(tokenize("x\"a  b\"y z"), vec!["x\"a  b\"y", "z"]);
    assert_eq!(tokenize("last"), vec!["last"]);
    assert!(tokenize(" \n ").is_empty());
}

#[test]
fn ordering_of_values() {
    assert_eq!(Value::Str("ab".to_owned()).partial_cmp(&Value::Str("b".to_owned())), Some(std::cmp::Ordering::Less));
    assert_eq!(Value::Bool(true).partial_cmp(&Value::Bool(false)), Some(std::cmp::Ordering::Greater));
    assert_eq!(Value::Integer(1).partial_cmp(&Value::Bool(false)), None);
}

#[test]
fn error_messages() {
    assert_eq!(Error::EmptyStack.message(), "Error, empty stack");
    assert_eq!(Error::NoBlockStarted.message(), "Error, cannot end a block when none has been started");
    assert_eq!(Error::InvalidGrabArg.message(), "Error, can only take number as grab argument");
}
