use stalch::{include_source, push_line, run_command, step, Command, Effect, Error, FloatTask, State, Value, Word};

fn run(state: &mut State, src: &str) -> Result<(), Error> {
    include_source(state, src);
    while let Some(r) = step(state) {
        match r? {
            Effect::Nothing => {}
            Effect::Float(FloatTask::Literal(text)) => match text.parse::<f64>() {
                Ok(f) => state.push(Value::Float(f.to_bits())),
                Err(_) => state.push(Value::parse_word(&text)),
            },
            other => panic!("unexpected effect {:?}", other),
        }
    }
    Ok(())
}

fn run_new(src: &str) -> (State, Result<(), Error>) {
    let mut state = State::new();
    let r = run(&mut state, src);
    (state, r)
}

fn int_at(state: &State, i: usize) -> i64 {
    match &state.stack()[i] {
        Value::Integer(n) => *n,
        other => panic!("not an integer: {:?}", other),
    }
}

fn str_at(state: &State, i: usize) -> String {
    match &state.stack()[i] {
        Value::Str(s) => s.clone(),
        other => panic!("not a string: {:?}", other),
    }
}

fn top(state: &State) -> &Value {
    state.stack().last().unwrap()
}

#[test]
fn block_multiplied_and_applied_twice() {
    let mut state = State::new();
    run(&mut state, "5 [ 1 + ]").unwrap();
    match top(&state) {
        Value::Block(1, cmds) => assert_eq!(cmds.len(), 2),
        other => panic!("{:?}", other),
    }
    run(&mut state, "2 *").unwrap();
    match top(&state) {
        Value::Block(2, cmds) => {
            assert!(matches!(&cmds[0], Command::Literal(s) if s == "1"));
            assert!(matches!(&cmds[1], Command::Word(Word::Add)));
        }
        other => panic!("{:?}", other),
    }
    run(&mut state, "()").unwrap();
    assert_eq!(state.stack().len(), 1);
    assert_eq!(int_at(&state, 0), 7);
}

#[test]
fn whole_program_in_one_line() {
    let (state, r) = run_new("5 [ 1 + ] 2 * ()");
    r.unwrap();
    assert_eq!(state.stack().len(), 1);
    assert_eq!(int_at(&state, 0), 7);
}

#[test]
fn quoted_literal_is_one_token() {
    let (state, r) = run_new("\"a b\" dup");
    r.unwrap();
    assert_eq!(state.stack().len(), 2);
    assert_eq!(str_at(&state, 0), "a b");
    assert_eq!(str_at(&state, 1), "a b");
}

#[test]
fn division_by_zero_gives_null() {
    let (state, r) = run_new("7 0 /");
    r.unwrap();
    assert!(matches!(top(&state), Value::Null));
    let (state, r) = run_new("7 0 %");
    r.unwrap();
    assert!(matches!(top(&state), Value::Null));
}

#[test]
fn integer_division_truncates() {
    let (state, r) = run_new("-7 2 / -7 2 % 7 -2 / 7 -2 %");
    r.unwrap();
    assert_eq!(int_at(&state, 0), -3);
    assert_eq!(int_at(&state, 1), -1);
    assert_eq!(int_at(&state, 2), -3);
    assert_eq!(int_at(&state, 3), 1);
}

#[test]
fn min_divided_by_minus_one_wraps() {
    let (state, r) = run_new("-9223372036854775808 -1 / -9223372036854775808 -1 %");
    r.unwrap();
    assert_eq!(int_at(&state, 0), i64::MIN);
    assert_eq!(int_at(&state, 1), 0);
}

#[test]
fn index_operations_out_of_bounds() {
    for src in [
        "1 2 2 grab",
        "1 2 5 dupgrab",
        "1 2 2 move",
        "[ 1 2 ] 3 split",
        "\"ab\" 3 split",
        "[ 1 2 ] 2 get",
        "\"ab\" 2 get",
        "[ 1 2 ] 2 dupget",
        "\"ab\" 2 dupget",
        "1 2 -1 grab",
    ] {
        let (_, r) = run_new(src);
        assert_eq!(r, Err(Error::OutOfBounds), "{}", src);
    }
}

#[test]
fn index_operand_kinds() {
    assert_eq!(run_new("1 t grab").1, Err(Error::InvalidGrabArg));
    assert_eq!(run_new("1 t dupgrab").1, Err(Error::InvalidGrabArg));
    assert_eq!(run_new("1 t split").1, Err(Error::InvalidSplitArg));
    assert_eq!(run_new("1 t get").1, Err(Error::InvalidGetArg));
    assert_eq!(run_new("1 t dupget").1, Err(Error::InvalidGetArg));
    assert_eq!(run_new("1 t move").1, Err(Error::InvalidMoveArg));
    assert_eq!(run_new("1 0 split").1, Err(Error::InvalidSplitArg));
    assert_eq!(run_new("1 0 get").1, Err(Error::InvalidGetArg));
}

#[test]
fn grab_and_dupgrab() {
    let (state, r) = run_new("10 20 30 2 grab");
    r.unwrap();
    assert_eq!(state.stack().len(), 3);
    assert_eq!(int_at(&state, 0), 20);
    assert_eq!(int_at(&state, 1), 30);
    assert_eq!(int_at(&state, 2), 10);
    let (state, r) = run_new("10 20 30 2 dupgrab");
    r.unwrap();
    assert_eq!(state.stack().len(), 4);
    assert_eq!(int_at(&state, 3), 10);
}

#[test]
fn move_puts_top_below() {
    let (state, r) = run_new("10 20 30 2 move");
    r.unwrap();
    assert_eq!(state.stack().len(), 3);
    assert_eq!(int_at(&state, 0), 30);
    assert_eq!(int_at(&state, 1), 10);
    assert_eq!(int_at(&state, 2), 20);
}

#[test]
fn split_and_get_strings() {
    let (state, r) = run_new("\"hello\" 2 split");
    r.unwrap();
    assert_eq!(str_at(&state, 0), "hel");
    assert_eq!(str_at(&state, 1), "lo");
    let (state, r) = run_new("\"hello\" 1 get");
    r.unwrap();
    assert_eq!(str_at(&state, 0), "helo");
    assert_eq!(str_at(&state, 1), "l");
    let (state, r) = run_new("\"hello\" 0 dupget");
    r.unwrap();
    assert_eq!(str_at(&state, 0), "hello");
    assert_eq!(str_at(&state, 1), "o");
}

#[test]
fn split_block_flattens_first() {
    let (state, r) = run_new("[ 1 2 ] 2 * 1 split");
    r.unwrap();
    match (&state.stack()[0], &state.stack()[1]) {
        (Value::Block(1, l), Value::Block(1, rt)) => {
            assert_eq!(l.len(), 3);
            assert_eq!(rt.len(), 1);
            assert!(matches!(&rt[0], Command::Literal(s) if s == "2"));
        }
        other => panic!("{:?}", other),
    }
}

#[test]
fn dupget_on_repeated_block() {
    let (state, r) = run_new("[ 1 2 ] 3 * 1 dupget");
    r.unwrap();
    match top(&state) {
        Value::Block(1, c) => {
            assert_eq!(c.len(), 1);
            assert!(matches!(&c[0], Command::Literal(s) if s == "1"));
        }
        other => panic!("{:?}", other),
    }
}

#[test]
fn nesting_returns_to_zero_when_balanced() {
    let mut state = State::new();
    run(&mut state, "[ 1 [ 2 ] [ [ 3 ] ]").unwrap();
    assert_eq!(state.block_nesting(), 1);
    run(&mut state, "]").unwrap();
    assert_eq!(state.block_nesting(), 0);
    assert_eq!(state.temp().len(), 0);
    match top(&state) {
        Value::Block(1, c) => assert_eq!(c.len(), 9),
        other => panic!("{:?}", other),
    }
    assert_eq!(run(&mut state, "]"), Err(Error::NoBlockStarted));
}

#[test]
fn close_without_open_fails() {
    assert_eq!(run_new("]").1, Err(Error::NoBlockStarted));
    assert_eq!(run_new("do 1 end end").1, Err(Error::NoBlockStarted));
}

#[test]
fn empty_stack_errors() {
    for src in ["+", "1 +", "dup", "drop", "swap", "1 swap", "!", "1 2 ?", "()", "assign", "wrte", "type", "len", "grab"] {
        assert_eq!(run_new(src).1, Err(Error::EmptyStack), "{}", src);
    }
}

#[test]
fn failed_operand_count_leaves_stack() {
    let (state, r) = run_new("1 +");
    assert_eq!(r, Err(Error::EmptyStack));
    assert_eq!(state.stack().len(), 1);
}

#[test]
fn equality_rules() {
    let (state, r) = run_new("1 1 == \"a\" \"a\" == nil nil == x x == t f != [ 1 ] [ 1 ] ==");
    r.unwrap();
    let got: Vec<bool> = state.stack().iter().map(|v| matches!(v, Value::Bool(true))).collect();
    assert_eq!(got, vec![true, true, true, false, true, true]);
}

#[test]
fn float_equality_is_reflexive() {
    let nan = Value::Float(f64::NAN.to_bits());
    assert!(nan.equals(&Value::Float(f64::NAN.to_bits())));
    let one = Value::Float(1.5f64.to_bits());
    assert!(one.equals(&Value::Float(1.5f64.to_bits())));
    assert!(Value::Float(0.0f64.to_bits()).equals(&Value::Float((-0.0f64).to_bits())));
}

#[test]
fn variables_resolve_on_pop() {
    let (state, r) = run_new("5 x assign x x 1 +");
    r.unwrap();
    assert_eq!(state.stack().len(), 2);
    assert!(matches!(&state.stack()[0], Value::Variable(s) if s == "x"));
    assert_eq!(int_at(&state, 1), 6);
}

#[test]
fn assign_needs_one_variable() {
    assert_eq!(run_new("1 2 assign").1, Err(Error::InvalidAssignArg));
    assert_eq!(run_new("a b assign").1, Err(Error::InvalidAssignArg));
    let (state, r) = run_new("x 7 assign x 0 +");
    r.unwrap();
    assert_eq!(int_at(&state, 0), 7);
    let (state, r) = run_new("5 x assign x 7 assign x 0 + 9 x assign x 0 +");
    r.unwrap();
    assert_eq!(int_at(&state, 0), 7);
    assert_eq!(int_at(&state, 1), 9);
}

#[test]
fn line_ending_stripped_from_input() {
    let mut state = State::new();
    push_line(&mut state, " a b \r\n");
    push_line(&mut state, "c\n\n");
    push_line(&mut state, "d");
    assert_eq!(str_at(&state, 0), " a b ");
    assert_eq!(str_at(&state, 1), "c\n");
    assert_eq!(str_at(&state, 2), "d");
}

#[test]
fn apply_rules() {
    assert_eq!(run_new("1 ()").1, Err(Error::InvalidApplyArg));
    let (state, r) = run_new("\"s\" ()");
    r.unwrap();
    assert_eq!(str_at(&state, 0), "s");
}

#[test]
fn if_picks_a_branch() {
    let (state, r) = run_new("t 1 2 ? f 1 2 ? \"\" 1 2 ?");
    r.unwrap();
    assert_eq!(int_at(&state, 0), 1);
    assert_eq!(int_at(&state, 1), 2);
    assert_eq!(int_at(&state, 2), 2);
}

#[test]
fn pack_then_apply_rebuilds_stack() {
    let mut state = State::new();
    run(&mut state, "1 \"two\" [ 3 [ 4 ] ] 2 * t nil v").unwrap();
    run(&mut state, "pack").unwrap();
    assert_eq!(state.stack().len(), 1);
    run(&mut state, "()").unwrap();
    let s = state.stack();
    assert_eq!(s.len(), 6);
    assert_eq!(int_at(&state, 0), 1);
    assert_eq!(str_at(&state, 1), "two");
    match &s[2] {
        Value::Block(1, c) => assert_eq!(c.len(), 8),
        other => panic!("{:?}", other),
    }
    assert!(matches!(&s[3], Value::Bool(true)));
    assert!(matches!(&s[4], Value::Null));
    assert!(matches!(&s[5], Value::Variable(n) if n == "v"));
}

#[test]
fn size_length_type() {
    let (state, r) = run_new("\"abc\" len [ 1 2 ] 3 * len size 4 type");
    r.unwrap();
    assert_eq!(int_at(&state, 1), 3);
    assert_eq!(int_at(&state, 3), 6);
    assert_eq!(int_at(&state, 4), 4);
    assert_eq!(str_at(&state, 5), "int");
}

#[test]
fn io_effects() {
    let mut state = State::new();
    include_source(&mut state, "1 2 + print < wrte");
    assert!(matches!(step(&mut state), Some(Ok(Effect::Nothing))));
    assert!(matches!(step(&mut state), Some(Ok(Effect::Nothing))));
    assert!(matches!(step(&mut state), Some(Ok(Effect::Nothing))));
    assert!(matches!(step(&mut state), Some(Ok(Effect::Print(Value::Integer(3))))));
    assert!(matches!(step(&mut state), Some(Ok(Effect::Read))));
    push_line(&mut state, "hello  \n");
    match step(&mut state) {
        Some(Ok(Effect::Write(Value::Str(s)))) => assert_eq!(s, "hello  "),
        other => panic!("{:?}", other),
    }
    assert!(step(&mut state).is_none());
}

#[test]
fn include_hands_out_path() {
    let mut state = State::new();
    include_source(&mut state, "\"lib.st\" include");
    step(&mut state);
    match step(&mut state) {
        Some(Ok(Effect::Include(p))) => assert_eq!(p, "lib.st"),
        other => panic!("{:?}", other),
    }
    assert_eq!(run_new("5 include").1, Err(Error::InvalidIncludeArg));
}

#[test]
fn error_drops_the_rest_of_the_run() {
    let mut state = State::new();
    assert_eq!(run(&mut state, "1 ] 2 3"), Err(Error::NoBlockStarted));
    assert_eq!(state.stack().len(), 1);
    assert!(step(&mut state).is_none());
}

#[test]
fn float_work_is_handed_out() {
    let mut state = State::new();
    assert!(matches!(run_command(&mut state, Command::from_str("1.5")), Ok(Effect::Float(FloatTask::Literal(ref s))) if s == "1.5"));
    state.push(Value::Float(1.5f64.to_bits()));
    state.push(Value::Integer(2));
    match run_command(&mut state, Command::Word(Word::Add)) {
        Ok(Effect::Float(FloatTask::Binary(Word::Add, Value::Float(a), Value::Integer(2)))) => assert_eq!(a, 1.5f64.to_bits()),
        other => panic!("{:?}", other),
    }
    assert_eq!(state.stack().len(), 0);
}

#[test]
fn words_classify_case_insensitively() {
    assert!(matches!(Command::from_str("DUP"), Command::Word(Word::Dup)));
    assert!(matches!(Command::from_str("Do"), Command::Word(Word::BeginBlock)));
    assert!(matches!(Command::from_str("END"), Command::Word(Word::EndBlock)));
    assert!(matches!(Command::from_str("NIL"), Command::Word(Word::NullVal)));
    assert!(matches!(Command::from_str("\u{a4}"), Command::Word(Word::NullVal)));
    assert!(matches!(Command::from_str("Exch"), Command::Word(Word::Swap)));
    assert!(matches!(Command::from_str("Hello"), Command::Literal(ref s) if s == "Hello"));
    assert!(matches!(Command::from_lowered("dup", "DuP"), Command::Word(Word::Dup)));
}

#[test]
fn not_and_or() {
    let (state, r) = run_new("t ! 5 ! 6 3 & 6 3 | t f && t f || 1 \"\" & [ ] 1 |");
    r.unwrap();
    assert!(matches!(&state.stack()[0], Value::Bool(false)));
    assert_eq!(int_at(&state, 1), -6);
    assert_eq!(int_at(&state, 2), 2);
    assert_eq!(int_at(&state, 3), 7);
    assert!(matches!(&state.stack()[4], Value::Bool(false)));
    assert!(matches!(&state.stack()[5], Value::Bool(true)));
    assert!(matches!(&state.stack()[6], Value::Bool(false)));
    assert!(matches!(&state.stack()[7], Value::Null));
}

#[test]
fn comparisons() {
    let (state, r) = run_new("1 2 lt 2 2 le \"b\" \"a\" gt t f ge 1 \"a\" lt");
    r.unwrap();
    let got: Vec<bool> = state.stack().iter().map(|v| matches!(v, Value::Bool(true))).collect();
    assert_eq!(got, vec![true, true, true, true, false]);
}

#[test]
fn casts_in_place() {
    let (state, r) = run_new("\"42\" toint t toint \"x\" toint t tobool \"\" tobool \"17\" num t num");
    r.unwrap();
    assert_eq!(int_at(&state, 0), 42);
    assert_eq!(int_at(&state, 1), 1);
    assert!(matches!(&state.stack()[2], Value::Null));
    assert!(matches!(&state.stack()[3], Value::Bool(true)));
    assert!(matches!(&state.stack()[4], Value::Bool(false)));
    assert_eq!(int_at(&state, 5), 17);
    assert_eq!(int_at(&state, 6), 1);
    let (state, r) = run_new("t tofloat nil tofloat \"x\" tofloat \"x\" num");
    r.unwrap();
    assert!(matches!(&state.stack()[0], Value::Float(b) if *b == 1.0f64.to_bits()));
    assert!(matches!(&state.stack()[1], Value::Float(b) if f64::from_bits(*b).is_nan()));
    assert!(matches!(&state.stack()[2], Value::Float(b) if f64::from_bits(*b).is_nan()));
    assert!(matches!(&state.stack()[3], Value::Null));
    let mut state = State::new();
    state.push(Value::Str("2.5".to_owned()));
    assert!(matches!(run_command(&mut state, Command::Word(Word::ToFloat)), Ok(Effect::Float(FloatTask::Unary(Word::ToFloat, Value::Str(_))))));
}

#[test]
fn last_mut_changes_top_in_place() {
    let mut state = State::new();
    assert_eq!(state.last_mut().err(), Some(Error::EmptyStack));
    state.push(Value::Integer(1));
    state.push(Value::Str("7".to_owned()));
    state.last_mut().unwrap().make_int();
    assert_eq!(state.stack().len(), 2);
    assert!(matches!(top(&state), Value::Integer(7)));
}

#[test]
fn shown_stack_resolves_variables() {
    let (state, r) = run_new("3 x assign x y");
    r.unwrap();
    let shown = state.shown_stack();
    assert!(matches!(&shown[0], Value::Integer(3)));
    assert!(matches!(&shown[1], Value::Variable(s) if s == "y"));
    assert!(matches!(&state.stack()[0], Value::Variable(s) if s == "x"));
}

#[test]
fn pow_of_integers() {
    assert!(matches!(Value::Integer(3).pow(Value::Integer(4)), Value::Integer(81)));
    assert!(matches!(Value::Integer(-2).pow(Value::Integer(63)), Value::Integer(i64::MIN)));
    assert!(matches!(Value::Integer(2).pow(Value::Integer(63)), Value::Null));
    assert!(matches!(Value::Integer(-1).pow(Value::Integer(1_000_000_001)), Value::Integer(-1)));
    assert!(matches!(Value::Integer(0).pow(Value::Integer(0)), Value::Integer(1)));
    assert!(matches!(Value::Integer(5).pow(Value::Integer(-1)), Value::Null));
}
