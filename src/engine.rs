//! The execution engine: one command against the state, with block capture,
//! and what the outside has to do for it.

use vstd::prelude::*;

use crate::cmd::{classify, lower_of, cmds_m, lemma_cmds_m, lemma_cmds_m_models, models, Command, CommandM, Word};
use crate::err::Error;
use crate::state::{resolve, values_m, State, StateM};
use crate::text::{chars_of, float_syntax, is_float_literal, parse_i64, parse_int, repeat_seq, string_of, strip_line_end, strip_line_end_chars};
use crate::token::{texts, tokenize, tokens_of};
use crate::value::{
    extend_cmds, repeat_cmds,
    add_needs_float, add_spec, cmp_spec, div_spec, eq_spec, flatten_spec, float_pair, logic_spec, mul_spec,
    is_numeric, not_spec, parse_spec, rem_spec, sub_spec, to_float_spec, to_int_spec, truthy, Value, ValueM,
};

verus! {

/// Work that needs the platform's floating point. The engine has taken the
/// operands off the stack; whoever performs the task pushes its result.
#[derive(Debug)]
pub enum FloatTask {
    /// A float literal: its value, as the platform parses it.
    Literal(String),
    /// `tofloat`, `toint` or `castnum` of the value that was on top.
    Unary(Word, Value),
    /// A binary operator on (lower, upper) operands.
    Binary(Word, Value, Value),
}

/// What the outside has to do after a command.
#[derive(Debug)]
pub enum Effect {
    /// Nothing: the command is done.
    Nothing,
    /// Read one line of input and hand it to `push_line`.
    Read,
    /// Write the value's text.
    Write(Value),
    /// Write the value's text and a line break.
    Print(Value),
    /// Open the source at this path and hand its text to `include_source`.
    Include(String),
    /// Perform the float task and push its result.
    Float(FloatTask),
}

pub enum TaskM {
    Literal(Seq<char>),
    Unary(Word, ValueM),
    Binary(Word, ValueM, ValueM),
}

pub enum EffectM {
    Nothing,
    Read,
    Write(ValueM),
    Print(ValueM),
    Include(Seq<char>),
    Float(TaskM),
}

impl FloatTask {
    pub open spec fn model(&self) -> TaskM {
        match self {
            FloatTask::Literal(s) => TaskM::Literal(s@),
            FloatTask::Unary(w, v) => TaskM::Unary(*w, v.model()),
            FloatTask::Binary(w, a, b) => TaskM::Binary(*w, a.model(), b.model()),
        }
    }
}

impl Effect {
    pub open spec fn model(&self) -> EffectM {
        match self {
            Effect::Nothing => EffectM::Nothing,
            Effect::Read => EffectM::Read,
            Effect::Write(v) => EffectM::Write(v.model()),
            Effect::Print(v) => EffectM::Print(v.model()),
            Effect::Include(p) => EffectM::Include(p@),
            Effect::Float(t) => EffectM::Float(t.model()),
        }
    }
}

pub open spec fn result_m(r: Result<Effect, Error>) -> Result<EffectM, Error> {
    match r {
        Ok(e) => Ok(e.model()),
        Err(e) => Err(e),
    }
}

// ---- building blocks of the step relation ----

pub open spec fn with_stack(s: StateM, st: Seq<ValueM>) -> StateM {
    StateM { stack: st, ..s }
}

pub open spec fn push_v(s: StateM, v: ValueM) -> StateM {
    with_stack(s, s.stack.push(v))
}

/// The state with the top `k` values taken off.
pub open spec fn drop_n(s: StateM, k: int) -> StateM {
    with_stack(s, s.stack.subrange(0, s.stack.len() - k))
}

/// The `k`-th value from the top, as it stands.
pub open spec fn top(s: StateM, k: int) -> ValueM {
    s.stack[s.stack.len() - 1 - k]
}

/// The `k`-th value from the top, as a resolving read gives it.
pub open spec fn rtop(s: StateM, k: int) -> ValueM {
    resolve(s.vars, top(s, k))
}

pub open spec fn done(s: StateM) -> (StateM, Result<EffectM, Error>) {
    (s, Ok(EffectM::Nothing))
}

pub open spec fn fail(s: StateM, e: Error) -> (StateM, Result<EffectM, Error>) {
    (s, Err(e))
}

/// An integer, or null where the number does not fit in `i64`.
pub open spec fn int_or_null(k: int) -> ValueM {
    if 0 <= k <= i64::MAX {
        ValueM::Integer(k as i64)
    } else {
        ValueM::Null
    }
}

/// The name of a value's kind.
pub open spec fn kind_name(v: ValueM) -> Seq<char> {
    match v {
        ValueM::Float(_) => "float"@,
        ValueM::Integer(_) => "int"@,
        ValueM::Bool(_) => "bool"@,
        ValueM::Str(_) => "str"@,
        ValueM::Variable(_) => "var"@,
        ValueM::Block(_, _) => "block"@,
        ValueM::Null => "null"@,
    }
}

/// The commands that re-create one value: a block's contents, its
/// multiplicity written out, between open and close markers; any other value
/// as it stands.
pub open spec fn pack_one(v: ValueM) -> Seq<CommandM> {
    match v {
        ValueM::Block(n, c) => seq![CommandM::Word(Word::BeginBlock)] + repeat_seq(c, n as nat) + seq![
            CommandM::Word(Word::EndBlock),
        ],
        _ => seq![CommandM::Quoted(v)],
    }
}

/// The commands that re-create a whole stack, bottom first.
pub open spec fn pack_cmds(st: Seq<ValueM>) -> Seq<CommandM>
    decreases st.len(),
{
    if st.len() == 0 {
        Seq::empty()
    } else {
        pack_cmds(st.drop_last()) + pack_one(st.last())
    }
}

// ---- operators ----

pub open spec fn is_binary(w: Word) -> bool {
    match w {
        Word::And | Word::Or | Word::Eq | Word::Neq | Word::GreaterThan | Word::GreaterEquals
        | Word::LessThan | Word::LessEquals | Word::Add | Word::Sub | Word::Mul | Word::Div
        | Word::Rem => true,
        _ => false,
    }
}

/// Whether a binary operator on (lower `a`, upper `b`) needs the platform's
/// floating point.
pub open spec fn binary_needs_float(w: Word, a: ValueM, b: ValueM) -> bool {
    match w {
        Word::Add => add_needs_float(a, b),
        Word::Eq | Word::Neq => float_pair(a, b) && !(a is Float && b is Float),
        Word::And | Word::Or => false,
        _ => float_pair(a, b),
    }
}

/// A binary operator on (lower `a`, upper `b`).
pub open spec fn binary_spec(w: Word, a: ValueM, b: ValueM) -> ValueM {
    match w {
        Word::And => logic_spec(a, b, true),
        Word::Or => logic_spec(a, b, false),
        Word::Eq => ValueM::Bool(eq_spec(a, b)),
        Word::Neq => ValueM::Bool(!eq_spec(a, b)),
        Word::GreaterThan => ValueM::Bool(cmp_spec(a, b) == Some(core::cmp::Ordering::Greater)),
        Word::GreaterEquals => ValueM::Bool(
            cmp_spec(a, b) == Some(core::cmp::Ordering::Greater) || cmp_spec(a, b) == Some(
                core::cmp::Ordering::Equal,
            ),
        ),
        Word::LessThan => ValueM::Bool(cmp_spec(a, b) == Some(core::cmp::Ordering::Less)),
        Word::LessEquals => ValueM::Bool(
            cmp_spec(a, b) == Some(core::cmp::Ordering::Less) || cmp_spec(a, b) == Some(
                core::cmp::Ordering::Equal,
            ),
        ),
        Word::Add => add_spec(a, b),
        Word::Sub => sub_spec(a, b),
        Word::Mul => mul_spec(a, b),
        Word::Div => div_spec(a, b),
        _ => rem_spec(a, b),
    }
}

pub open spec fn is_cast(w: Word) -> bool {
    w == Word::CastNum || w == Word::ToFloat || w == Word::ToInt || w == Word::ToBool
}

/// `castnum` where no float parsing is needed: numbers stay, a bool becomes
/// 0 or 1, a string holding an integer literal becomes that integer, the
/// rest (strings that hold no number among them) null.
pub open spec fn castnum_spec(v: ValueM) -> ValueM {
    match v {
        ValueM::Integer(_) => v,
        ValueM::Float(_) => v,
        ValueM::Bool(b) => ValueM::Integer(if b { 1 } else { 0 }),
        ValueM::Str(s) => match parse_int(s) {
            Some(n) => ValueM::Integer(n),
            None => ValueM::Null,
        },
        _ => ValueM::Null,
    }
}

/// Whether a coercion of `v` needs the platform's floating point.
pub open spec fn cast_needs_float(w: Word, v: ValueM) -> bool {
    match w {
        Word::ToFloat => match v {
            ValueM::Integer(_) => true,
            ValueM::Str(s) => float_syntax(s),
            _ => false,
        },
        Word::ToInt => v is Float,
        Word::CastNum => match v {
            ValueM::Str(s) => parse_int(s) is None && float_syntax(s),
            _ => false,
        },
        _ => false,
    }
}

pub open spec fn cast_spec(w: Word, v: ValueM) -> ValueM {
    match w {
        Word::ToFloat => to_float_spec(v),
        Word::ToInt => to_int_spec(v),
        Word::ToBool => ValueM::Bool(truthy(v)),
        _ => castnum_spec(v),
    }
}

// ---- commands that take an index ----

pub open spec fn is_indexed(w: Word) -> bool {
    match w {
        Word::Split | Word::Get | Word::DupGet | Word::Move | Word::Grab | Word::DupGrab => true,
        _ => false,
    }
}

/// The error for an index operand that is not an integer.
pub open spec fn index_error(w: Word) -> Error {
    match w {
        Word::Split => Error::InvalidSplitArg,
        Word::Get | Word::DupGet => Error::InvalidGetArg,
        Word::Move => Error::InvalidMoveArg,
        _ => Error::InvalidGrabArg,
    }
}

/// `split` by `n`, the index already taken: the target (a block written out,
/// or a string) is cut `n` items before its end; left then right pushed.
pub open spec fn split_step(s: StateM, n: i64) -> (StateM, Result<EffectM, Error>) {
    if s.stack.len() == 0 {
        fail(s, Error::EmptyStack)
    } else {
        let t = flatten_spec(rtop(s, 0));
        let s2 = drop_n(s, 1);
        match t {
            ValueM::Block(_, c) => if n < 0 || n > c.len() {
                fail(s2, Error::OutOfBounds)
            } else {
                let i = c.len() - n;
                done(push_v(push_v(s2, ValueM::Block(1, c.subrange(0, i))), ValueM::Block(1, c.subrange(i, c.len() as int))))
            },
            ValueM::Str(x) => if n < 0 || n > x.len() {
                fail(s2, Error::OutOfBounds)
            } else {
                let i = x.len() - n;
                done(push_v(push_v(s2, ValueM::Str(x.subrange(0, i))), ValueM::Str(x.subrange(i, x.len() as int))))
            },
            _ => fail(s2, Error::InvalidSplitArg),
        }
    }
}

/// `get` by `n`, the index already taken: the item `n` places before the
/// end of the target is taken out; the rest, then the item alone, pushed.
pub open spec fn get_step(s: StateM, n: i64) -> (StateM, Result<EffectM, Error>) {
    if s.stack.len() == 0 {
        fail(s, Error::EmptyStack)
    } else {
        let t = flatten_spec(rtop(s, 0));
        let s2 = drop_n(s, 1);
        match t {
            ValueM::Block(_, c) => if n < 0 || n >= c.len() {
                fail(s2, Error::OutOfBounds)
            } else {
                let i = c.len() - n - 1;
                done(push_v(push_v(s2, ValueM::Block(1, c.remove(i))), ValueM::Block(1, seq![c[i]])))
            },
            ValueM::Str(x) => if n < 0 || n >= x.len() {
                fail(s2, Error::OutOfBounds)
            } else {
                let i = x.len() - n - 1;
                done(push_v(push_v(s2, ValueM::Str(x.remove(i))), ValueM::Str(seq![x[i]])))
            },
            _ => fail(s2, Error::InvalidGetArg),
        }
    }
}

/// `dupget` by `n`, the index already taken: a copy of the item `n` places
/// before the end of the target (left in place) is pushed.
pub open spec fn dupget_step(s: StateM, n: i64) -> (StateM, Result<EffectM, Error>) {
    if s.stack.len() == 0 {
        fail(s, Error::EmptyStack)
    } else {
        match rtop(s, 0) {
            ValueM::Block(m, b) => if n < 0 || n >= m * b.len() {
                fail(s, Error::OutOfBounds)
            } else {
                let i = m * b.len() - n - 1;
                done(push_v(s, ValueM::Block(1, seq![b[i % (b.len() as int)]])))
            },
            ValueM::Str(x) => if n < 0 || n >= x.len() {
                fail(s, Error::OutOfBounds)
            } else {
                done(push_v(s, ValueM::Str(seq![x[x.len() - 1 - n]])))
            },
            _ => fail(s, Error::InvalidGetArg),
        }
    }
}

/// `move` by `n`, the index already taken: the top value is moved below the
/// `n`-th value from the top (0 leaves it where it is).
pub open spec fn move_step(s: StateM, n: i64) -> (StateM, Result<EffectM, Error>) {
    if s.stack.len() == 0 {
        fail(s, Error::EmptyStack)
    } else if n < 0 || n >= s.stack.len() {
        fail(s, Error::OutOfBounds)
    } else {
        done(with_stack(s, s.stack.insert(s.stack.len() - n - 1, rtop(s, 0)).drop_last()))
    }
}

/// `grab` by `n`, the index already taken: the `n`-th value from the top is
/// taken out and pushed.
pub open spec fn grab_step(s: StateM, n: i64) -> (StateM, Result<EffectM, Error>) {
    if n < 0 || n >= s.stack.len() {
        fail(s, Error::OutOfBounds)
    } else {
        let i = s.stack.len() - n - 1;
        done(push_v(with_stack(s, s.stack.remove(i)), s.stack[i]))
    }
}

/// `dupgrab` by `n`, the index already taken: a copy of the `n`-th value from
/// the top is pushed.
pub open spec fn dupgrab_step(s: StateM, n: i64) -> (StateM, Result<EffectM, Error>) {
    if n < 0 || n >= s.stack.len() {
        fail(s, Error::OutOfBounds)
    } else {
        done(push_v(s, s.stack[s.stack.len() - n - 1]))
    }
}

pub open spec fn indexed_step(s: StateM, w: Word) -> (StateM, Result<EffectM, Error>) {
    if s.stack.len() == 0 {
        fail(s, Error::EmptyStack)
    } else {
        let s1 = drop_n(s, 1);
        match rtop(s, 0) {
            ValueM::Integer(n) => match w {
                Word::Split => split_step(s1, n),
                Word::Get => get_step(s1, n),
                Word::DupGet => dupget_step(s1, n),
                Word::Move => move_step(s1, n),
                Word::Grab => grab_step(s1, n),
                _ => dupgrab_step(s1, n),
            },
            _ => fail(s1, index_error(w)),
        }
    }
}

// ---- the rest of the keywords ----

/// `assign`: of the top two values, both read as they stand (in either
/// order), exactly one must be a variable; it is bound to the other.
pub open spec fn assign_step(s: StateM) -> (StateM, Result<EffectM, Error>) {
    if s.stack.len() < 2 {
        fail(s, Error::EmptyStack)
    } else {
        let first = top(s, 0);
        let second = top(s, 1);
        let s2 = drop_n(s, 2);
        match (first, second) {
            (ValueM::Variable(_), ValueM::Variable(_)) => fail(s2, Error::InvalidAssignArg),
            (ValueM::Variable(h), v) => done(StateM { vars: s2.vars.insert(h, v), ..s2 }),
            (v, ValueM::Variable(h)) => done(StateM { vars: s2.vars.insert(h, v), ..s2 }),
            _ => fail(s2, Error::InvalidAssignArg),
        }
    }
}

/// `apply`: a block's commands, its multiplicity times over, run next; a
/// string is pushed back; anything else fails.
pub open spec fn apply_step(s: StateM) -> (StateM, Result<EffectM, Error>) {
    if s.stack.len() == 0 {
        fail(s, Error::EmptyStack)
    } else {
        let v = rtop(s, 0);
        let s1 = drop_n(s, 1);
        match v {
            ValueM::Block(n, c) => done(StateM { pending: repeat_seq(c, n as nat) + s1.pending, ..s1 }),
            ValueM::Str(_) => done(push_v(s1, v)),
            _ => fail(s1, Error::InvalidApplyArg),
        }
    }
}

/// A keyword at depth 0 (block markers aside). Operands are read with
/// resolution of bound variables, except by `assign`, the coercions, `pack`, `grab` and `dupgrab`. A binary operator takes its
/// operands as (lower, upper), so `a b -` is `a - b`; `if` takes the
/// condition lowest, then the value for true, then the value for false on
/// top. Commands that find too few operands fail before taking any (an
/// indexed command takes its index first).
pub open spec fn word_step(s: StateM, w: Word) -> (StateM, Result<EffectM, Error>) {
    let len = s.stack.len();
    if is_binary(w) {
        if len < 2 {
            fail(s, Error::EmptyStack)
        } else {
            let a = rtop(s, 1);
            let b = rtop(s, 0);
            let s2 = drop_n(s, 2);
            if binary_needs_float(w, a, b) {
                (s2, Ok(EffectM::Float(TaskM::Binary(w, a, b))))
            } else {
                done(push_v(s2, binary_spec(w, a, b)))
            }
        }
    } else if is_cast(w) {
        if len == 0 {
            fail(s, Error::EmptyStack)
        } else {
            let v = top(s, 0);
            let s1 = drop_n(s, 1);
            if cast_needs_float(w, v) {
                (s1, Ok(EffectM::Float(TaskM::Unary(w, v))))
            } else {
                done(push_v(s1, cast_spec(w, v)))
            }
        }
    } else if is_indexed(w) {
        indexed_step(s, w)
    } else {
        match w {
            Word::EmptyBlock => done(push_v(s, ValueM::Block(1, Seq::empty()))),
            Word::True => done(push_v(s, ValueM::Bool(true))),
            Word::False => done(push_v(s, ValueM::Bool(false))),
            Word::NullVal => done(push_v(s, ValueM::Null)),
            Word::Size => done(push_v(s, int_or_null(len as int))),
            Word::Read => (s, Ok(EffectM::Read)),
            Word::Pack => done(with_stack(s, seq![ValueM::Block(1, pack_cmds(s.stack))])),
            Word::Define => assign_step(s),
            Word::ApplyFunction => apply_step(s),
            _ => if len == 0 {
                fail(s, Error::EmptyStack)
            } else {
                let v = rtop(s, 0);
                let s1 = drop_n(s, 1);
                match w {
                    Word::Length => done(
                        push_v(
                            s,
                            match v {
                                ValueM::Block(m, c) => int_or_null(m * c.len()),
                                ValueM::Str(x) => int_or_null(x.len() as int),
                                _ => ValueM::Null,
                            },
                        ),
                    ),
                    Word::Dup => done(push_v(s, v)),
                    Word::Swap => if len < 2 {
                        fail(s, Error::EmptyStack)
                    } else {
                        done(push_v(push_v(drop_n(s, 2), v), rtop(s, 1)))
                    },
                    Word::Drop => done(s1),
                    Word::Not => done(push_v(s1, not_spec(v))),
                    Word::If => if len < 3 {
                        fail(s, Error::EmptyStack)
                    } else {
                        done(push_v(drop_n(s, 3), if truthy(rtop(s, 2)) { rtop(s, 1) } else { v }))
                    },
                    Word::Type => done(push_v(s1, ValueM::Str(kind_name(v)))),
                    Word::Write => (s1, Ok(EffectM::Write(v))),
                    Word::Print => (s1, Ok(EffectM::Print(v))),
                    _ => match v {
                        ValueM::Str(p) => (s1, Ok(EffectM::Include(p))),
                        _ => fail(s1, Error::InvalidIncludeArg),
                    },
                }
            },
        }
    }
}

/// One command at depth 0, block markers aside.
pub open spec fn exec_step(s: StateM, c: CommandM) -> (StateM, Result<EffectM, Error>) {
    match c {
        CommandM::Literal(t) => match parse_spec(t) {
            Some(v) => done(push_v(s, v)),
            None => (s, Ok(EffectM::Float(TaskM::Literal(t)))),
        },
        CommandM::Quoted(v) => done(push_v(s, v)),
        CommandM::Word(w) => word_step(s, w),
    }
}

/// One command: block markers drive the recording of blocks; while a block
/// is being recorded every other command is recorded; otherwise the command
/// runs.
pub open spec fn step_spec(s: StateM, c: CommandM) -> (StateM, Result<EffectM, Error>) {
    if c == CommandM::Word(Word::EndBlock) {
        if s.nesting == 0 {
            fail(s, Error::NoBlockStarted)
        } else if s.nesting == 1 {
            done(StateM { stack: s.stack.push(ValueM::Block(1, s.temp)), nesting: 0, temp: Seq::empty(), ..s })
        } else {
            done(StateM { nesting: (s.nesting - 1) as u64, temp: s.temp.push(c), ..s })
        }
    } else if c == CommandM::Word(Word::BeginBlock) {
        if s.nesting == u64::MAX {
            fail(s, Error::OutOfBounds)
        } else {
            done(StateM {
                nesting: (s.nesting + 1) as u64,
                temp: if s.nesting >= 1 { s.temp.push(c) } else { s.temp },
                ..s
            })
        }
    } else if s.nesting > 0 {
        done(StateM { temp: s.temp.push(c), ..s })
    } else {
        exec_step(s, c)
    }
}

// ---- running ----

fn binary_word(w: Word) -> (r: bool)
    ensures
        r == is_binary(w),
{
    matches!(
        w,
        Word::And | Word::Or | Word::Eq | Word::Neq | Word::GreaterThan | Word::GreaterEquals
            | Word::LessThan | Word::LessEquals | Word::Add | Word::Sub | Word::Mul | Word::Div
            | Word::Rem
    )
}

fn cast_word(w: Word) -> (r: bool)
    ensures
        r == is_cast(w),
{
    matches!(w, Word::CastNum | Word::ToFloat | Word::ToInt | Word::ToBool)
}

fn indexed_word(w: Word) -> (r: bool)
    ensures
        r == is_indexed(w),
{
    matches!(w, Word::Split | Word::Get | Word::DupGet | Word::Move | Word::Grab | Word::DupGrab)
}

fn is_float(v: &Value) -> (r: bool)
    ensures
        r == v.model() is Float,
{
    matches!(v, Value::Float(_))
}

fn is_numeric_value(v: &Value) -> (r: bool)
    ensures
        r == is_numeric(v.model()),
{
    matches!(v, Value::Float(_) | Value::Integer(_))
}

fn float_pair_values(a: &Value, b: &Value) -> (r: bool)
    ensures
        r == float_pair(a.model(), b.model()),
{
    is_numeric_value(a) && is_numeric_value(b) && (is_float(a) || is_float(b))
}

fn binary_float(w: Word, a: &Value, b: &Value) -> (r: bool)
    ensures
        r == binary_needs_float(w, a.model(), b.model()),
{
    match w {
        Word::Add => {
            if matches!(a, Value::Null) {
                false
            } else if matches!(a, Value::Str(_)) {
                is_float(b)
            } else if matches!(b, Value::Null) {
                false
            } else if matches!(b, Value::Str(_)) {
                is_float(a)
            } else {
                float_pair_values(a, b)
            }
        },
        Word::Eq | Word::Neq => float_pair_values(a, b) && !(is_float(a) && is_float(b)),
        Word::And | Word::Or => false,
        _ => float_pair_values(a, b),
    }
}

fn ordered(a: &Value, b: &Value, want_less: bool, or_equal: bool) -> (r: bool)
    requires
        !float_pair(a.model(), b.model()),
    ensures
        r == ((cmp_spec(a.model(), b.model()) == Some(
            if want_less {
                core::cmp::Ordering::Less
            } else {
                core::cmp::Ordering::Greater
            },
        )) || (or_equal && cmp_spec(a.model(), b.model()) == Some(core::cmp::Ordering::Equal))),
{
    match a.partial_cmp(b) {
        Some(core::cmp::Ordering::Less) => want_less,
        Some(core::cmp::Ordering::Greater) => !want_less,
        Some(core::cmp::Ordering::Equal) => or_equal,
        None => false,
    }
}

/// A binary operator on (lower `a`, upper `b`), where it needs no float
/// arithmetic.
pub fn binary(w: Word, a: Value, b: Value) -> (r: Value)
    requires
        is_binary(w),
        !binary_needs_float(w, a.model(), b.model()),
    ensures
        r.model() == binary_spec(w, a.model(), b.model()),
{
    match w {
        Word::And => a.bitand(b),
        Word::Or => a.bitor(b),
        Word::Eq => Value::Bool(a.equals(&b)),
        Word::Neq => Value::Bool(!a.equals(&b)),
        Word::GreaterThan => Value::Bool(ordered(&a, &b, false, false)),
        Word::GreaterEquals => Value::Bool(ordered(&a, &b, false, true)),
        Word::LessThan => Value::Bool(ordered(&a, &b, true, false)),
        Word::LessEquals => Value::Bool(ordered(&a, &b, true, true)),
        Word::Add => a.add(b),
        Word::Sub => a.sub(b),
        Word::Mul => a.mul(b),
        Word::Div => a.div(b),
        _ => a.rem(b),
    }
}

fn cast_float(w: Word, v: &Value) -> (r: bool)
    ensures
        r == cast_needs_float(w, v.model()),
{
    match w {
        Word::ToFloat => match v {
            Value::Integer(_) => true,
            Value::Str(s) => is_float_literal(&chars_of(s.as_str())),
            _ => false,
        },
        Word::ToInt => is_float(v),
        Word::CastNum => match v {
            Value::Str(s) => {
                let cs = chars_of(s.as_str());
                parse_i64(&cs).is_none() && is_float_literal(&cs)
            },
            _ => false,
        },
        _ => false,
    }
}

/// A coercion where it needs no float arithmetic.
pub fn cast(w: Word, v: Value) -> (r: Value)
    requires
        is_cast(w),
        !cast_needs_float(w, v.model()),
    ensures
        r.model() == cast_spec(w, v.model()),
{
    let mut v = v;
    match w {
        Word::ToFloat => {
            v.make_float();
            v
        },
        Word::ToInt => {
            v.make_int();
            v
        },
        Word::ToBool => {
            v.make_bool();
            v
        },
        _ => match v {
            Value::Integer(_) => v,
            Value::Float(_) => v,
            Value::Bool(b) => Value::Integer(if b { 1 } else { 0 }),
            Value::Str(s) => match parse_i64(&chars_of(s.as_str())) {
                Some(n) => Value::Integer(n),
                None => Value::Null,
            },
            _ => Value::Null,
        },
    }
}

proof fn lemma_drop_two(s: Seq<ValueM>)
    requires
        s.len() >= 2,
    ensures
        s.drop_last().drop_last() == s.subrange(0, s.len() - 2),
        s.drop_last().last() == s[s.len() - 2],
{
    assert(s.drop_last().drop_last() =~= s.subrange(0, s.len() - 2));
}

proof fn lemma_drop_three(s: Seq<ValueM>)
    requires
        s.len() >= 3,
    ensures
        s.drop_last().drop_last().drop_last() == s.subrange(0, s.len() - 3),
        s.drop_last().drop_last().last() == s[s.len() - 3],
{
    assert(s.drop_last().drop_last().drop_last() =~= s.subrange(0, s.len() - 3));
}

fn binary_cmd(state: &mut State, w: Word) -> (r: Result<Effect, Error>)
    requires
        old(state).wf(),
        is_binary(w),
    ensures
        final(state).wf(),
        (final(state).model(), result_m(r)) == word_step(old(state).model(), w),
{
    if state.stack().len() < 2 {
        return Err(Error::EmptyStack);
    }
    proof {
        lemma_drop_two(state.model().stack);
    }
    let b = match state.pop() {
        Ok(v) => v,
        Err(e) => return Err(e),
    };
    let a = match state.pop() {
        Ok(v) => v,
        Err(e) => return Err(e),
    };
    if binary_float(w, &a, &b) {
        return Ok(Effect::Float(FloatTask::Binary(w, a, b)));
    }
    let v = binary(w, a, b);
    state.push(v);
    Ok(Effect::Nothing)
}

fn cast_cmd(state: &mut State, w: Word) -> (r: Result<Effect, Error>)
    requires
        old(state).wf(),
        is_cast(w),
    ensures
        final(state).wf(),
        (final(state).model(), result_m(r)) == word_step(old(state).model(), w),
{
    let v = match state.pop_pure() {
        Ok(v) => v,
        Err(e) => return Err(e),
    };
    if cast_float(w, &v) {
        return Ok(Effect::Float(FloatTask::Unary(w, v)));
    }
    let v = cast(w, v);
    state.push(v);
    Ok(Effect::Nothing)
}

fn block_of(c: Vec<Command>) -> (r: Value)
    ensures
        r.model() == ValueM::Block(1, models(c@)),
{
    proof {
        lemma_cmds_m_models(&c);
    }
    Value::Block(1, c)
}

fn split_cmd(state: &mut State, n: i64) -> (r: Result<Effect, Error>)
    requires
        old(state).wf(),
    ensures
        final(state).wf(),
        (final(state).model(), result_m(r)) == split_step(old(state).model(), n),
{
    let t = match state.pop() {
        Ok(v) => v.flatten(),
        Err(e) => return Err(e),
    };
    match t {
        Value::Block(_, c) => {
            proof {
                lemma_cmds_m_models(&c);
            }
            if n < 0 || (n as u64) > (c.len() as u64) {
                return Err(Error::OutOfBounds);
            }
            let i = c.len() - (n as usize);
            let mut left = c;
            let right = left.split_off(i);
            proof {
                assert(models(left@) =~= models(c@).subrange(0, i as int));
                assert(models(right@) =~= models(c@).subrange(i as int, c@.len() as int));
            }
            state.push(block_of(left));
            state.push(block_of(right));
            Ok(Effect::Nothing)
        },
        Value::Str(x) => {
            let cs = chars_of(x.as_str());
            if n < 0 || (n as u64) > (cs.len() as u64) {
                return Err(Error::OutOfBounds);
            }
            let i = cs.len() - (n as usize);
            let mut left = cs;
            let right = left.split_off(i);
            state.push(Value::Str(string_of(&left)));
            state.push(Value::Str(string_of(&right)));
            Ok(Effect::Nothing)
        },
        _ => Err(Error::InvalidSplitArg),
    }
}

fn get_cmd(state: &mut State, n: i64) -> (r: Result<Effect, Error>)
    requires
        old(state).wf(),
    ensures
        final(state).wf(),
        (final(state).model(), result_m(r)) == get_step(old(state).model(), n),
{
    let t = match state.pop() {
        Ok(v) => v.flatten(),
        Err(e) => return Err(e),
    };
    match t {
        Value::Block(_, c) => {
            proof {
                lemma_cmds_m_models(&c);
            }
            if n < 0 || (n as u64) >= (c.len() as u64) {
                return Err(Error::OutOfBounds);
            }
            let i = c.len() - (n as usize) - 1;
            let mut rest = c;
            let item = rest.remove(i);
            let one = vec![item];
            proof {
                assert(models(rest@) =~= models(c@).remove(i as int));
                assert(models(one@) =~= seq![models(c@)[i as int]]);
            }
            state.push(block_of(rest));
            state.push(block_of(one));
            Ok(Effect::Nothing)
        },
        Value::Str(x) => {
            let cs = chars_of(x.as_str());
            if n < 0 || (n as u64) >= (cs.len() as u64) {
                return Err(Error::OutOfBounds);
            }
            let i = cs.len() - (n as usize) - 1;
            let mut rest = cs;
            let item = rest.remove(i);
            let one = vec![item];
            assert(one@ =~= seq![cs@[i as int]]);
            state.push(Value::Str(string_of(&rest)));
            state.push(Value::Str(string_of(&one)));
            Ok(Effect::Nothing)
        },
        _ => Err(Error::InvalidGetArg),
    }
}

fn dupget_cmd(state: &mut State, n: i64) -> (r: Result<Effect, Error>)
    requires
        old(state).wf(),
    ensures
        final(state).wf(),
        (final(state).model(), result_m(r)) == dupget_step(old(state).model(), n),
{
    let v = match state.peek() {
        Ok(t) => match t {
            Value::Block(m, b) => {
                proof {
                    lemma_cmds_m_models(b);
                }
                let mm: u128 = *m as u128;
                let bl: u128 = b.len() as u128;
                assert(mm * bl <= 0xffff * 0xffff_ffff_ffff_ffff) by (nonlinear_arith)
                    requires
                        mm <= 0xffff,
                        bl <= 0xffff_ffff_ffff_ffff,
                ;
                let len: u128 = mm * bl;
                if n < 0 || (n as u128) >= len {
                    return Err(Error::OutOfBounds);
                }
                let i: u128 = len - (n as u128) - 1;
                let pos = (i % (b.len() as u128)) as usize;
                let one = vec![b[pos].duplicate()];
                proof {
                    assert(models(one@) =~= seq![models(b@)[pos as int]]);
                }
                block_of(one)
            },
            Value::Str(x) => {
                let cs = chars_of(x.as_str());
                if n < 0 || (n as u64) >= (cs.len() as u64) {
                    return Err(Error::OutOfBounds);
                }
                let k = cs.len() - 1 - (n as usize);
                let one = vec![cs[k]];
                assert(one@ =~= seq![cs@[k as int]]);
                Value::Str(string_of(&one))
            },
            _ => return Err(Error::InvalidGetArg),
        },
        Err(e) => return Err(e),
    };
    state.push(v);
    Ok(Effect::Nothing)
}

fn move_cmd(state: &mut State, n: i64) -> (r: Result<Effect, Error>)
    requires
        old(state).wf(),
    ensures
        final(state).wf(),
        (final(state).model(), result_m(r)) == move_step(old(state).model(), n),
{
    let elem = match state.peek() {
        Ok(t) => t.duplicate(),
        Err(e) => return Err(e),
    };
    if n < 0 || (n as u64) >= (state.stack().len() as u64) {
        return Err(Error::OutOfBounds);
    }
    match state.insert(n as usize, elem) {
        Ok(()) => {},
        Err(e) => return Err(e),
    }
    match state.pop() {
        Ok(_) => Ok(Effect::Nothing),
        Err(e) => Err(e),
    }
}

fn grab_cmd(state: &mut State, n: i64) -> (r: Result<Effect, Error>)
    requires
        old(state).wf(),
    ensures
        final(state).wf(),
        (final(state).model(), result_m(r)) == grab_step(old(state).model(), n),
{
    if n < 0 || (n as u64) >= (state.stack().len() as u64) {
        return Err(Error::OutOfBounds);
    }
    let v = match state.take_nth(n as usize) {
        Ok(v) => v,
        Err(e) => return Err(e),
    };
    state.push(v);
    Ok(Effect::Nothing)
}

fn dupgrab_cmd(state: &mut State, n: i64) -> (r: Result<Effect, Error>)
    requires
        old(state).wf(),
    ensures
        final(state).wf(),
        (final(state).model(), result_m(r)) == dupgrab_step(old(state).model(), n),
{
    if n < 0 || (n as u64) >= (state.stack().len() as u64) {
        return Err(Error::OutOfBounds);
    }
    let v = match state.nth(n as usize) {
        Ok(v) => v.duplicate(),
        Err(e) => return Err(e),
    };
    state.push(v);
    Ok(Effect::Nothing)
}

fn indexed_cmd(state: &mut State, w: Word) -> (r: Result<Effect, Error>)
    requires
        old(state).wf(),
        is_indexed(w),
    ensures
        final(state).wf(),
        (final(state).model(), result_m(r)) == word_step(old(state).model(), w),
{
    let iv = match state.pop() {
        Ok(v) => v,
        Err(e) => return Err(e),
    };
    let n = match iv {
        Value::Integer(n) => n,
        _ => {
            return Err(
                match w {
                    Word::Split => Error::InvalidSplitArg,
                    Word::Get | Word::DupGet => Error::InvalidGetArg,
                    Word::Move => Error::InvalidMoveArg,
                    _ => Error::InvalidGrabArg,
                },
            )
        },
    };
    match w {
        Word::Split => split_cmd(state, n),
        Word::Get => get_cmd(state, n),
        Word::DupGet => dupget_cmd(state, n),
        Word::Move => move_cmd(state, n),
        Word::Grab => grab_cmd(state, n),
        _ => dupgrab_cmd(state, n),
    }
}

fn kind_str(v: &Value) -> (r: String)
    ensures
        r@ == kind_name(v.model()),
{
    match v {
        Value::Float(_) => "float".to_owned(),
        Value::Integer(_) => "int".to_owned(),
        Value::Bool(_) => "bool".to_owned(),
        Value::Str(_) => "str".to_owned(),
        Value::Variable(_) => "var".to_owned(),
        Value::Block(_, _) => "block".to_owned(),
        Value::Null => "null".to_owned(),
    }
}

fn count_or_null(k: u128) -> (r: Value)
    ensures
        r.model() == int_or_null(k as int),
{
    if k <= 0x7fff_ffff_ffff_ffffu128 {
        Value::Integer(k as i64)
    } else {
        Value::Null
    }
}

fn length_of(v: &Value) -> (r: Value)
    ensures
        r.model() == match v.model() {
            ValueM::Block(m, c) => int_or_null(m * c.len()),
            ValueM::Str(x) => int_or_null(x.len() as int),
            _ => ValueM::Null,
        },
{
    match v {
        Value::Block(m, c) => {
            proof {
                lemma_cmds_m(c);
            }
            let mm: u128 = *m as u128;
            let cl: u128 = c.len() as u128;
            assert(mm * cl <= 0xffff * 0xffff_ffff_ffff_ffff) by (nonlinear_arith)
                requires
                    mm <= 0xffff,
                    cl <= 0xffff_ffff_ffff_ffff,
            ;
            count_or_null(mm * cl)
        },
        Value::Str(x) => count_or_null(chars_of(x.as_str()).len() as u128),
        _ => Value::Null,
    }
}

/// The commands that re-create the values, bottom first.
pub fn pack_values(vals: &Vec<Value>) -> (r: Vec<Command>)
    ensures
        cmds_m(&r) == pack_cmds(values_m(vals@)),
{
    let mut out: Vec<Command> = Vec::new();
    let ghost st = values_m(vals@);
    proof {
        lemma_cmds_m_models(&out);
        assert(st.subrange(0, 0) =~= Seq::<ValueM>::empty());
        assert(models(out@) =~= Seq::<CommandM>::empty());
    }
    let mut i: usize = 0;
    while i < vals.len()
        invariant
            i <= vals@.len(),
            st == values_m(vals@),
            cmds_m(&out) == pack_cmds(st.subrange(0, i as int)),
        decreases vals@.len() - i,
    {
        proof {
            assert(st.subrange(0, i + 1).drop_last() =~= st.subrange(0, i as int));
            assert(st.subrange(0, i + 1).last() == vals@[i as int].model());
        }
        let ghost before = cmds_m(&out);
        match &vals[i] {
            Value::Block(n, c) => {
                let mut piece: Vec<Command> = Vec::new();
                piece.push(Command::Word(Word::BeginBlock));
                proof {
                    lemma_cmds_m_models(&piece);
                    assert(models(piece@) =~= seq![CommandM::Word(Word::BeginBlock)]);
                }
                let body = repeat_cmds(c, *n);
                extend_cmds(&mut piece, &body);
                let mut end: Vec<Command> = Vec::new();
                end.push(Command::Word(Word::EndBlock));
                extend_cmds(&mut piece, &end);
                proof {
                    lemma_cmds_m_models(&end);
                    assert(models(end@) =~= seq![CommandM::Word(Word::EndBlock)]);
                    assert(cmds_m(&piece) == pack_one(vals@[i as int].model()));
                }
                extend_cmds(&mut out, &piece);
            },
            v => {
                let mut piece: Vec<Command> = Vec::new();
                piece.push(Command::Quoted(v.duplicate()));
                proof {
                    lemma_cmds_m_models(&piece);
                    assert(models(piece@) =~= seq![CommandM::Quoted(vals@[i as int].model())]);
                }
                extend_cmds(&mut out, &piece);
            },
        }
        i = i + 1;
    }
    proof {
        assert(st.subrange(0, vals@.len() as int) =~= st);
    }
    out
}

fn assign_cmd(state: &mut State) -> (r: Result<Effect, Error>)
    requires
        old(state).wf(),
    ensures
        final(state).wf(),
        (final(state).model(), result_m(r)) == assign_step(old(state).model()),
{
    if state.stack().len() < 2 {
        return Err(Error::EmptyStack);
    }
    proof {
        lemma_drop_two(state.model().stack);
    }
    let first = match state.pop_pure() {
        Ok(v) => v,
        Err(e) => return Err(e),
    };
    let second = match state.pop_pure() {
        Ok(v) => v,
        Err(e) => return Err(e),
    };
    match (first, second) {
        (Value::Variable(h), Value::Variable(_)) => Err(Error::InvalidAssignArg),
        (Value::Variable(h), v) => {
            state.add_var(h, v);
            Ok(Effect::Nothing)
        },
        (v, Value::Variable(h)) => {
            state.add_var(h, v);
            Ok(Effect::Nothing)
        },
        _ => Err(Error::InvalidAssignArg),
    }
}

fn apply_cmd(state: &mut State) -> (r: Result<Effect, Error>)
    requires
        old(state).wf(),
    ensures
        final(state).wf(),
        (final(state).model(), result_m(r)) == apply_step(old(state).model()),
{
    let v = match state.pop() {
        Ok(v) => v,
        Err(e) => return Err(e),
    };
    match v {
        Value::Block(n, c) => {
            let body = repeat_cmds(&c, n);
            state.schedule(body);
            Ok(Effect::Nothing)
        },
        Value::Str(_) => {
            state.push(v);
            Ok(Effect::Nothing)
        },
        _ => Err(Error::InvalidApplyArg),
    }
}

fn other_cmd(state: &mut State, w: Word) -> (r: Result<Effect, Error>)
    requires
        old(state).wf(),
        !is_binary(w),
        !is_cast(w),
        !is_indexed(w),
        !(w is EmptyBlock || w is True || w is False || w is NullVal || w is Size || w is Read
            || w is Pack || w is Define || w is ApplyFunction || w is BeginBlock || w is EndBlock),
    ensures
        final(state).wf(),
        (final(state).model(), result_m(r)) == word_step(old(state).model(), w),
{
    let ghost s = old(state).model();
    if state.stack().len() == 0 {
        return Err(Error::EmptyStack);
    }
    match w {
        Word::Length => {
            let v = match state.peek() {
                Ok(t) => length_of(t),
                Err(e) => return Err(e),
            };
            state.push(v);
            Ok(Effect::Nothing)
        },
        Word::Dup => {
            let v = match state.peek() {
                Ok(t) => t.duplicate(),
                Err(e) => return Err(e),
            };
            state.push(v);
            Ok(Effect::Nothing)
        },
        Word::Swap => {
            if state.stack().len() < 2 {
                return Err(Error::EmptyStack);
            }
            proof {
                lemma_drop_two(state.model().stack);
            }
            let a = match state.pop() {
                Ok(v) => v,
                Err(e) => return Err(e),
            };
            let b = match state.pop() {
                Ok(v) => v,
                Err(e) => return Err(e),
            };
            state.push(a);
            state.push(b);
            Ok(Effect::Nothing)
        },
        Word::If => {
            if state.stack().len() < 3 {
                return Err(Error::EmptyStack);
            }
            proof {
                lemma_drop_three(state.model().stack);
                lemma_drop_two(state.model().stack);
            }
            let when_false = match state.pop() {
                Ok(v) => v,
                Err(e) => return Err(e),
            };
            let when_true = match state.pop() {
                Ok(v) => v,
                Err(e) => return Err(e),
            };
            let condition = match state.pop() {
                Ok(v) => v,
                Err(e) => return Err(e),
            };
            state.push(
                if condition.as_bool() {
                    when_true
                } else {
                    when_false
                },
            );
            Ok(Effect::Nothing)
        },
        _ => {
            let v = match state.pop() {
                Ok(v) => v,
                Err(e) => return Err(e),
            };
            match w {
                Word::Drop => Ok(Effect::Nothing),
                Word::Not => {
                    state.push(v.not());
                    Ok(Effect::Nothing)
                },
                Word::Type => {
                    let k = kind_str(&v);
                    state.push(Value::Str(k));
                    Ok(Effect::Nothing)
                },
                Word::Write => Ok(Effect::Write(v)),
                Word::Print => Ok(Effect::Print(v)),
                _ => match v {
                    Value::Str(p) => Ok(Effect::Include(p)),
                    _ => Err(Error::InvalidIncludeArg),
                },
            }
        },
    }
}

fn word_cmd(state: &mut State, w: Word) -> (r: Result<Effect, Error>)
    requires
        old(state).wf(),
        !(w is BeginBlock || w is EndBlock),
    ensures
        final(state).wf(),
        (final(state).model(), result_m(r)) == word_step(old(state).model(), w),
{
    if binary_word(w) {
        return binary_cmd(state, w);
    }
    if cast_word(w) {
        return cast_cmd(state, w);
    }
    if indexed_word(w) {
        return indexed_cmd(state, w);
    }
    match w {
        Word::EmptyBlock => {
            state.push(block_of(Vec::new()));
            proof {
                assert(models(Seq::<Command>::empty()) =~= Seq::<CommandM>::empty());
            }
            Ok(Effect::Nothing)
        },
        Word::True => {
            state.push(Value::Bool(true));
            Ok(Effect::Nothing)
        },
        Word::False => {
            state.push(Value::Bool(false));
            Ok(Effect::Nothing)
        },
        Word::NullVal => {
            state.push(Value::Null);
            Ok(Effect::Nothing)
        },
        Word::Size => {
            let v = count_or_null(state.stack().len() as u128);
            state.push(v);
            Ok(Effect::Nothing)
        },
        Word::Read => Ok(Effect::Read),
        Word::Pack => {
            let vals = state.drain_stack();
            let cmds = pack_values(&vals);
            state.push(Value::Block(1, cmds));
            proof {
                assert(seq![ValueM::Block(1, pack_cmds(old(state).model().stack))] =~= Seq::<ValueM>::empty().push(ValueM::Block(1, pack_cmds(old(state).model().stack))));
            }
            Ok(Effect::Nothing)
        },
        Word::Define => assign_cmd(state),
        Word::ApplyFunction => apply_cmd(state),
        _ => other_cmd(state, w),
    }
}

/// Runs one command against the state: block markers drive the recording
/// of blocks, every other command is recorded while a block is being
/// recorded, and otherwise runs. What the outside has to do comes back as
/// the effect.
pub fn run_command(state: &mut State, cmd: Command) -> (r: Result<Effect, Error>)
    requires
        old(state).wf(),
    ensures
        final(state).wf(),
        (final(state).model(), result_m(r)) == step_spec(old(state).model(), cmd.model()),
{
    match cmd {
        Command::Word(Word::EndBlock) => match state.close_block() {
            Ok(()) => Ok(Effect::Nothing),
            Err(e) => Err(e),
        },
        Command::Word(Word::BeginBlock) => match state.open_block() {
            Ok(()) => Ok(Effect::Nothing),
            Err(e) => Err(e),
        },
        c => {
            if state.block_nesting() > 0 {
                state.record(c);
                return Ok(Effect::Nothing);
            }
            match c {
                Command::Literal(t) => match Value::parse(t.as_str()) {
                    Some(v) => {
                        state.push(v);
                        Ok(Effect::Nothing)
                    },
                    None => Ok(Effect::Float(FloatTask::Literal(t))),
                },
                Command::Quoted(v) => {
                    state.push(v);
                    Ok(Effect::Nothing)
                },
                Command::Word(w) => word_cmd(state, w),
            }
        },
    }
}

/// The commands of a source text, in order: each token classified.
pub open spec fn source_cmds(text: Seq<char>) -> Seq<CommandM> {
    Seq::new(tokens_of(text).len(), |i: int| classify(lower_of(tokens_of(text)[i]), tokens_of(text)[i]))
}

/// Tokenizes and classifies a source text and puts its commands in front of
/// those still to run: an included source runs before the rest, against the
/// same stack and variables.
pub fn include_source(state: &mut State, text: &str)
    requires
        old(state).wf(),
    ensures
        final(state).wf(),
        final(state).model() == (StateM { pending: source_cmds(text@) + old(state).model().pending, ..old(state).model() }),
{
    let tokens = tokenize(text);
    let mut cmds: Vec<Command> = Vec::new();
    let mut i: usize = 0;
    while i < tokens.len()
        invariant
            i <= tokens@.len(),
            texts(tokens@) == tokens_of(text@),
            cmds@.len() == i,
            forall|j: int| 0 <= j < i ==> #[trigger] cmds@[j].model() == source_cmds(text@)[j],
        decreases tokens@.len() - i,
    {
        let c = Command::from_str(tokens[i].as_str());
        proof {
            assert(tokens@[i as int]@ == tokens_of(text@)[i as int]);
        }
        cmds.push(c);
        i = i + 1;
    }
    proof {
        lemma_cmds_m_models(&cmds);
        assert(models(cmds@) =~= source_cmds(text@));
    }
    state.schedule(cmds);
}

/// Runs the next command still to run, if any. On an error the commands
/// still to run are dropped: the run stops there.
pub fn step(state: &mut State) -> (r: Option<Result<Effect, Error>>)
    requires
        old(state).wf(),
    ensures
        final(state).wf(),
        old(state).model().pending.len() == 0 ==> r is None && final(state).model() == old(state).model(),
        old(state).model().pending.len() > 0 ==> {
            let (s2, res) = step_spec(
                StateM { pending: old(state).model().pending.drop_first(), ..old(state).model() },
                old(state).model().pending[0],
            );
            &&& r is Some
            &&& result_m(r->0) == res
            &&& res is Ok ==> final(state).model() == s2
            &&& res is Err ==> final(state).model() == (StateM { pending: Seq::empty(), ..s2 })
        },
{
    match state.next_command() {
        None => None,
        Some(c) => {
            let r = run_command(state, c);
            if r.is_err() {
                state.clear_pending();
            }
            Some(r)
        },
    }
}

/// Hands a line of input to the state after `read`: its line ending
/// dropped, it is pushed as a string.
pub fn push_line(state: &mut State, line: &str)
    requires
        old(state).wf(),
    ensures
        final(state).wf(),
        final(state).model() == push_v(old(state).model(), ValueM::Str(strip_line_end(line@))),
{
    let mut cs = chars_of(line);
    strip_line_end_chars(&mut cs);
    state.push(Value::Str(string_of(&cs)));
}

} // verus!
