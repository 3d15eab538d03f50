use vstd::prelude::*;

use crate::cmd::{cmds_m, cmds_model, duplicate_cmds, lemma_cmds_m, same_cmds, Command, CommandM};
use crate::text::{
    append_chars, chars_of, compare_chars, float_syntax, int_chars, int_text, is_float_literal, parse_i64,
    parse_int, repeat_chars, repeat_seq, seq_cmp, string_of,
};

verus! {

/// A value of the language. A float is held as its IEEE-754 binary64 bit
/// pattern; a block holds its multiplicity (at least 1) and its commands.
#[derive(Debug)]
pub enum Value {
    Float(u64),
    Integer(i64),
    Bool(bool),
    Str(String),
    Variable(String),
    Block(u16, Vec<Command>),
    Null,
}

/// The mathematical model of a value.
pub enum ValueM {
    Float(u64),
    Integer(i64),
    Bool(bool),
    Str(Seq<char>),
    Variable(Seq<char>),
    Block(u16, Seq<CommandM>),
    Null,
}

impl Value {
    pub open spec fn model(&self) -> ValueM
        decreases self, 0int,
    {
        match self {
            Value::Float(b) => ValueM::Float(*b),
            Value::Integer(i) => ValueM::Integer(*i),
            Value::Bool(b) => ValueM::Bool(*b),
            Value::Str(s) => ValueM::Str(s@),
            Value::Variable(s) => ValueM::Variable(s@),
            Value::Block(n, cmds) => ValueM::Block(*n, cmds_model(cmds, cmds@.len() as int)),
            Value::Null => ValueM::Null,
        }
    }

    /// A deep copy of the value.
    pub fn duplicate(&self) -> (r: Value)
        ensures
            r.model() == self.model(),
        decreases self, 1int,
    {
        match self {
            Value::Float(b) => Value::Float(*b),
            Value::Integer(i) => Value::Integer(*i),
            Value::Bool(b) => Value::Bool(*b),
            Value::Str(s) => Value::Str(s.clone()),
            Value::Variable(s) => Value::Variable(s.clone()),
            Value::Block(n, cmds) => Value::Block(*n, duplicate_cmds(cmds)),
            Value::Null => Value::Null,
        }
    }

    /// Structural equality of two values (bit patterns for floats).
    pub fn same_as(&self, other: &Value) -> (r: bool)
        ensures
            r == (self.model() == other.model()),
        decreases self, 1int,
    {
        match self {
            Value::Float(a) => match other {
                Value::Float(b) => *a == *b,
                _ => false,
            },
            Value::Integer(a) => match other {
                Value::Integer(b) => *a == *b,
                _ => false,
            },
            Value::Bool(a) => match other {
                Value::Bool(b) => *a == *b,
                _ => false,
            },
            Value::Str(a) => match other {
                Value::Str(b) => *a == *b,
                _ => false,
            },
            Value::Variable(a) => match other {
                Value::Variable(b) => *a == *b,
                _ => false,
            },
            Value::Block(n, a) => match other {
                Value::Block(m, b) => *n == *m && same_cmds(a, b),
                _ => false,
            },
            Value::Null => matches!(other, Value::Null),
        }
    }
}

/// Whether a binary64 bit pattern is a NaN: every exponent bit set and a
/// fraction that is not zero.
pub open spec fn is_nan(bits: u64) -> bool {
    (bits >> 52u64) & 0x7ffu64 == 0x7ffu64 && bits & 0xf_ffff_ffff_ffffu64 != 0
}

/// Equality of two floats in the language: equal bit patterns (so a NaN
/// equals the same NaN, keeping equality reflexive), and the two zeros.
pub open spec fn float_eq(a: u64, b: u64) -> bool {
    a == b || (a & 0x7fff_ffff_ffff_ffffu64 == 0 && b & 0x7fff_ffff_ffff_ffffu64 == 0)
}

/// A block has multiplicity at least 1 (any other value qualifies).
pub open spec fn multiplicity_ok(v: ValueM) -> bool {
    match v {
        ValueM::Block(n, _) => n >= 1,
        _ => true,
    }
}

/// The bits of `0.0`, `1.0` and of the NaN that a failed coercion gives.
pub const FLOAT_ZERO: u64 = 0;

pub const FLOAT_ONE: u64 = 0x3ff0_0000_0000_0000;

pub const FLOAT_NAN: u64 = 0x7ff8_0000_0000_0000;

/// Truthiness: a float unless NaN, every integer, a non-empty string, a bool
/// itself, every block; never a variable or null.
pub open spec fn truthy(v: ValueM) -> bool {
    match v {
        ValueM::Float(b) => !is_nan(b),
        ValueM::Integer(_) => true,
        ValueM::Str(s) => s.len() != 0,
        ValueM::Bool(b) => b,
        ValueM::Block(_, _) => true,
        ValueM::Variable(_) => false,
        ValueM::Null => false,
    }
}

pub open spec fn is_numeric(v: ValueM) -> bool {
    v is Integer || v is Float
}

/// A numeric pair in which at least one side is a float: its arithmetic is
/// the platform's floating point.
pub open spec fn float_pair(a: ValueM, b: ValueM) -> bool {
    is_numeric(a) && is_numeric(b) && (a is Float || b is Float)
}

/// The text that `write` shows for a value that is not a float.
pub open spec fn text_of(v: ValueM) -> Seq<char> {
    match v {
        ValueM::Integer(i) => int_text(i as int),
        ValueM::Bool(b) => if b {
            "true"@
        } else {
            "false"@
        },
        ValueM::Str(s) => s,
        ValueM::Variable(s) => "[variable: "@ + s + "]"@,
        ValueM::Block(_, _) => "[code block]"@,
        _ => "NULL"@,
    }
}

/// The model of a block's contents with its multiplicity written out.
pub open spec fn flatten_spec(v: ValueM) -> ValueM {
    match v {
        ValueM::Block(n, c) => ValueM::Block(1, repeat_seq(c, n as nat)),
        _ => v,
    }
}

/// `not`: flips a bool, complements an integer's bits (`-1 - n` in two's
/// complement), negates the truth of a
/// float or a string, and is null for the rest.
pub open spec fn not_spec(v: ValueM) -> ValueM {
    match v {
        ValueM::Bool(b) => ValueM::Bool(!b),
        ValueM::Integer(n) => ValueM::Integer((-1 - n) as i64),
        ValueM::Float(_) => ValueM::Bool(!truthy(v)),
        ValueM::Str(_) => ValueM::Bool(!truthy(v)),
        _ => ValueM::Null,
    }
}

/// `and` (when `conj`) and `or`: bitwise on two integers, logical on two
/// bools, null when either side is a block, else on truthiness.
pub open spec fn logic_spec(a: ValueM, b: ValueM, conj: bool) -> ValueM {
    match (a, b) {
        (ValueM::Integer(x), ValueM::Integer(y)) => ValueM::Integer(if conj { x & y } else { x | y }),
        (ValueM::Bool(x), ValueM::Bool(y)) => ValueM::Bool(if conj { x && y } else { x || y }),
        _ => if a is Block || b is Block {
            ValueM::Null
        } else {
            ValueM::Bool(if conj { truthy(a) && truthy(b) } else { truthy(a) || truthy(b) })
        },
    }
}

/// Whether `+` on these values needs the platform's floating point: a float
/// numeric pair, or a float that is written next to a string.
pub open spec fn add_needs_float(a: ValueM, b: ValueM) -> bool {
    if a is Null {
        false
    } else if a is Str {
        b is Float
    } else if b is Null {
        false
    } else if b is Str {
        a is Float
    } else {
        float_pair(a, b)
    }
}

/// Block concatenation: a plain append of two blocks of multiplicity 1; the
/// multiplicities add for identical contents (when the sum fits); otherwise
/// both are written out and joined.
pub open spec fn block_add(n: u16, x: Seq<CommandM>, m: u16, y: Seq<CommandM>) -> ValueM {
    if n == 1 && m == 1 {
        ValueM::Block(1, x + y)
    } else if x == y && n + m <= u16::MAX {
        ValueM::Block((n + m) as u16, x)
    } else {
        ValueM::Block(1, repeat_seq(x, n as nat) + repeat_seq(y, m as nat))
    }
}

/// `+`: null on one side gives the other; a string joins with the other
/// side's text; integers add (wrapping); blocks concatenate; else null.
pub open spec fn add_spec(a: ValueM, b: ValueM) -> ValueM {
    match (a, b) {
        (ValueM::Null, _) => b,
        (ValueM::Str(x), _) => ValueM::Str(x + text_of(b)),
        (_, ValueM::Null) => a,
        (_, ValueM::Str(y)) => ValueM::Str(text_of(a) + y),
        (ValueM::Integer(x), ValueM::Integer(y)) => ValueM::Integer(x.wrapping_add(y)),
        (ValueM::Block(n, x), ValueM::Block(m, y)) => block_add(n, x, m, y),
        _ => ValueM::Null,
    }
}

/// `*`: a string repeated (no times for a count below 1), integers multiplied
/// (wrapping), a block's multiplicity scaled (null unless the product lies in
/// `1..=65535`); else null.
pub open spec fn mul_spec(a: ValueM, b: ValueM) -> ValueM {
    match (a, b) {
        (ValueM::Str(s), ValueM::Integer(n)) => ValueM::Str(
            repeat_seq(s, if n > 0 { n as nat } else { 0 }),
        ),
        (ValueM::Integer(n), ValueM::Str(s)) => ValueM::Str(
            repeat_seq(s, if n > 0 { n as nat } else { 0 }),
        ),
        (ValueM::Integer(x), ValueM::Integer(y)) => ValueM::Integer(x.wrapping_mul(y)),
        (ValueM::Integer(n), ValueM::Block(k, c)) => scale_block(n, k, c),
        (ValueM::Block(k, c), ValueM::Integer(n)) => scale_block(n, k, c),
        _ => ValueM::Null,
    }
}

pub open spec fn scale_block(n: i64, k: u16, c: Seq<CommandM>) -> ValueM {
    if 1 <= n * k <= u16::MAX {
        ValueM::Block((n * k) as u16, c)
    } else {
        ValueM::Null
    }
}

/// `-`: integers subtract (wrapping); else null.
pub open spec fn sub_spec(a: ValueM, b: ValueM) -> ValueM {
    match (a, b) {
        (ValueM::Integer(x), ValueM::Integer(y)) => ValueM::Integer(x.wrapping_sub(y)),
        _ => ValueM::Null,
    }
}

/// `/`: truncating integer division; null for a zero divisor; the one
/// quotient out of range (`i64::MIN / -1`) wraps to `i64::MIN`; else null.
pub open spec fn div_spec(a: ValueM, b: ValueM) -> ValueM {
    match (a, b) {
        (ValueM::Integer(x), ValueM::Integer(y)) => if y == 0 {
            ValueM::Null
        } else {
            match x.checked_div(y) {
                Some(q) => ValueM::Integer(q),
                None => ValueM::Integer(i64::MIN),
            }
        },
        _ => ValueM::Null,
    }
}

/// `%`: truncating integer remainder (the sign of the dividend); null for a
/// zero divisor; `i64::MIN % -1` is 0; else null.
pub open spec fn rem_spec(a: ValueM, b: ValueM) -> ValueM {
    match (a, b) {
        (ValueM::Integer(x), ValueM::Integer(y)) => if y == 0 {
            ValueM::Null
        } else {
            match x.checked_rem(y) {
                Some(q) => ValueM::Integer(q),
                None => ValueM::Integer(0),
            }
        },
        _ => ValueM::Null,
    }
}

/// Equality of the language: null equals null; floats by bit pattern (the
/// two zeros equal); integers,
/// bools and strings by value; blocks by multiplicity and contents; a
/// variable equals nothing; values of different kinds are unequal. (An
/// integer against a float compares after promotion, on the platform.)
pub open spec fn eq_spec(a: ValueM, b: ValueM) -> bool {
    match (a, b) {
        (ValueM::Null, ValueM::Null) => true,
        (ValueM::Float(x), ValueM::Float(y)) => float_eq(x, y),
        (ValueM::Integer(x), ValueM::Integer(y)) => x == y,
        (ValueM::Bool(x), ValueM::Bool(y)) => x == y,
        (ValueM::Str(x), ValueM::Str(y)) => x == y,
        (ValueM::Block(n, x), ValueM::Block(m, y)) => n == m && x == y,
        _ => false,
    }
}

/// Whether comparing these values needs the platform's floating point.
pub open spec fn cmp_needs_float(a: ValueM, b: ValueM) -> bool {
    float_pair(a, b)
}

pub open spec fn int_cmp(x: int, y: int) -> core::cmp::Ordering {
    if x < y {
        core::cmp::Ordering::Less
    } else if x == y {
        core::cmp::Ordering::Equal
    } else {
        core::cmp::Ordering::Greater
    }
}

/// The order of the language: integers, bools and strings among their own
/// kind; no order between other values.
pub open spec fn cmp_spec(a: ValueM, b: ValueM) -> Option<core::cmp::Ordering> {
    match (a, b) {
        (ValueM::Integer(x), ValueM::Integer(y)) => Some(int_cmp(x as int, y as int)),
        (ValueM::Bool(x), ValueM::Bool(y)) => Some(
            int_cmp(if x { 1int } else { 0int }, if y { 1int } else { 0int }),
        ),
        (ValueM::Str(x), ValueM::Str(y)) => Some(seq_cmp(x, y)),
        _ => None,
    }
}

/// `toint`: a bool as 0 or 1, an integer as it is, a string by integer
/// parsing (null when that fails), null for the rest.
pub open spec fn to_int_spec(v: ValueM) -> ValueM {
    match v {
        ValueM::Bool(b) => ValueM::Integer(if b { 1 } else { 0 }),
        ValueM::Integer(n) => ValueM::Integer(n),
        ValueM::Str(s) => match parse_int(s) {
            Some(n) => ValueM::Integer(n),
            None => ValueM::Null,
        },
        _ => ValueM::Null,
    }
}

/// `tofloat` on what needs no float arithmetic: a bool as 0.0 or 1.0, a float
/// as it is, NaN for null, a block, a variable or a string that holds no
/// float literal.
pub open spec fn to_float_spec(v: ValueM) -> ValueM {
    match v {
        ValueM::Bool(b) => ValueM::Float(if b { FLOAT_ONE } else { FLOAT_ZERO }),
        ValueM::Float(b) => ValueM::Float(b),
        _ => ValueM::Float(FLOAT_NAN),
    }
}

/// A quoted token: it begins with `"`.
pub open spec fn is_quoted(s: Seq<char>) -> bool {
    s.len() > 0 && s[0] == '"'
}

/// The text between the quotes of a quoted token: its first and last
/// characters taken off.
pub open spec fn unquote(s: Seq<char>) -> Seq<char> {
    if s.len() >= 2 {
        s.subrange(1, s.len() - 1)
    } else {
        Seq::empty()
    }
}

/// A literal token read as a value: a quoted token is a string, else an
/// integer literal is an integer, else (unless it is a float literal, whose
/// value takes the platform's float parsing: `None`) `word_spec` decides.
pub open spec fn parse_spec(s: Seq<char>) -> Option<ValueM> {
    if is_quoted(s) {
        Some(ValueM::Str(unquote(s)))
    } else {
        match parse_int(s) {
            Some(n) => Some(ValueM::Integer(n)),
            None => if float_syntax(s) {
                None
            } else {
                Some(word_spec(s))
            },
        }
    }
}

/// A literal token that is no string and no number: `true` and `false` are
/// bools, `null` and `\u{f8}` are null, anything else names a variable.
pub open spec fn word_spec(s: Seq<char>) -> ValueM {
    if s == "true"@ {
        ValueM::Bool(true)
    } else if s == "false"@ {
        ValueM::Bool(false)
    } else if s == "null"@ || s == seq!['\u{f8}'] {
        ValueM::Null
    } else {
        ValueM::Variable(s)
    }
}

/// Appends copies of the commands of `c` to `out`.
pub(crate) fn extend_cmds(out: &mut Vec<Command>, c: &Vec<Command>)
    ensures
        cmds_m(final(out)) == cmds_m(old(out)) + cmds_m(c),
{
    proof {
        lemma_cmds_m(c);
        lemma_cmds_m(out);
    }
    let mut i: usize = 0;
    while i < c.len()
        invariant
            i <= c@.len(),
            out@.len() == old(out)@.len() + i,
            cmds_m(c).len() == c@.len(),
            forall|j: int| 0 <= j < c@.len() ==> #[trigger] cmds_m(c)[j] == c@[j].model(),
            cmds_m(old(out)).len() == old(out)@.len(),
            forall|j: int| 0 <= j < old(out)@.len() ==> #[trigger] cmds_m(old(out))[j] == old(out)@[j].model(),
            forall|j: int| 0 <= j < old(out)@.len() ==> #[trigger] out@[j].model() == old(out)@[j].model(),
            forall|j: int| 0 <= j < i ==> #[trigger] out@[old(out)@.len() + j].model() == c@[j].model(),
        decreases c@.len() - i,
    {
        let d = c[i].duplicate();
        out.push(d);
        i = i + 1;
    }
    proof {
        lemma_cmds_m(out);
        assert forall|j: int| 0 <= j < out@.len() implies #[trigger] cmds_m(out)[j] == (cmds_m(old(out)) + cmds_m(c))[j] by {
            if j >= old(out)@.len() {
                let k = j - old(out)@.len();
                assert(out@[old(out)@.len() + k].model() == c@[k].model());
            }
        }
        assert(cmds_m(out) =~= cmds_m(old(out)) + cmds_m(c));
    }
}

/// The commands of `c`, `n` times over.
pub(crate) fn repeat_cmds(c: &Vec<Command>, n: u16) -> (r: Vec<Command>)
    ensures
        cmds_m(&r) == repeat_seq(cmds_m(c), n as nat),
{
    let mut out: Vec<Command> = Vec::new();
    proof {
        lemma_cmds_m(&out);
        assert(cmds_m(&out) =~= Seq::<CommandM>::empty());
    }
    let mut k: u16 = 0;
    while k < n
        invariant
            k <= n,
            cmds_m(&out) == repeat_seq(cmds_m(c), k as nat),
        decreases n - k,
    {
        extend_cmds(&mut out, c);
        k = k + 1;
    }
    out
}

impl Value {
    /// Truthiness of the value.
    pub fn as_bool(&self) -> (r: bool)
        ensures
            r == truthy(self.model()),
    {
        match self {
            Value::Float(b) => !((*b >> 52u64) & 0x7ffu64 == 0x7ffu64 && *b & 0xf_ffff_ffff_ffffu64 != 0),
            Value::Integer(_) => true,
            Value::Str(s) => !s.as_str().is_empty(),
            Value::Bool(b) => *b,
            Value::Block(_, _) => true,
            Value::Variable(_) => false,
            Value::Null => false,
        }
    }

    /// Replaces the value by its truthiness.
    pub fn make_bool(&mut self)
        ensures
            final(self).model() == ValueM::Bool(truthy(old(self).model())),
    {
        let b = self.as_bool();
        *self = Value::Bool(b);
    }

    /// Coerces the value to a float in place, where no float arithmetic is
    /// needed (not for an integer or a string holding a float literal).
    pub fn make_float(&mut self)
        requires
            !(old(self).model() is Integer),
            !(old(self).model() is Str && float_syntax(old(self).model()->Str_0)),
        ensures
            final(self).model() == to_float_spec(old(self).model()),
    {
        let repl = match self {
            Value::Bool(b) => Value::Float(if *b { FLOAT_ONE } else { FLOAT_ZERO }),
            Value::Float(_) => return,
            _ => Value::Float(FLOAT_NAN),
        };
        *self = repl;
    }

    /// Coerces the value to an integer in place (not a float: that takes the
    /// platform's conversion).
    pub fn make_int(&mut self)
        requires
            !(old(self).model() is Float),
        ensures
            final(self).model() == to_int_spec(old(self).model()),
    {
        let repl = match self {
            Value::Bool(b) => Value::Integer(if *b { 1 } else { 0 }),
            Value::Integer(_) => return,
            Value::Str(s) => match parse_i64(&chars_of(s.as_str())) {
                Some(n) => Value::Integer(n),
                None => Value::Null,
            },
            _ => Value::Null,
        };
        *self = repl;
    }

    /// Writes out a block's multiplicity: its contents repeated, with
    /// multiplicity 1. Other values are unchanged.
    pub fn flatten(self) -> (r: Value)
        ensures
            r.model() == flatten_spec(self.model()),
            multiplicity_ok(r.model()),
    {
        match self {
            Value::Block(n, b) => Value::Block(1, repeat_cmds(&b, n)),
            a => a,
        }
    }

    /// The text of a value that is not a float, as `write` shows it.
    pub fn text_chars(&self) -> (r: Vec<char>)
        requires
            !(self.model() is Float),
        ensures
            r@ == text_of(self.model()),
    {
        match self {
            Value::Integer(i) => int_chars(*i),
            Value::Bool(b) => if *b {
                chars_of("true")
            } else {
                chars_of("false")
            },
            Value::Str(s) => chars_of(s.as_str()),
            Value::Variable(s) => {
                let mut out = chars_of("[variable: ");
                append_chars(&mut out, &chars_of(s.as_str()));
                append_chars(&mut out, &chars_of("]"));
                out
            },
            Value::Block(_, _) => chars_of("[code block]"),
            _ => chars_of("NULL"),
        }
    }

    /// The text of a value that is not a float, as `write` shows it.
    pub fn display(&self) -> (r: String)
        requires
            !(self.model() is Float),
        ensures
            r@ == text_of(self.model()),
    {
        string_of(&self.text_chars())
    }

    /// `not` of the language.
    pub fn not(self) -> (r: Value)
        ensures
            r.model() == not_spec(self.model()),
    {
        let t = self.as_bool();
        match self {
            Value::Bool(b) => Value::Bool(!b),
            Value::Integer(n) => Value::Integer(-1i64 - n),
            Value::Float(_) => Value::Bool(!t),
            Value::Str(_) => Value::Bool(!t),
            _ => Value::Null,
        }
    }

    fn logic(self, other: Value, conj: bool) -> (r: Value)
        ensures
            r.model() == logic_spec(self.model(), other.model(), conj),
    {
        match (self, other) {
            (Value::Integer(x), Value::Integer(y)) => Value::Integer(if conj { x & y } else { x | y }),
            (Value::Bool(x), Value::Bool(y)) => Value::Bool(if conj { x && y } else { x || y }),
            (a, b) => if matches!(a, Value::Block(_, _)) || matches!(b, Value::Block(_, _)) {
                Value::Null
            } else {
                let p = a.as_bool();
                let q = b.as_bool();
                Value::Bool(if conj { p && q } else { p || q })
            },
        }
    }

    /// `and` of the language.
    pub fn bitand(self, other: Value) -> (r: Value)
        ensures
            r.model() == logic_spec(self.model(), other.model(), true),
    {
        self.logic(other, true)
    }

    /// `or` of the language.
    pub fn bitor(self, other: Value) -> (r: Value)
        ensures
            r.model() == logic_spec(self.model(), other.model(), false),
    {
        self.logic(other, false)
    }
}

impl Value {
    /// `+` of the language, where it needs no float arithmetic.
    pub fn add(self, other: Value) -> (r: Value)
        requires
            !add_needs_float(self.model(), other.model()),
        ensures
            r.model() == add_spec(self.model(), other.model()),
            multiplicity_ok(self.model()) && multiplicity_ok(other.model()) ==> multiplicity_ok(r.model()),
    {
        match (self, other) {
            (Value::Null, b) => b,
            (Value::Str(x), b) => {
                let mut out = chars_of(x.as_str());
                append_chars(&mut out, &b.text_chars());
                Value::Str(string_of(&out))
            },
            (a, Value::Null) => a,
            (a, Value::Str(y)) => {
                let mut out = a.text_chars();
                append_chars(&mut out, &chars_of(y.as_str()));
                Value::Str(string_of(&out))
            },
            (Value::Integer(x), Value::Integer(y)) => Value::Integer(x.wrapping_add(y)),
            (Value::Block(n, x), Value::Block(m, y)) => add_blocks(n, x, m, y),
            _ => Value::Null,
        }
    }

    /// `-` of the language, where it needs no float arithmetic.
    pub fn sub(self, other: Value) -> (r: Value)
        requires
            !float_pair(self.model(), other.model()),
        ensures
            r.model() == sub_spec(self.model(), other.model()),
    {
        match (self, other) {
            (Value::Integer(x), Value::Integer(y)) => Value::Integer(x.wrapping_sub(y)),
            _ => Value::Null,
        }
    }

    /// `*` of the language, where it needs no float arithmetic.
    pub fn mul(self, other: Value) -> (r: Value)
        requires
            !float_pair(self.model(), other.model()),
        ensures
            r.model() == mul_spec(self.model(), other.model()),
            multiplicity_ok(self.model()) && multiplicity_ok(other.model()) ==> multiplicity_ok(r.model()),
    {
        match (self, other) {
            (Value::Str(s), Value::Integer(n)) => {
                let k: u64 = if n > 0 { n as u64 } else { 0 };
                Value::Str(string_of(&repeat_chars(&chars_of(s.as_str()), k)))
            },
            (Value::Integer(n), Value::Str(s)) => {
                let k: u64 = if n > 0 { n as u64 } else { 0 };
                Value::Str(string_of(&repeat_chars(&chars_of(s.as_str()), k)))
            },
            (Value::Integer(x), Value::Integer(y)) => Value::Integer(x.wrapping_mul(y)),
            (Value::Integer(n), Value::Block(k, c)) => scale(n, k, c),
            (Value::Block(k, c), Value::Integer(n)) => scale(n, k, c),
            _ => Value::Null,
        }
    }

    /// `/` of the language, where it needs no float arithmetic.
    pub fn div(self, other: Value) -> (r: Value)
        requires
            !float_pair(self.model(), other.model()),
        ensures
            r.model() == div_spec(self.model(), other.model()),
    {
        match (self, other) {
            (Value::Integer(x), Value::Integer(y)) => if y == 0 {
                Value::Null
            } else {
                match x.checked_div(y) {
                    Some(q) => Value::Integer(q),
                    None => Value::Integer(i64::MIN),
                }
            },
            _ => Value::Null,
        }
    }

    /// `%` of the language, where it needs no float arithmetic.
    pub fn rem(self, other: Value) -> (r: Value)
        requires
            !float_pair(self.model(), other.model()),
        ensures
            r.model() == rem_spec(self.model(), other.model()),
    {
        match (self, other) {
            (Value::Integer(x), Value::Integer(y)) => if y == 0 {
                Value::Null
            } else {
                match x.checked_rem(y) {
                    Some(q) => Value::Integer(q),
                    None => Value::Integer(0),
                }
            },
            _ => Value::Null,
        }
    }

    /// Equality of the language, where it needs no float arithmetic (not an
    /// integer against a float).
    pub fn equals(&self, other: &Value) -> (r: bool)
        requires
            !float_pair(self.model(), other.model()) || (self.model() is Float && other.model() is Float),
        ensures
            r == eq_spec(self.model(), other.model()),
    {
        match (self, other) {
            (Value::Null, Value::Null) => true,
            (Value::Float(x), Value::Float(y)) => *x == *y || (*x & 0x7fff_ffff_ffff_ffffu64 == 0
                && *y & 0x7fff_ffff_ffff_ffffu64 == 0),
            (Value::Integer(x), Value::Integer(y)) => *x == *y,
            (Value::Bool(x), Value::Bool(y)) => *x == *y,
            (Value::Str(x), Value::Str(y)) => *x == *y,
            (Value::Block(n, x), Value::Block(m, y)) => *n == *m && same_cmds(x, y),
            _ => false,
        }
    }

    /// The order of the language, where it needs no float arithmetic.
    pub fn partial_cmp(&self, other: &Value) -> (r: Option<core::cmp::Ordering>)
        requires
            !cmp_needs_float(self.model(), other.model()),
        ensures
            r == cmp_spec(self.model(), other.model()),
    {
        match (self, other) {
            (Value::Integer(x), Value::Integer(y)) => Some(
                if *x < *y {
                    core::cmp::Ordering::Less
                } else if *x == *y {
                    core::cmp::Ordering::Equal
                } else {
                    core::cmp::Ordering::Greater
                },
            ),
            (Value::Bool(x), Value::Bool(y)) => Some(
                if !*x && *y {
                    core::cmp::Ordering::Less
                } else if *x == *y {
                    core::cmp::Ordering::Equal
                } else {
                    core::cmp::Ordering::Greater
                },
            ),
            (Value::Str(x), Value::Str(y)) => Some(
                compare_chars(&chars_of(x.as_str()), &chars_of(y.as_str())),
            ),
            _ => None,
        }
    }

    /// Reads a literal token: a quoted token as a string, an integer literal
    /// as an integer, a bool, null or a variable name; `None` for a float
    /// literal, whose value takes the platform's float parsing.
    pub fn parse(s: &str) -> (r: Option<Value>)
        ensures
            r is Some == parse_spec(s@) is Some,
            r is Some ==> r->0.model() == parse_spec(s@)->0,
    {
        let cs = chars_of(s);
        if cs.len() > 0 && cs[0] == '"' {
            let mut inner: Vec<char> = Vec::new();
            if cs.len() >= 2 {
                let mut i: usize = 1;
                while i < cs.len() - 1
                    invariant
                        1 <= i <= cs@.len() - 1,
                        inner@ == cs@.subrange(1, i as int),
                    decreases cs@.len() - i,
                {
                    inner.push(cs[i]);
                    i = i + 1;
                    assert(cs@.subrange(1, i as int) =~= cs@.subrange(1, i - 1).push(cs@[i - 1]));
                }
            } else {
                assert(inner@ =~= Seq::<char>::empty());
            }
            Some(Value::Str(string_of(&inner)))
        } else {
            match parse_i64(&cs) {
                Some(n) => Some(Value::Integer(n)),
                None => if is_float_literal(&cs) {
                    None
                } else {
                    Some(Value::parse_word(s))
                },
            }
        }
    }

    /// Reads a literal token that is no string and no number: a bool, null,
    /// or the name of a variable.
    pub fn parse_word(s: &str) -> (r: Value)
        ensures
            r.model() == word_spec(s@),
    {
        let cs = chars_of(s);
        let t = chars_of("true");
        let f = chars_of("false");
        let n = chars_of("null");
        let mut o: Vec<char> = Vec::new();
        o.push('\u{f8}');
        assert(o@ =~= seq!['\u{f8}']);
        if same_chars(&cs, &t) {
            Value::Bool(true)
        } else if same_chars(&cs, &f) {
            Value::Bool(false)
        } else if same_chars(&cs, &n) || same_chars(&cs, &o) {
            Value::Null
        } else {
            Value::Variable(string_of(&cs))
        }
    }
}

/// Whether two character sequences are equal.
pub(crate) fn same_chars(a: &Vec<char>, b: &Vec<char>) -> (r: bool)
    ensures
        r == (a@ == b@),
{
    if a.len() != b.len() {
        return false;
    }
    let mut i: usize = 0;
    while i < a.len()
        invariant
            i <= a@.len(),
            a@.len() == b@.len(),
            forall|j: int| 0 <= j < i ==> a@[j] == b@[j],
        decreases a@.len() - i,
    {
        if a[i] != b[i] {
            return false;
        }
        i = i + 1;
    }
    assert(a@ =~= b@);
    true
}

fn add_blocks(n: u16, x: Vec<Command>, m: u16, y: Vec<Command>) -> (r: Value)
    ensures
        r.model() == block_add(n, cmds_m(&x), m, cmds_m(&y)),
{
    if n == 1 && m == 1 {
        let mut out = x;
        extend_cmds(&mut out, &y);
        Value::Block(1, out)
    } else if same_cmds(&x, &y) && (n as u32) + (m as u32) <= 65535 {
        Value::Block(n + m, x)
    } else {
        let mut out = repeat_cmds(&x, n);
        let right = repeat_cmds(&y, m);
        extend_cmds(&mut out, &right);
        Value::Block(1, out)
    }
}

fn scale(n: i64, k: u16, c: Vec<Command>) -> (r: Value)
    ensures
        r.model() == scale_block(n, k, cmds_m(&c)),
{
    if n >= 1 && n <= 65535 {
        let a: u64 = n as u64;
        let b: u64 = k as u64;
        assert(a * b <= 65535 * 65535) by (nonlinear_arith)
            requires
                a <= 65535,
                b <= 65535,
        ;
        let p: u64 = a * b;
        assert(p == n * k);
        if 1 <= p && p <= 65535 {
            Value::Block(p as u16, c)
        } else {
            Value::Null
        }
    } else {
        proof {
            let kk = k as int;
            let nn = n as int;
            if kk == 0 {
                assert(nn * kk == 0);
            } else if nn > 65535 {
                assert(nn * kk >= nn) by (nonlinear_arith)
                    requires
                        kk >= 1,
                        nn > 0,
                ;
            } else {
                assert(nn * kk <= 0) by (nonlinear_arith)
                    requires
                        nn < 1,
                        kk >= 0,
                ;
            }
        }
        Value::Null
    }
}

/// Exclusive or: bitwise on two integers, on two bools, null when either
/// side is a block, else on truthiness.
pub open spec fn xor_spec(a: ValueM, b: ValueM) -> ValueM {
    match (a, b) {
        (ValueM::Integer(x), ValueM::Integer(y)) => ValueM::Integer(x ^ y),
        (ValueM::Bool(x), ValueM::Bool(y)) => ValueM::Bool(x != y),
        _ => if a is Block || b is Block {
            ValueM::Null
        } else {
            ValueM::Bool(truthy(a) != truthy(b))
        },
    }
}

impl Value {
    /// Exclusive or of the language.
    pub fn bitxor(self, other: Value) -> (r: Value)
        ensures
            r.model() == xor_spec(self.model(), other.model()),
    {
        match (self, other) {
            (Value::Integer(x), Value::Integer(y)) => Value::Integer(x ^ y),
            (Value::Bool(x), Value::Bool(y)) => Value::Bool(x != y),
            (a, b) => if matches!(a, Value::Block(_, _)) || matches!(b, Value::Block(_, _)) {
                Value::Null
            } else {
                let p = a.as_bool();
                let q = b.as_bool();
                Value::Bool(p != q)
            },
        }
    }
}

impl From<bool> for Value {
    fn from(b: bool) -> (r: Value) {
        Value::Bool(b)
    }
}

impl vstd::std_specs::convert::FromSpecImpl<bool> for Value {
    open spec fn obeys_from_spec() -> bool {
        true
    }

    open spec fn from_spec(b: bool) -> Value {
        Value::Bool(b)
    }
}

impl From<i64> for Value {
    fn from(i: i64) -> (r: Value) {
        Value::Integer(i)
    }
}

impl vstd::std_specs::convert::FromSpecImpl<i64> for Value {
    open spec fn obeys_from_spec() -> bool {
        true
    }

    open spec fn from_spec(i: i64) -> Value {
        Value::Integer(i)
    }
}

/// `x` to the power `k`.
pub open spec fn int_pow(x: int, k: nat) -> int
    decreases k,
{
    if k == 0 {
        1
    } else {
        int_pow(x, (k - 1) as nat) * x
    }
}

/// Integer power: defined for a non-negative exponent where the result fits
/// in `i64`; null otherwise and for every other pair.
pub open spec fn pow_spec(a: ValueM, b: ValueM) -> ValueM {
    match (a, b) {
        (ValueM::Integer(x), ValueM::Integer(y)) => if 0 <= y && i64::MIN <= int_pow(x as int, y as nat)
            <= i64::MAX {
            ValueM::Integer(int_pow(x as int, y as nat) as i64)
        } else {
            ValueM::Null
        },
        _ => ValueM::Null,
    }
}

proof fn lemma_pow_unit(x: int, k: nat)
    requires
        -1 <= x <= 1,
    ensures
        x == 0 ==> int_pow(x, k) == if k == 0 { 1int } else { 0int },
        x == 1 ==> int_pow(x, k) == 1,
        x == -1 ==> int_pow(x, k) == if k % 2 == 0 { 1int } else { -1int },
    decreases k,
{
    if k > 0 {
        lemma_pow_unit(x, (k - 1) as nat);
    }
}

proof fn lemma_pow_grows(x: int, k: nat, j: nat)
    requires
        x >= 2 || x <= -2,
        k <= j,
    ensures
        abs(int_pow(x, j)) >= abs(int_pow(x, k)),
        j > k ==> abs(int_pow(x, j)) >= 2 * abs(int_pow(x, k)),
    decreases j - k,
{
    if j > k {
        lemma_pow_grows(x, k, (j - 1) as nat);
        let p = int_pow(x, (j - 1) as nat);
        assert(abs(p * x) == abs(p) * abs(x)) by (nonlinear_arith);
        assert(abs(p) * abs(x) >= 2 * abs(p)) by (nonlinear_arith)
            requires
                abs(x) >= 2,
                abs(p) >= 0,
        ;
    }
}

pub open spec fn abs(x: int) -> int {
    if x < 0 {
        -x
    } else {
        x
    }
}

impl Value {
    /// Integer power of the language, where it needs no float arithmetic.
    pub fn pow(self, rhs: Value) -> (r: Value)
        requires
            !float_pair(self.model(), rhs.model()),
        ensures
            r.model() == pow_spec(self.model(), rhs.model()),
    {
        let ghost sm = self.model();
        let ghost rm = rhs.model();
        match (self, rhs) {
            (Value::Integer(x), Value::Integer(y)) => {
                if y < 0 {
                    return Value::Null;
                }
                if x == 0 || x == 1 || x == -1 {
                    proof {
                        lemma_pow_unit(x as int, y as nat);
                    }
                    return Value::Integer(
                        if x == 0 {
                            if y == 0 {
                                1
                            } else {
                                0
                            }
                        } else if x == 1 || y % 2 == 0 {
                            1
                        } else {
                            -1
                        },
                    );
                }
                let mut acc: i64 = 1;
                let mut k: i64 = 0;
                while k < y
                    invariant
                        0 <= k <= y,
                        acc as int == int_pow(x as int, k as nat),
                        x >= 2 || x <= -2,
                        sm == ValueM::Integer(x),
                        rm == ValueM::Integer(y),
                        sm == self.model(),
                        rm == rhs.model(),
                    decreases y - k,
                {
                    match acc.checked_mul(x) {
                        Some(p) => {
                            acc = p;
                            k = k + 1;
                        },
                        None => {
                            proof {
                                let q = int_pow(x as int, (k + 1) as nat);
                                assert(q == acc * x);
                                assert(q > i64::MAX || q < i64::MIN);
                                lemma_pow_grows(x as int, (k + 1) as nat, y as nat);
                                let t = int_pow(x as int, y as nat);
                                assert(abs(q) >= 0x8000_0000_0000_0000);
                                if y > k + 1 {
                                    assert(abs(t) >= 2 * abs(q));
                                    assert(t > i64::MAX || t < i64::MIN);
                                } else {
                                    assert(y as nat == (k + 1) as nat);
                                    assert(t == q);
                                }
                                assert(!(i64::MIN <= t <= i64::MAX));
                                assert(pow_spec(sm, rm) == ValueM::Null);
                            }
                            return Value::Null;
                        },
                    }
                }
                Value::Integer(acc)
            },
            _ => Value::Null,
        }
    }
}

} // verus!
