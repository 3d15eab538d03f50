use vstd::prelude::*;

use crate::text::chars_of;
use crate::value::{same_chars, Value, ValueM};

verus! {

broadcast use vstd::std_specs::vec::axiom_vec_index_decreases;

/// The keyword commands of the language.
#[derive(Debug, Clone, Copy, PartialEq, Eq, Structural)]
pub enum Word {
    BeginBlock,
    EndBlock,
    EmptyBlock,
    True,
    False,
    NullVal,
    Size,
    Length,
    Dup,
    Swap,
    Drop,
    Not,
    And,
    Or,
    Eq,
    Neq,
    GreaterThan,
    GreaterEquals,
    LessThan,
    LessEquals,
    Add,
    Sub,
    Mul,
    Div,
    Rem,
    If,
    Define,
    ApplyFunction,
    Read,
    Split,
    Get,
    DupGet,
    Move,
    Grab,
    DupGrab,
    CastNum,
    ToFloat,
    ToInt,
    ToBool,
    Type,
    Write,
    Print,
    Pack,
    Include,
}

/// One command of a program: a keyword, the text of a literal token that is
/// resolved to a value when it runs, or a value that is pushed as it stands
/// (what `pack` writes for a bare stack value).
#[derive(Debug)]
pub enum Command {
    Word(Word),
    Literal(String),
    Quoted(Value),
}

/// The mathematical model of a command.
pub enum CommandM {
    Word(Word),
    Literal(Seq<char>),
    Quoted(ValueM),
}

impl Command {
    pub open spec fn model(&self) -> CommandM
        decreases self, 0int,
    {
        match self {
            Command::Word(w) => CommandM::Word(*w),
            Command::Literal(s) => CommandM::Literal(s@),
            Command::Quoted(v) => CommandM::Quoted(v.model()),
        }
    }
}

/// The models of the first `k` commands of `cmds`.
pub open spec fn cmds_model(cmds: &Vec<Command>, k: int) -> Seq<CommandM>
    decreases cmds, k,
{
    if k <= 0 || k > cmds@.len() {
        Seq::empty()
    } else {
        cmds_model(cmds, k - 1).push(cmds@[k - 1].model())
    }
}

/// The models of all commands of `cmds`, in order.
pub open spec fn cmds_m(cmds: &Vec<Command>) -> Seq<CommandM> {
    cmds_model(cmds, cmds@.len() as int)
}

pub(crate) proof fn lemma_cmds_model_prefix(cmds: &Vec<Command>, k: int)
    requires
        0 <= k <= cmds@.len(),
    ensures
        cmds_model(cmds, k).len() == k,
        forall|i: int| 0 <= i < k ==> #[trigger] cmds_model(cmds, k)[i] == cmds@[i].model(),
    decreases k,
{
    if k > 0 {
        lemma_cmds_model_prefix(cmds, k - 1);
    }
}

pub(crate) proof fn lemma_cmds_m(cmds: &Vec<Command>)
    ensures
        cmds_m(cmds).len() == cmds@.len(),
        forall|i: int| 0 <= i < cmds@.len() ==> #[trigger] cmds_m(cmds)[i] == cmds@[i].model(),
{
    lemma_cmds_model_prefix(cmds, cmds@.len() as int);
}

/// The models of a sequence of commands, one by one.
pub open spec fn models(s: Seq<Command>) -> Seq<CommandM> {
    Seq::new(s.len(), |i: int| s[i].model())
}

pub(crate) proof fn lemma_cmds_m_models(cmds: &Vec<Command>)
    ensures
        cmds_m(cmds) == models(cmds@),
{
    lemma_cmds_m(cmds);
    assert(cmds_m(cmds) =~= models(cmds@));
}

impl Command {
    /// A deep copy of the command.
    pub fn duplicate(&self) -> (r: Command)
        ensures
            r.model() == self.model(),
        decreases self, 0int,
    {
        match self {
            Command::Word(w) => Command::Word(*w),
            Command::Literal(s) => Command::Literal(s.clone()),
            Command::Quoted(v) => Command::Quoted(v.duplicate()),
        }
    }

    /// Structural equality of two commands.
    pub fn same_as(&self, other: &Command) -> (r: bool)
        ensures
            r == (self.model() == other.model()),
        decreases self, 0int,
    {
        match self {
            Command::Word(a) => match other {
                Command::Word(b) => *a == *b,
                _ => false,
            },
            Command::Literal(a) => match other {
                Command::Literal(b) => *a == *b,
                _ => false,
            },
            Command::Quoted(a) => match other {
                Command::Quoted(b) => a.same_as(b),
                _ => false,
            },
        }
    }
}

/// A deep copy of a sequence of commands.
pub(crate) fn duplicate_cmds(cmds: &Vec<Command>) -> (r: Vec<Command>)
    ensures
        cmds_m(&r) == cmds_m(cmds),
    decreases cmds, 1int,
{
    let mut r: Vec<Command> = Vec::new();
    let mut i: usize = 0;
    proof { lemma_cmds_m(cmds); }
    while i < cmds.len()
        invariant
            i <= cmds@.len(),
            r@.len() == i,
            cmds_m(cmds).len() == cmds@.len(),
            forall|j: int| 0 <= j < cmds@.len() ==> #[trigger] cmds_m(cmds)[j] == cmds@[j].model(),
            forall|j: int| 0 <= j < i ==> #[trigger] r@[j].model() == cmds@[j].model(),
        decreases cmds@.len() - i,
    {
        proof { broadcast use vstd::std_specs::vec::axiom_vec_index_decreases; }
        let c = cmds[i].duplicate();
        r.push(c);
        i = i + 1;
    }
    proof {
        lemma_cmds_m(&r);
        assert(cmds_m(&r) =~= cmds_m(cmds));
    }
    r
}

/// Structural equality of two sequences of commands.
pub(crate) fn same_cmds(a: &Vec<Command>, b: &Vec<Command>) -> (r: bool)
    ensures
        r == (cmds_m(a) == cmds_m(b)),
    decreases a, 1int,
{
    proof {
        lemma_cmds_m(a);
        lemma_cmds_m(b);
    }
    if a.len() != b.len() {
        return false;
    }
    let mut i: usize = 0;
    while i < a.len()
        invariant
            i <= a@.len(),
            a@.len() == b@.len(),
            cmds_m(a).len() == a@.len(),
            cmds_m(b).len() == b@.len(),
            forall|j: int| 0 <= j < a@.len() ==> #[trigger] cmds_m(a)[j] == a@[j].model(),
            forall|j: int| 0 <= j < b@.len() ==> #[trigger] cmds_m(b)[j] == b@[j].model(),
            forall|j: int| 0 <= j < i ==> a@[j].model() == b@[j].model(),
        decreases a@.len() - i,
    {
        proof { broadcast use vstd::std_specs::vec::axiom_vec_index_decreases; }
        if !a[i].same_as(&b[i]) {
            assert(cmds_m(a)[i as int] != cmds_m(b)[i as int]);
            return false;
        }
        i = i + 1;
    }
    assert(cmds_m(a) =~= cmds_m(b));
    true
}


/// The keyword that a lower-cased token names, by the alias table of the
/// language.
pub open spec fn word_of(s: Seq<char>) -> Option<Word> {
    if s == "{"@ || s == "["@ || s == "do"@ {
        Some(Word::BeginBlock)
    } else if s == "}"@ || s == "]"@ || s == "end"@ {
        Some(Word::EndBlock)
    } else if s == "{}"@ || s == "[]"@ || s == "nop"@ {
        Some(Word::EmptyBlock)
    } else if s == "t"@ || s == "true"@ {
        Some(Word::True)
    } else if s == "f"@ || s == "false"@ {
        Some(Word::False)
    } else if s == "\u{a4}"@ || s == "null"@ || s == "nil"@ {
        Some(Word::NullVal)
    } else if s == "size"@ {
        Some(Word::Size)
    } else if s == "len"@ || s == "length"@ {
        Some(Word::Length)
    } else if s == ";"@ || s == "dup"@ {
        Some(Word::Dup)
    } else if s == "$"@ || s == "swap"@ || s == "exch"@ {
        Some(Word::Swap)
    } else if s == "drop"@ {
        Some(Word::Drop)
    } else if s == "!"@ || s == "not"@ {
        Some(Word::Not)
    } else if s == "&&"@ || s == "&"@ || s == "and"@ {
        Some(Word::And)
    } else if s == "||"@ || s == "|"@ || s == "or"@ {
        Some(Word::Or)
    } else if s == "=="@ || s == "="@ || s == "eq"@ {
        Some(Word::Eq)
    } else if s == "!="@ || s == "~="@ || s == "neq"@ {
        Some(Word::Neq)
    } else if s == "gt"@ {
        Some(Word::GreaterThan)
    } else if s == "ge"@ {
        Some(Word::GreaterEquals)
    } else if s == "lt"@ {
        Some(Word::LessThan)
    } else if s == "le"@ {
        Some(Word::LessEquals)
    } else if s == "+"@ || s == "add"@ {
        Some(Word::Add)
    } else if s == "-"@ || s == "sub"@ {
        Some(Word::Sub)
    } else if s == "*"@ || s == "mul"@ {
        Some(Word::Mul)
    } else if s == "/"@ || s == "div"@ {
        Some(Word::Div)
    } else if s == "%"@ || s == "rem"@ {
        Some(Word::Rem)
    } else if s == "?"@ || s == "if"@ {
        Some(Word::If)
    } else if s == "assign"@ || s == "def"@ {
        Some(Word::Define)
    } else if s == "()"@ || s == "apply"@ {
        Some(Word::ApplyFunction)
    } else if s == "<"@ || s == "read"@ {
        Some(Word::Read)
    } else if s == "split"@ {
        Some(Word::Split)
    } else if s == "get"@ {
        Some(Word::Get)
    } else if s == "dupget"@ {
        Some(Word::DupGet)
    } else if s == "move"@ {
        Some(Word::Move)
    } else if s == "grab"@ {
        Some(Word::Grab)
    } else if s == "dupgrab"@ {
        Some(Word::DupGrab)
    } else if s == "#"@ || s == "num"@ || s == "castnum"@ {
        Some(Word::CastNum)
    } else if s == "tofloat"@ {
        Some(Word::ToFloat)
    } else if s == "toint"@ {
        Some(Word::ToInt)
    } else if s == "tobool"@ {
        Some(Word::ToBool)
    } else if s == "type"@ {
        Some(Word::Type)
    } else if s == ">"@ || s == "wrte"@ || s == "write"@ {
        Some(Word::Write)
    } else if s == "_"@ || s == "prnt"@ || s == "print"@ {
        Some(Word::Print)
    } else if s == "pack"@ {
        Some(Word::Pack)
    } else if s == "include"@ {
        Some(Word::Include)
    } else {
        None
    }
}

/// The command of a token, given the token lower-cased: the keyword that it
/// names, else a literal of the token as it was written.
pub open spec fn classify(lower: Seq<char>, token: Seq<char>) -> CommandM {
    match word_of(lower) {
        Some(w) => CommandM::Word(w),
        None => CommandM::Literal(token),
    }
}

fn is(s: &Vec<char>, lit: &str) -> (r: bool)
    ensures
        r == (s@ == lit@),
{
    same_chars(s, &chars_of(lit))
}

/// Looks a lower-cased token up in the alias table.
pub(crate) fn lookup_word(s: &Vec<char>) -> (r: Option<Word>)
    ensures
        r == word_of(s@),
{
    if is(s, "{") || is(s, "[") || is(s, "do") {
        Some(Word::BeginBlock)
    } else if is(s, "}") || is(s, "]") || is(s, "end") {
        Some(Word::EndBlock)
    } else if is(s, "{}") || is(s, "[]") || is(s, "nop") {
        Some(Word::EmptyBlock)
    } else if is(s, "t") || is(s, "true") {
        Some(Word::True)
    } else if is(s, "f") || is(s, "false") {
        Some(Word::False)
    } else if is(s, "\u{a4}") || is(s, "null") || is(s, "nil") {
        Some(Word::NullVal)
    } else if is(s, "size") {
        Some(Word::Size)
    } else if is(s, "len") || is(s, "length") {
        Some(Word::Length)
    } else if is(s, ";") || is(s, "dup") {
        Some(Word::Dup)
    } else if is(s, "$") || is(s, "swap") || is(s, "exch") {
        Some(Word::Swap)
    } else if is(s, "drop") {
        Some(Word::Drop)
    } else if is(s, "!") || is(s, "not") {
        Some(Word::Not)
    } else if is(s, "&&") || is(s, "&") || is(s, "and") {
        Some(Word::And)
    } else if is(s, "||") || is(s, "|") || is(s, "or") {
        Some(Word::Or)
    } else if is(s, "==") || is(s, "=") || is(s, "eq") {
        Some(Word::Eq)
    } else if is(s, "!=") || is(s, "~=") || is(s, "neq") {
        Some(Word::Neq)
    } else if is(s, "gt") {
        Some(Word::GreaterThan)
    } else if is(s, "ge") {
        Some(Word::GreaterEquals)
    } else if is(s, "lt") {
        Some(Word::LessThan)
    } else if is(s, "le") {
        Some(Word::LessEquals)
    } else if is(s, "+") || is(s, "add") {
        Some(Word::Add)
    } else if is(s, "-") || is(s, "sub") {
        Some(Word::Sub)
    } else if is(s, "*") || is(s, "mul") {
        Some(Word::Mul)
    } else if is(s, "/") || is(s, "div") {
        Some(Word::Div)
    } else if is(s, "%") || is(s, "rem") {
        Some(Word::Rem)
    } else if is(s, "?") || is(s, "if") {
        Some(Word::If)
    } else if is(s, "assign") || is(s, "def") {
        Some(Word::Define)
    } else if is(s, "()") || is(s, "apply") {
        Some(Word::ApplyFunction)
    } else if is(s, "<") || is(s, "read") {
        Some(Word::Read)
    } else if is(s, "split") {
        Some(Word::Split)
    } else if is(s, "get") {
        Some(Word::Get)
    } else if is(s, "dupget") {
        Some(Word::DupGet)
    } else if is(s, "move") {
        Some(Word::Move)
    } else if is(s, "grab") {
        Some(Word::Grab)
    } else if is(s, "dupgrab") {
        Some(Word::DupGrab)
    } else if is(s, "#") || is(s, "num") || is(s, "castnum") {
        Some(Word::CastNum)
    } else if is(s, "tofloat") {
        Some(Word::ToFloat)
    } else if is(s, "toint") {
        Some(Word::ToInt)
    } else if is(s, "tobool") {
        Some(Word::ToBool)
    } else if is(s, "type") {
        Some(Word::Type)
    } else if is(s, ">") || is(s, "wrte") || is(s, "write") {
        Some(Word::Write)
    } else if is(s, "_") || is(s, "prnt") || is(s, "print") {
        Some(Word::Print)
    } else if is(s, "pack") {
        Some(Word::Pack)
    } else if is(s, "include") {
        Some(Word::Include)
    } else {
        None
    }
}

/// The name of what `str::to_lowercase` returns.
pub uninterp spec fn lower_of(s: Seq<char>) -> Seq<char>;

/// Relies on `str::to_lowercase`: the result depends on the characters alone.
#[verifier::external_body]
fn lowercase(s: &str) -> (r: String)
    ensures
        r@ == lower_of(s@),
{
    s.to_lowercase()
}

impl Command {
    /// Classifies a token whose lower-cased form is given: a keyword by the
    /// alias table, else a literal of the token.
    pub fn from_lowered(lower: &str, token: &str) -> (r: Command)
        ensures
            r.model() == classify(lower@, token@),
    {
        match lookup_word(&chars_of(lower)) {
            Some(w) => Command::Word(w),
            None => Command::Literal(token.to_owned()),
        }
    }

    /// Classifies a token, case-insensitively: a keyword by the alias table,
    /// else a literal of the token.
    pub fn from_str(cmd: &str) -> (r: Command)
        ensures
            r.model() == classify(lower_of(cmd@), cmd@),
    {
        let lower = lowercase(cmd);
        Command::from_lowered(lower.as_str(), cmd)
    }
}

} // verus!
