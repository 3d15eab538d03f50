use vstd::prelude::*;

use crate::cmd::{cmds_m, lemma_cmds_m, Command, CommandM, Word};
use crate::err::Error;
use crate::value::{Value, ValueM};

verus! {

/// The interpreter's state: the operand stack (top at the end), the table of
/// variables, the nesting depth of the block being recorded with the commands
/// recorded so far, and the commands still to run (the next one at the end).
pub struct State {
    stack: Vec<Value>,
    block_nesting: u64,
    vars: Vec<(String, Value)>,
    temp: Vec<Command>,
    pending: Vec<Command>,
}

/// The mathematical model of a state. `pending` lists the commands still to
/// run in the order in which they run.
pub struct StateM {
    pub stack: Seq<ValueM>,
    pub vars: Map<Seq<char>, ValueM>,
    pub nesting: u64,
    pub temp: Seq<CommandM>,
    pub pending: Seq<CommandM>,
}

/// The models of a sequence of values.
pub open spec fn values_m(v: Seq<Value>) -> Seq<ValueM> {
    Seq::new(v.len(), |i: int| v[i].model())
}

/// The table of variables that a list of distinct names with their values
/// holds.
pub open spec fn vars_m(v: Seq<(String, Value)>) -> Map<Seq<char>, ValueM> {
    Map::new(
        |k: Seq<char>| exists|i: int| 0 <= i < v.len() && (#[trigger] v[i]).0@ == k,
        |k: Seq<char>| v[choose|i: int| 0 <= i < v.len() && (#[trigger] v[i]).0@ == k].1.model(),
    )
}

/// The value that the resolving reads give for `v`: a variable's bound value
/// where it has one, else `v` itself.
pub open spec fn resolve(vars: Map<Seq<char>, ValueM>, v: ValueM) -> ValueM {
    match v {
        ValueM::Variable(name) => if vars.contains_key(name) {
            vars[name]
        } else {
            v
        },
        _ => v,
    }
}

/// The absolute position of the `n`-th value from the top of a stack of
/// `len` values.
pub open spec fn from_top(len: int, n: int) -> int {
    len - n - 1
}

impl State {
    pub closed spec fn model(&self) -> StateM {
        StateM {
            stack: values_m(self.stack@),
            vars: vars_m(self.vars@),
            nesting: self.block_nesting,
            temp: cmds_m(&self.temp),
            pending: values_rev_cmds(self.pending@),
        }
    }

    /// The names in the table of variables are distinct.
    pub closed spec fn wf(&self) -> bool {
        forall|i: int, j: int|
            0 <= i < self.vars@.len() && 0 <= j < self.vars@.len() && i != j ==> (#[trigger] self.vars@[i]).0@
                != (#[trigger] self.vars@[j]).0@
    }
}

/// The models of commands held with the next one at the end, in the order in
/// which they run.
pub open spec fn values_rev_cmds(v: Seq<Command>) -> Seq<CommandM> {
    Seq::new(v.len(), |i: int| v[v.len() - 1 - i].model())
}

proof fn lemma_values_m_push(v: Seq<Value>, x: Value)
    ensures
        values_m(v.push(x)) == values_m(v).push(x.model()),
{
    assert(values_m(v.push(x)) =~= values_m(v).push(x.model()));
}

proof fn lemma_values_m_update()
    ensures
        forall|v: Seq<Value>, i: int, x: Value|
            0 <= i < v.len() ==> #[trigger] values_m(v.update(i, x)) == values_m(v).update(i, x.model()),
{
    assert forall|v: Seq<Value>, i: int, x: Value|
        0 <= i < v.len() implies #[trigger] values_m(v.update(i, x)) == values_m(v).update(i, x.model()) by {
        assert(values_m(v.update(i, x)) =~= values_m(v).update(i, x.model()));
    }
}

proof fn lemma_values_m_drop_last(v: Seq<Value>)
    requires
        v.len() > 0,
    ensures
        values_m(v.drop_last()) == values_m(v).drop_last(),
{
    assert(values_m(v.drop_last()) =~= values_m(v).drop_last());
}

impl State {
    /// An empty state: no values, no variables, no block being recorded,
    /// nothing to run.
    pub fn new() -> (r: State)
        ensures
            r.wf(),
            r.model().stack == Seq::<ValueM>::empty(),
            r.model().vars == Map::<Seq<char>, ValueM>::empty(),
            r.model().nesting == 0,
            r.model().temp == Seq::<CommandM>::empty(),
            r.model().pending == Seq::<CommandM>::empty(),
    {
        let r = State {
            stack: Vec::new(),
            block_nesting: 0,
            vars: Vec::new(),
            temp: Vec::new(),
            pending: Vec::new(),
        };
        proof {
            crate::cmd::lemma_cmds_m(&r.temp);
            assert(r.model().stack =~= Seq::<ValueM>::empty());
            assert(r.model().vars =~= Map::<Seq<char>, ValueM>::empty());
            assert(r.model().temp =~= Seq::<CommandM>::empty());
            assert(r.model().pending =~= Seq::<CommandM>::empty());
        }
        r
    }

    /// The operand stack, bottom first.
    pub fn stack(&self) -> (r: &Vec<Value>)
        ensures
            values_m(r@) == self.model().stack,
    {
        &self.stack
    }

    /// The nesting depth of the block being recorded (0 when none is).
    pub fn block_nesting(&self) -> (r: u64)
        ensures
            r == self.model().nesting,
    {
        self.block_nesting
    }

    /// The commands recorded so far for the block being recorded.
    pub fn temp(&self) -> (r: &Vec<Command>)
        ensures
            cmds_m(r) == self.model().temp,
    {
        &self.temp
    }

    /// Takes every value off the stack, bottom first.
    pub fn drain_stack(&mut self) -> (r: Vec<Value>)
        requires
            old(self).wf(),
        ensures
            final(self).wf(),
            values_m(r@) == old(self).model().stack,
            final(self).model() == (StateM { stack: Seq::empty(), ..old(self).model() }),
    {
        let mut r: Vec<Value> = Vec::new();
        std::mem::swap(&mut r, &mut self.stack);
        proof {
            assert(values_m(self.stack@) =~= Seq::<ValueM>::empty());
        }
        r
    }

    /// Pushes a value on top of the stack.
    pub fn push(&mut self, val: Value)
        requires
            old(self).wf(),
        ensures
            final(self).wf(),
            final(self).model() == (StateM { stack: old(self).model().stack.push(val.model()), ..old(self).model() }),
    {
        proof {
            lemma_values_m_push(self.stack@, val);
        }
        self.stack.push(val);
    }

    /// Takes the top value off the stack as it stands, a variable included.
    pub fn pop_pure(&mut self) -> (r: Result<Value, Error>)
        requires
            old(self).wf(),
        ensures
            final(self).wf(),
            old(self).model().stack.len() == 0 ==> r == Err::<Value, Error>(Error::EmptyStack) && final(self).model() == old(self).model(),
            old(self).model().stack.len() > 0 ==> r is Ok && r->Ok_0.model() == old(self).model().stack.last()
                && final(self).model() == (StateM { stack: old(self).model().stack.drop_last(), ..old(self).model() }),
    {
        match self.stack.pop() {
            Some(v) => {
                proof {
                    lemma_values_m_drop_last(old(self).stack@);
                }
                Ok(v)
            },
            None => Err(Error::EmptyStack),
        }
    }

    /// Takes the top value off the stack; a variable with a bound value gives
    /// a copy of that value.
    pub fn pop(&mut self) -> (r: Result<Value, Error>)
        requires
            old(self).wf(),
        ensures
            final(self).wf(),
            old(self).model().stack.len() == 0 ==> r == Err::<Value, Error>(Error::EmptyStack) && final(self).model() == old(self).model(),
            old(self).model().stack.len() > 0 ==> r is Ok && r->Ok_0.model() == resolve(old(self).model().vars, old(self).model().stack.last())
                && final(self).model() == (StateM { stack: old(self).model().stack.drop_last(), ..old(self).model() }),
    {
        let v = self.pop_pure()?;
        match v {
            Value::Variable(name) => match self.get_var(name.as_str()) {
                Some(bound) => Ok(bound.duplicate()),
                None => Ok(Value::Variable(name)),
            },
            v => Ok(v),
        }
    }

    /// The top value of the stack, as it stands.
    pub fn peek_pure(&self) -> (r: Result<&Value, Error>)
        ensures
            self.model().stack.len() == 0 ==> r == Err::<&Value, Error>(Error::EmptyStack),
            self.model().stack.len() > 0 ==> r is Ok && r->Ok_0.model() == self.model().stack.last(),
    {
        if self.stack.len() == 0 {
            Err(Error::EmptyStack)
        } else {
            Ok(&self.stack[self.stack.len() - 1])
        }
    }

    /// The top value of the stack; for a variable with a bound value, that
    /// value.
    pub fn peek(&self) -> (r: Result<&Value, Error>)
        requires
            self.wf(),
        ensures
            self.model().stack.len() == 0 ==> r == Err::<&Value, Error>(Error::EmptyStack),
            self.model().stack.len() > 0 ==> r is Ok && r->Ok_0.model() == resolve(self.model().vars, self.model().stack.last()),
    {
        let v = self.peek_pure()?;
        match v {
            Value::Variable(name) => match self.get_var(name.as_str()) {
                Some(bound) => Ok(bound),
                None => Ok(v),
            },
            _ => Ok(v),
        }
    }

    /// Inserts a value below the `n`-th value from the top (0 is the top).
    pub fn insert(&mut self, n: usize, val: Value) -> (r: Result<(), Error>)
        requires
            old(self).wf(),
        ensures
            final(self).wf(),
            n >= old(self).model().stack.len() ==> r == Err::<(), Error>(Error::OutOfBounds) && final(self).model() == old(self).model(),
            n < old(self).model().stack.len() ==> r is Ok && final(self).model() == (StateM {
                stack: old(self).model().stack.insert(from_top(old(self).model().stack.len() as int, n as int), val.model()),
                ..old(self).model()
            }),
    {
        if n >= self.stack.len() {
            return Err(Error::OutOfBounds);
        }
        let i = self.stack.len() - n - 1;
        self.stack.insert(i, val);
        proof {
            assert(values_m(self.stack@) =~= values_m(old(self).stack@).insert(i as int, val.model()));
        }
        Ok(())
    }

    /// The `n`-th value from the top (0 is the top), as it stands.
    pub fn nth(&self, n: usize) -> (r: Result<&Value, Error>)
        ensures
            n >= self.model().stack.len() ==> r == Err::<&Value, Error>(Error::OutOfBounds),
            n < self.model().stack.len() ==> r is Ok && r->Ok_0.model() == self.model().stack[from_top(self.model().stack.len() as int, n as int)],
    {
        if n >= self.stack.len() {
            return Err(Error::OutOfBounds);
        }
        Ok(&self.stack[self.stack.len() - n - 1])
    }

    /// Takes the `n`-th value from the top (0 is the top) out of the stack.
    pub fn take_nth(&mut self, n: usize) -> (r: Result<Value, Error>)
        requires
            old(self).wf(),
        ensures
            final(self).wf(),
            n >= old(self).model().stack.len() ==> r == Err::<Value, Error>(Error::OutOfBounds) && final(self).model() == old(self).model(),
            n < old(self).model().stack.len() ==> r is Ok
                && r->Ok_0.model() == old(self).model().stack[from_top(old(self).model().stack.len() as int, n as int)]
                && final(self).model() == (StateM {
                stack: old(self).model().stack.remove(from_top(old(self).model().stack.len() as int, n as int)),
                ..old(self).model()
            }),
    {
        if n >= self.stack.len() {
            return Err(Error::OutOfBounds);
        }
        let i = self.stack.len() - n - 1;
        let v = self.stack.remove(i);
        proof {
            assert(values_m(self.stack@) =~= values_m(old(self).stack@).remove(i as int));
        }
        Ok(v)
    }

    /// The value bound to a variable, if any.
    pub fn get_var(&self, var: &str) -> (r: Option<&Value>)
        requires
            self.wf(),
        ensures
            r is None == !self.model().vars.contains_key(var@),
            r is Some ==> r->0.model() == self.model().vars[var@],
    {
        let key = var.to_owned();
        let mut i: usize = 0;
        while i < self.vars.len()
            invariant
                self.wf(),
                key@ == var@,
                i <= self.vars@.len(),
                forall|j: int| 0 <= j < i ==> (#[trigger] self.vars@[j]).0@ != var@,
            decreases self.vars@.len() - i,
        {
            if self.vars[i].0 == key {
                proof {
                    assert(self.wf());
                    let k = choose|j: int| 0 <= j < self.vars@.len() && (#[trigger] self.vars@[j]).0@ == var@;
                    assert(k == i as int);
                }
                return Some(&self.vars[i].1);
            }
            i = i + 1;
        }
        None
    }

    /// Binds a variable to a value; a later binding replaces an earlier one.
    pub fn add_var(&mut self, var: String, val: Value)
        requires
            old(self).wf(),
        ensures
            final(self).wf(),
            final(self).model() == (StateM { vars: old(self).model().vars.insert(var@, val.model()), ..old(self).model() }),
    {
        let ghost key = var@;
        let ghost vm = val.model();
        let mut i: usize = 0;
        while i < self.vars.len()
            invariant
                i <= self.vars@.len(),
                self.vars@ == old(self).vars@,
                self.stack == old(self).stack,
                self.temp == old(self).temp,
                self.pending == old(self).pending,
                self.block_nesting == old(self).block_nesting,
                old(self).wf(),
                key == var@,
                vm == val.model(),
                forall|j: int| 0 <= j < i ==> (#[trigger] self.vars@[j]).0@ != key,
            decreases self.vars@.len() - i,
        {
            if self.vars[i].0 == var {
                self.vars.set(i, (var, val));
                proof {
                    let m = vars_m(self.vars@);
                    let o = vars_m(old(self).vars@);
                    assert forall|k: Seq<char>| m.dom().contains(k) == o.insert(key, vm).dom().contains(k) by {
                        if o.dom().contains(k) {
                            let w = choose|j: int| 0 <= j < old(self).vars@.len() && (#[trigger] old(self).vars@[j]).0@ == k;
                            assert(self.vars@[w].0@ == k);
                        }
                        if k == key {
                            assert(self.vars@[i as int].0@ == k);
                        }
                    }
                    assert(m.dom() =~= o.insert(key, vm).dom());
                    assert forall|k: Seq<char>| #[trigger] m.dom().contains(k) implies m[k] == o.insert(key, vm)[k] by {
                        let w = choose|j: int| 0 <= j < self.vars@.len() && (#[trigger] self.vars@[j]).0@ == k;
                        if k != key {
                            let w2 = choose|j: int| 0 <= j < old(self).vars@.len() && (#[trigger] old(self).vars@[j]).0@ == k;
                            assert(w2 != i);
                            assert(old(self).vars@[w2].0@ == self.vars@[w2].0@);
                            assert(w == w2);
                        } else {
                            assert(w == i);
                        }
                    }
                    assert(m =~= o.insert(key, vm));
                }
                return;
            }
            i = i + 1;
        }
        self.vars.push((var, val));
        proof {
            let m = vars_m(self.vars@);
            let o = vars_m(old(self).vars@);
            let last = self.vars@.len() - 1;
            assert forall|k: Seq<char>| m.dom().contains(k) == o.insert(key, vm).dom().contains(k) by {
                if o.dom().contains(k) {
                    let w = choose|j: int| 0 <= j < old(self).vars@.len() && (#[trigger] old(self).vars@[j]).0@ == k;
                    assert(self.vars@[w].0@ == k);
                }
                if k == key {
                    assert(self.vars@[last].0@ == k);
                }
                if m.dom().contains(k) && k != key {
                    let w = choose|j: int| 0 <= j < self.vars@.len() && (#[trigger] self.vars@[j]).0@ == k;
                    assert(w != last);
                    assert(old(self).vars@[w].0@ == k);
                }
            }
            assert(m.dom() =~= o.insert(key, vm).dom());
            assert forall|k: Seq<char>| #[trigger] m.dom().contains(k) implies m[k] == o.insert(key, vm)[k] by {
                let w = choose|j: int| 0 <= j < self.vars@.len() && (#[trigger] self.vars@[j]).0@ == k;
                if k != key {
                    let w2 = choose|j: int| 0 <= j < old(self).vars@.len() && (#[trigger] old(self).vars@[j]).0@ == k;
                    assert(self.vars@[w2].0@ == k);
                    assert(w == w2);
                } else {
                    assert(w == last);
                }
            }
            assert(m =~= o.insert(key, vm));
        }
    }
}

impl State {
    /// Opens a block: the depth grows by one, and an inner block's open
    /// marker is recorded. At the largest depth the type can count, fails with
    /// `OutOfBounds` and changes nothing.
    pub fn open_block(&mut self) -> (r: Result<(), Error>)
        requires
            old(self).wf(),
        ensures
            final(self).wf(),
            old(self).model().nesting == u64::MAX ==> r == Err::<(), Error>(Error::OutOfBounds) && final(self).model() == old(self).model(),
            old(self).model().nesting < u64::MAX ==> r is Ok && final(self).model() == (StateM {
                nesting: (old(self).model().nesting + 1) as u64,
                temp: if old(self).model().nesting >= 1 {
                    old(self).model().temp.push(CommandM::Word(Word::BeginBlock))
                } else {
                    old(self).model().temp
                },
                ..old(self).model()
            }),
    {
        if self.block_nesting == u64::MAX {
            return Err(Error::OutOfBounds);
        }
        self.block_nesting = self.block_nesting + 1;
        if self.block_nesting > 1 {
            self.record(Command::Word(Word::BeginBlock));
        }
        Ok(())
    }

    /// Closes a block. With none open, fails with `NoBlockStarted`. Closing
    /// the outermost block pushes what was recorded as a block of
    /// multiplicity 1 and empties the record; closing an inner one records
    /// its close marker.
    pub fn close_block(&mut self) -> (r: Result<(), Error>)
        requires
            old(self).wf(),
        ensures
            final(self).wf(),
            old(self).model().nesting == 0 ==> r == Err::<(), Error>(Error::NoBlockStarted) && final(self).model() == old(self).model(),
            old(self).model().nesting == 1 ==> r is Ok && final(self).model() == (StateM {
                stack: old(self).model().stack.push(ValueM::Block(1, old(self).model().temp)),
                nesting: 0,
                temp: Seq::empty(),
                ..old(self).model()
            }),
            old(self).model().nesting > 1 ==> r is Ok && final(self).model() == (StateM {
                nesting: (old(self).model().nesting - 1) as u64,
                temp: old(self).model().temp.push(CommandM::Word(Word::EndBlock)),
                ..old(self).model()
            }),
    {
        if self.block_nesting == 0 {
            Err(Error::NoBlockStarted)
        } else if self.block_nesting == 1 {
            self.block_nesting = 0;
            let mut t: Vec<Command> = Vec::new();
            std::mem::swap(&mut t, &mut self.temp);
            proof {
                lemma_cmds_m(&self.temp);
                assert(cmds_m(&self.temp) =~= Seq::<CommandM>::empty());
            }
            self.push(Value::Block(1, t));
            Ok(())
        } else {
            self.block_nesting = self.block_nesting - 1;
            self.record(Command::Word(Word::EndBlock));
            Ok(())
        }
    }

    /// Records a command in the block being recorded.
    pub fn record(&mut self, cmd: Command)
        requires
            old(self).wf(),
        ensures
            final(self).wf(),
            final(self).model() == (StateM { temp: old(self).model().temp.push(cmd.model()), ..old(self).model() }),
    {
        proof {
            lemma_cmds_m(&self.temp);
        }
        self.temp.push(cmd);
        proof {
            lemma_cmds_m(&self.temp);
            assert(cmds_m(&self.temp) =~= cmds_m(&old(self).temp).push(cmd.model()));
        }
    }

    /// Puts commands in front of those still to run, in order: they run
    /// next.
    pub fn schedule(&mut self, cmds: Vec<Command>)
        requires
            old(self).wf(),
        ensures
            final(self).wf(),
            final(self).model() == (StateM { pending: cmds_m(&cmds) + old(self).model().pending, ..old(self).model() }),
    {
        let ghost orig = cmds_m(&cmds);
        proof {
            lemma_cmds_m(&cmds);
        }
        let mut cmds = cmds;
        let ghost all = cmds@;
        let ghost n = all.len();
        let ghost base = self.pending@;
        while cmds.len() > 0
            invariant
                cmds@ == all.subrange(0, cmds@.len() as int),
                cmds@.len() <= n,
                n == all.len(),
                orig.len() == n,
                forall|j: int| 0 <= j < n ==> #[trigger] orig[j] == all[j].model(),
                self.pending@.len() == base.len() + (n - cmds@.len()),
                self.pending@.subrange(0, base.len() as int) == base,
                forall|j: int| 0 <= j < n - cmds@.len() ==> #[trigger] self.pending@[base.len() + j] == all[n - 1 - j],
                self.stack == old(self).stack,
                self.vars == old(self).vars,
                self.temp == old(self).temp,
                self.block_nesting == old(self).block_nesting,
                base == old(self).pending@,
                old(self).wf(),
            decreases cmds@.len(),
        {
            let c = cmds.pop().unwrap();
            self.pending.push(c);
            proof {
                assert(self.pending@.subrange(0, base.len() as int) =~= base);
            }
        }
        proof {
            let want = orig + old(self).model().pending;
            let got = values_rev_cmds(self.pending@);
            assert forall|j: int| 0 <= j < got.len() implies #[trigger] got[j] == want[j] by {
                if j < n {
                    assert(self.pending@[base.len() + (n - 1 - j)] == all[j]);
                } else {
                    assert(self.pending@[base.len() - 1 - (j - n)] == base[base.len() - 1 - (j - n)]);
                }
            }
            assert(got =~= want);
        }
    }

    /// Takes the next command to run, if any.
    pub fn next_command(&mut self) -> (r: Option<Command>)
        requires
            old(self).wf(),
        ensures
            final(self).wf(),
            old(self).model().pending.len() == 0 ==> r is None && final(self).model() == old(self).model(),
            old(self).model().pending.len() > 0 ==> r is Some && r->0.model() == old(self).model().pending[0]
                && final(self).model() == (StateM { pending: old(self).model().pending.drop_first(), ..old(self).model() }),
    {
        let r = self.pending.pop();
        proof {
            if old(self).pending@.len() > 0 {
                assert(values_rev_cmds(self.pending@) =~= values_rev_cmds(old(self).pending@).drop_first());
            }
        }
        r
    }

    /// Drops every command still to run.
    pub fn clear_pending(&mut self)
        requires
            old(self).wf(),
        ensures
            final(self).wf(),
            final(self).model() == (StateM { pending: Seq::empty(), ..old(self).model() }),
    {
        self.pending.clear();
        proof {
            assert(values_rev_cmds(self.pending@) =~= Seq::<CommandM>::empty());
        }
    }
}

impl State {
    /// The stack as it is shown: each variable with a bound value replaced by
    /// a copy of that value.
    pub fn shown_stack(&self) -> (r: Vec<Value>)
        requires
            self.wf(),
        ensures
            values_m(r@) == self.model().stack.map_values(|v: ValueM| resolve(self.model().vars, v)),
    {
        let mut out: Vec<Value> = Vec::new();
        let mut i: usize = 0;
        while i < self.stack.len()
            invariant
                self.wf(),
                i <= self.stack@.len(),
                out@.len() == i,
                forall|j: int| 0 <= j < i ==> #[trigger] out@[j].model() == resolve(self.model().vars, self.stack@[j].model()),
            decreases self.stack@.len() - i,
        {
            let v = match &self.stack[i] {
                Value::Variable(name) => match self.get_var(name.as_str()) {
                    Some(bound) => bound.duplicate(),
                    None => self.stack[i].duplicate(),
                },
                other => other.duplicate(),
            };
            out.push(v);
            i = i + 1;
        }
        proof {
            assert(values_m(out@) =~= self.model().stack.map_values(|v: ValueM| resolve(self.model().vars, v)));
        }
        out
    }
}

impl State {
    /// The top value of the stack, to change in place.
    pub fn last_mut(&mut self) -> (r: Result<&mut Value, Error>)
        requires
            old(self).wf(),
        ensures
            old(self).model().stack.len() == 0 ==> r is Err && r->Err_0 == Error::EmptyStack && final(self).model() == old(self).model(),
            old(self).model().stack.len() > 0 ==> r is Ok && (*r->Ok_0).model() == old(self).model().stack.last(),
            old(self).model().stack.len() > 0 ==> final(self).wf() && final(self).model() == (StateM {
                stack: old(self).model().stack.update(old(self).model().stack.len() - 1, (*final(r->Ok_0)).model()),
                ..old(self).model()
            }),
    {
        let n = self.stack.len();
        if n == 0 {
            return Err(Error::EmptyStack);
        }
        proof {
            lemma_values_m_update();
        }
        Ok(&mut self.stack[n - 1])
    }
}

} // verus!
