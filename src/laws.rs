//! Laws of the language, proved over the models.

use vstd::prelude::*;

use crate::cmd::{CommandM, Word};
use crate::engine::{drop_n, exec_step, is_indexed, pack_cmds, pack_one, rtop, step_spec, EffectM};
use crate::state::resolve;
use crate::state::StateM;
use crate::text::repeat_seq;
use crate::value::{eq_spec, flatten_spec, multiplicity_ok, ValueM};

verus! {

// ---- equality ----

/// Equality is reflexive on every value but a variable.
pub proof fn lemma_eq_reflexive(a: ValueM)
    requires
        !(a is Variable),
    ensures
        eq_spec(a, a),
{
}

/// Equality is symmetric.
pub proof fn lemma_eq_symmetric(a: ValueM, b: ValueM)
    ensures
        eq_spec(a, b) == eq_spec(b, a),
{
}

/// A variable is equal to nothing, itself included.
pub proof fn lemma_variable_never_equal(a: ValueM, b: ValueM)
    requires
        a is Variable,
    ensures
        !eq_spec(a, b),
        !eq_spec(b, a),
{
}

// ---- block nesting ----

/// How a command moves the nesting depth of the source: an open marker adds
/// one, a close marker takes one away.
pub open spec fn depth_delta(c: CommandM) -> int {
    if c == CommandM::Word(Word::BeginBlock) {
        1
    } else if c == CommandM::Word(Word::EndBlock) {
        -1
    } else {
        0
    }
}

/// The opens of `cs` less its closes.
pub open spec fn depth(cs: Seq<CommandM>) -> int
    decreases cs.len(),
{
    if cs.len() == 0 {
        0
    } else {
        depth(cs.drop_last()) + depth_delta(cs.last())
    }
}

/// No prefix of `cs` closes more blocks than it opens.
pub open spec fn never_below(cs: Seq<CommandM>) -> bool {
    forall|k: int| 0 <= k <= cs.len() ==> depth(#[trigger] cs.subrange(0, k)) >= 0
}

/// A source of nested blocks: no prefix closes more than it opens, and every
/// command but a marker stands inside a block.
pub open spec fn nested_source(cs: Seq<CommandM>) -> bool {
    &&& never_below(cs)
    &&& forall|k: int|
        0 <= k < cs.len() && depth_delta(cs[k]) == 0 ==> depth(#[trigger] cs.subrange(0, k)) >= 1
}

/// Runs commands one after the other; `None` as soon as one fails or leaves
/// work to the outside.
pub open spec fn run_cmds(s: StateM, cs: Seq<CommandM>) -> Option<StateM>
    decreases cs.len(),
{
    if cs.len() == 0 {
        Some(s)
    } else {
        match run_cmds(s, cs.drop_last()) {
            Some(s1) => {
                let (s2, r) = step_spec(s1, cs.last());
                if r == Ok::<EffectM, crate::err::Error>(EffectM::Nothing) {
                    Some(s2)
                } else {
                    None
                }
            },
            None => None,
        }
    }
}

proof fn lemma_depth_bound(cs: Seq<CommandM>)
    ensures
        -cs.len() <= depth(cs) <= cs.len(),
    decreases cs.len(),
{
    if cs.len() > 0 {
        lemma_depth_bound(cs.drop_last());
    }
}

proof fn lemma_depth_concat(a: Seq<CommandM>, b: Seq<CommandM>)
    ensures
        depth(a + b) == depth(a) + depth(b),
    decreases b.len(),
{
    if b.len() == 0 {
        assert(a + b =~= a);
    } else {
        lemma_depth_concat(a, b.drop_last());
        assert((a + b).drop_last() =~= a + b.drop_last());
    }
}

proof fn lemma_run_concat(s: StateM, a: Seq<CommandM>, b: Seq<CommandM>)
    ensures
        run_cmds(s, a + b) == match run_cmds(s, a) {
            Some(s1) => run_cmds(s1, b),
            None => None,
        },
    decreases b.len(),
{
    if b.len() == 0 {
        assert(a + b =~= a);
    } else {
        lemma_run_concat(s, a, b.drop_last());
        assert((a + b).drop_last() =~= a + b.drop_last());
    }
}

/// The depth of a source of nested blocks follows its markers: run from
/// depth 0, every command succeeds and the depth reached is the opens less
/// the closes, so it is back at 0 exactly when they balance.
pub proof fn lemma_nesting_follows_markers(s: StateM, cs: Seq<CommandM>)
    requires
        s.nesting == 0,
        nested_source(cs),
        cs.len() < u64::MAX,
    ensures
        run_cmds(s, cs) is Some,
        run_cmds(s, cs)->0.nesting == depth(cs),
        run_cmds(s, cs)->0.nesting == 0 <==> depth(cs) == 0,
    decreases cs.len(),
{
    if cs.len() > 0 {
        let p = cs.drop_last();
        assert forall|k: int| 0 <= k <= p.len() implies depth(#[trigger] p.subrange(0, k)) >= 0 by {
            assert(p.subrange(0, k) =~= cs.subrange(0, k));
        }
        assert forall|k: int| 0 <= k < p.len() && depth_delta(p[k]) == 0 implies depth(#[trigger] p.subrange(0, k)) >= 1 by {
            assert(p.subrange(0, k) =~= cs.subrange(0, k));
        }
        lemma_nesting_follows_markers(s, p);
        lemma_depth_bound(p);
        assert(cs.subrange(0, cs.len() as int) =~= cs);
        assert(cs.subrange(0, cs.len() - 1) =~= p);
        assert(depth(cs.subrange(0, cs.len() as int)) >= 0);
    }
}

/// One close marker more than a balanced source of nested blocks opens
/// fails with `NoBlockStarted`.
pub proof fn lemma_extra_close_fails(s: StateM, cs: Seq<CommandM>)
    requires
        s.nesting == 0,
        nested_source(cs),
        depth(cs) == 0,
        cs.len() < u64::MAX,
    ensures
        run_cmds(s, cs) is Some,
        step_spec(run_cmds(s, cs)->0, CommandM::Word(Word::EndBlock)).1 == Err::<EffectM, crate::err::Error>(
            crate::err::Error::NoBlockStarted,
        ),
{
    lemma_nesting_follows_markers(s, cs);
}

proof fn lemma_exec_keeps_capture(s: StateM, c: CommandM)
    ensures
        exec_step(s, c).0.nesting == s.nesting,
        exec_step(s, c).0.temp == s.temp,
{
}

/// The depth follows the markers in any run: when a sequence of commands
/// (top-level commands and the contents of applied blocks included, in the
/// order in which they run) runs from depth 0 with nothing recorded and
/// every command succeeds, no prefix closed more blocks than it opened, the
/// depth reached is the opens less the closes, and at depth 0 nothing is
/// left recorded.
pub proof fn lemma_nesting_counts_markers(s: StateM, cs: Seq<CommandM>)
    requires
        s.nesting == 0,
        s.temp == Seq::<CommandM>::empty(),
        run_cmds(s, cs) is Some,
    ensures
        never_below(cs),
        run_cmds(s, cs)->0.nesting == depth(cs),
        run_cmds(s, cs)->0.nesting == 0 ==> run_cmds(s, cs)->0.temp == Seq::<CommandM>::empty(),
    decreases cs.len(),
{
    if cs.len() == 0 {
        assert forall|k: int| 0 <= k <= cs.len() implies depth(#[trigger] cs.subrange(0, k)) >= 0 by {
            assert(cs.subrange(0, k) =~= Seq::<CommandM>::empty());
        }
    } else {
        let p = cs.drop_last();
        lemma_nesting_counts_markers(s, p);
        let s1 = run_cmds(s, p)->0;
        lemma_exec_keeps_capture(s1, cs.last());
        assert forall|k: int| 0 <= k <= cs.len() implies depth(#[trigger] cs.subrange(0, k)) >= 0 by {
            if k < cs.len() {
                assert(cs.subrange(0, k) =~= p.subrange(0, k));
            } else {
                assert(cs.subrange(0, k) =~= cs);
            }
        }
    }
}

// ---- quoting a stack and applying it ----

/// A command sequence that closes every block it opens and never closes
/// more than it has opened.
pub open spec fn balanced(cs: Seq<CommandM>) -> bool {
    never_below(cs) && depth(cs) == 0
}

/// The contents of a block value are balanced (any other value qualifies).
pub open spec fn well_formed_value(v: ValueM) -> bool {
    match v {
        ValueM::Block(_, c) => balanced(c),
        _ => true,
    }
}

proof fn lemma_record(s: StateM, x: Seq<CommandM>)
    requires
        s.nesting >= 1,
        never_below(x),
        s.nesting + x.len() < u64::MAX,
    ensures
        run_cmds(s, x) == Some(StateM { nesting: (s.nesting + depth(x)) as u64, temp: s.temp + x, ..s }),
    decreases x.len(),
{
    if x.len() == 0 {
        assert(s.temp + x =~= s.temp);
    } else {
        let p = x.drop_last();
        assert forall|k: int| 0 <= k <= p.len() implies depth(#[trigger] p.subrange(0, k)) >= 0 by {
            assert(p.subrange(0, k) =~= x.subrange(0, k));
        }
        lemma_record(s, p);
        lemma_depth_bound(p);
        assert(x.subrange(0, x.len() as int) =~= x);
        assert(x.subrange(0, x.len() - 1) =~= p);
        assert(depth(x.subrange(0, x.len() as int)) >= 0);
        assert(depth(x.subrange(0, x.len() - 1)) >= 0);
        assert(s.temp + p.push(x.last()) =~= (s.temp + p).push(x.last()));
        assert(p.push(x.last()) =~= x);
    }
}

proof fn lemma_balanced_concat(a: Seq<CommandM>, b: Seq<CommandM>)
    requires
        balanced(a),
        balanced(b),
    ensures
        balanced(a + b),
{
    lemma_depth_concat(a, b);
    assert forall|k: int| 0 <= k <= (a + b).len() implies depth(#[trigger] (a + b).subrange(0, k)) >= 0 by {
        if k <= a.len() {
            assert((a + b).subrange(0, k) =~= a.subrange(0, k));
        } else {
            assert((a + b).subrange(0, k) =~= a + b.subrange(0, k - a.len()));
            lemma_depth_concat(a, b.subrange(0, k - a.len()));
            assert(a.subrange(0, a.len() as int) =~= a);
        }
    }
}

proof fn lemma_repeat_balanced(c: Seq<CommandM>, n: nat)
    requires
        balanced(c),
    ensures
        balanced(repeat_seq(c, n)),
    decreases n,
{
    if n == 0 {
        let e = repeat_seq(c, n);
        assert forall|k: int| 0 <= k <= e.len() implies depth(#[trigger] e.subrange(0, k)) >= 0 by {
            assert(e.subrange(0, k) =~= Seq::<CommandM>::empty());
        }
    } else {
        lemma_repeat_balanced(c, (n - 1) as nat);
        lemma_balanced_concat(repeat_seq(c, (n - 1) as nat), c);
    }
}

proof fn lemma_pack_one(s: StateM, v: ValueM)
    requires
        s.nesting == 0,
        s.temp == Seq::<CommandM>::empty(),
        well_formed_value(v),
        pack_one(v).len() < u64::MAX,
    ensures
        run_cmds(s, pack_one(v)) == Some(StateM { stack: s.stack.push(flatten_spec(v)), ..s }),
{
    match v {
        ValueM::Block(n, c) => {
            let open = seq![CommandM::Word(Word::BeginBlock)];
            let body = repeat_seq(c, n as nat);
            let close = seq![CommandM::Word(Word::EndBlock)];
            assert(pack_one(v) == open + body + close);
            lemma_run_concat(s, open + body, close);
            lemma_run_concat(s, open, body);
            assert(open.drop_last() =~= Seq::<CommandM>::empty());
            assert(run_cmds(s, open.drop_last()) == Some(s));
            let s1 = StateM { nesting: 1, ..s };
            assert(step_spec(s, open.last()) == (s1, Ok::<EffectM, crate::err::Error>(EffectM::Nothing)));
            assert(run_cmds(s, open) == Some(s1));
            lemma_repeat_balanced(c, n as nat);
            lemma_record(s1, body);
            assert(s1.temp + body =~= body);
            let s2 = StateM { nesting: 1, temp: body, ..s };
            assert(run_cmds(s1, body) == Some(s2));
            assert(close.drop_last() =~= Seq::<CommandM>::empty());
            assert(run_cmds(s2, close.drop_last()) == Some(s2));
            assert(run_cmds(s2, close) == Some(StateM { stack: s.stack.push(ValueM::Block(1, body)), ..s }));
            assert(run_cmds(s, open + body) == Some(s2));
            assert(run_cmds(s, pack_one(v)) == run_cmds(s2, close));
            assert(flatten_spec(v) == ValueM::Block(1, body));
            assert(StateM { stack: s.stack.push(ValueM::Block(1, body)), ..s } == StateM { stack: s.stack.push(flatten_spec(v)), ..s });
            assert(run_cmds(s, pack_one(v)) == Some(StateM { stack: s.stack.push(flatten_spec(v)), ..s }));
        },
        _ => {
            let q = seq![CommandM::Quoted(v)];
            assert(q.drop_last() =~= Seq::<CommandM>::empty());
            assert(run_cmds(s, q.drop_last()) == Some(s));
            assert(pack_one(v) == q);
        },
    }
}

proof fn lemma_pack_all(s: StateM, st: Seq<ValueM>)
    requires
        s.nesting == 0,
        s.temp == Seq::<CommandM>::empty(),
        forall|i: int| 0 <= i < st.len() ==> well_formed_value(#[trigger] st[i]),
        pack_cmds(st).len() < u64::MAX,
    ensures
        run_cmds(s, pack_cmds(st)) == Some(StateM { stack: s.stack + st.map_values(|v: ValueM| flatten_spec(v)), ..s }),
    decreases st.len(),
{
    if st.len() == 0 {
        assert(s.stack + st.map_values(|v: ValueM| flatten_spec(v)) =~= s.stack);
    } else {
        let p = st.drop_last();
        lemma_pack_all(s, p);
        lemma_run_concat(s, pack_cmds(p), pack_one(st.last()));
        let s1 = StateM { stack: s.stack + p.map_values(|v: ValueM| flatten_spec(v)), ..s };
        lemma_pack_one(s1, st.last());
        assert((s.stack + p.map_values(|v: ValueM| flatten_spec(v))).push(flatten_spec(st.last()))
            =~= s.stack + st.map_values(|v: ValueM| flatten_spec(v)));
    }
}

/// `pack` then `apply` re-creates the stack: `pack` leaves one block whose
/// commands are the stack's values re-quoted, `apply` puts those commands in
/// front of the ones still to run, and running them from there (with
/// nothing else interleaved) rebuilds every value, blocks with their
/// multiplicity written out. This needs no block being recorded and the
/// blocks on the stack balanced.
pub proof fn lemma_pack_apply_round_trip(s: StateM)
    requires
        s.nesting == 0,
        s.temp == Seq::<CommandM>::empty(),
        forall|i: int| 0 <= i < s.stack.len() ==> well_formed_value(#[trigger] s.stack[i]),
        pack_cmds(s.stack).len() < u64::MAX,
    ensures
        ({
            let (s1, r1) = step_spec(s, CommandM::Word(Word::Pack));
            let (s2, r2) = step_spec(s1, CommandM::Word(Word::ApplyFunction));
            &&& r1 == Ok::<EffectM, crate::err::Error>(EffectM::Nothing)
            &&& r2 == Ok::<EffectM, crate::err::Error>(EffectM::Nothing)
            &&& s2.pending == pack_cmds(s.stack) + s.pending
            &&& run_cmds(StateM { pending: s.pending, ..s2 }, pack_cmds(s.stack)) == Some(
                StateM { stack: s.stack.map_values(|v: ValueM| flatten_spec(v)), ..s },
            )
        }),
{
    let pk = pack_cmds(s.stack);
    let s1 = StateM { stack: seq![ValueM::Block(1, pk)], ..s };
    assert(step_spec(s, CommandM::Word(Word::Pack)) == (s1, Ok::<EffectM, crate::err::Error>(EffectM::Nothing)));
    assert(s1.stack.subrange(0, 0) =~= Seq::<ValueM>::empty());
    assert(repeat_seq(pk, 1) =~= pk) by {
        assert(repeat_seq(pk, 0) =~= Seq::<CommandM>::empty());
    }
    let s0 = StateM { stack: Seq::empty(), ..s };
    lemma_pack_all(s0, s.stack);
    assert(Seq::<ValueM>::empty() + s.stack.map_values(|v: ValueM| flatten_spec(v)) =~= s.stack.map_values(|v: ValueM| flatten_spec(v)));
}

// ---- indexes past the end ----

/// How far an index may reach for an indexed command: the length of the
/// target for `get`, `dupget` and `split` (`split` may cut at the very end),
/// the number of values below the index for the stack commands.
pub open spec fn index_limit(w: Word, s1: StateM) -> int {
    match w {
        Word::Split => match flatten_spec(rtop(s1, 0)) {
            ValueM::Block(_, c) => c.len() as int + 1,
            ValueM::Str(x) => x.len() as int + 1,
            _ => 0,
        },
        Word::Get => match flatten_spec(rtop(s1, 0)) {
            ValueM::Block(_, c) => c.len() as int,
            ValueM::Str(x) => x.len() as int,
            _ => 0,
        },
        Word::DupGet => match rtop(s1, 0) {
            ValueM::Block(m, c) => m * c.len(),
            ValueM::Str(x) => x.len() as int,
            _ => 0,
        },
        _ => s1.stack.len() as int,
    }
}

/// The target of an indexed command is of a kind that the command reads (a
/// block or a string for `get`, `dupget` and `split`; anything for the
/// stack commands), and there is one where the command needs it.
pub open spec fn target_ok(w: Word, s1: StateM) -> bool {
    match w {
        Word::Split | Word::Get | Word::DupGet => s1.stack.len() > 0 && (rtop(s1, 0) is Block
            || rtop(s1, 0) is Str),
        Word::Move => s1.stack.len() > 0,
        _ => true,
    }
}

/// An index at or past what an indexed command may reach fails with
/// `OutOfBounds` (and so does a negative one).
pub proof fn lemma_index_past_end_fails(s: StateM, w: Word, n: i64)
    requires
        s.nesting == 0,
        is_indexed(w),
        s.stack.len() > 0,
        rtop(s, 0) == ValueM::Integer(n),
        target_ok(w, drop_n(s, 1)),
        n >= index_limit(w, drop_n(s, 1)) || n < 0,
    ensures
        step_spec(s, CommandM::Word(w)).1 == Err::<EffectM, crate::err::Error>(crate::err::Error::OutOfBounds),
{
    let s1 = drop_n(s, 1);
    if s1.stack.len() > 0 {
        assert(rtop(s1, 0) == resolve(s.vars, s.stack[s.stack.len() - 2]));
    }
}

// ---- multiplicities ----

/// Every block on the stack and in the table of variables has multiplicity
/// at least 1.
pub open spec fn multiplicities_ok(s: StateM) -> bool {
    &&& forall|i: int| 0 <= i < s.stack.len() ==> multiplicity_ok(#[trigger] s.stack[i])
    &&& forall|k: Seq<char>| s.vars.contains_key(k) ==> multiplicity_ok(#[trigger] s.vars[k])
}

proof fn lemma_rtop_ok(s: StateM, k: int)
    requires
        multiplicities_ok(s),
        0 <= k < s.stack.len(),
    ensures
        multiplicity_ok(rtop(s, k)),
{
    assert(multiplicity_ok(s.stack[s.stack.len() - 1 - k]));
}

/// No command makes a block of multiplicity 0: if every block held by the
/// state has multiplicity at least 1 (and so does a quoted value that the
/// command pushes), the same holds after the command.
pub proof fn lemma_step_keeps_multiplicity(s: StateM, c: CommandM)
    requires
        multiplicities_ok(s),
        c is Quoted ==> multiplicity_ok(c->Quoted_0),
    ensures
        multiplicities_ok(step_spec(s, c).0),
{
    let len = s.stack.len();
    if len >= 1 {
        lemma_rtop_ok(s, 0);
    }
    if len >= 2 {
        lemma_rtop_ok(s, 1);
    }
    if len >= 3 {
        lemma_rtop_ok(s, 2);
    }
    let s1 = drop_n(s, 1);
    if len >= 2 {
        lemma_rtop_ok(s1, 0);
    }
}

} // verus!
