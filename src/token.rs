//! Splitting source text into tokens.

use vstd::prelude::*;

use crate::text::{chars_of, is_whitespace, is_ws, string_of};

verus! {

/// Where the tokenizer stands: the tokens so far, the token being read, and
/// whether a quote is open (whitespace then belongs to the token).
pub struct TokState {
    pub tokens: Seq<Seq<char>>,
    pub buf: Seq<char>,
    pub quoted: bool,
}

/// One character read by the tokenizer.
pub open spec fn tok_step(st: TokState, c: char) -> TokState {
    if is_ws(c) && !st.quoted {
        if st.buf.len() > 0 {
            TokState { tokens: st.tokens.push(st.buf), buf: Seq::empty(), quoted: false }
        } else {
            st
        }
    } else {
        TokState { buf: st.buf.push(c), quoted: if c == '"' { !st.quoted } else { st.quoted }, ..st }
    }
}

/// The tokenizer after reading `cs` from the start.
pub open spec fn tok_run(cs: Seq<char>) -> TokState
    decreases cs.len(),
{
    if cs.len() == 0 {
        TokState { tokens: Seq::empty(), buf: Seq::empty(), quoted: false }
    } else {
        tok_step(tok_run(cs.drop_last()), cs.last())
    }
}

/// The tokens of a text: runs of characters ended by whitespace, where a `"`
/// opens or closes a span in which whitespace is part of the token. The
/// quotes stay in the token; the last token needs no whitespace after it.
pub open spec fn tokens_of(cs: Seq<char>) -> Seq<Seq<char>> {
    let st = tok_run(cs);
    if st.buf.len() > 0 {
        st.tokens.push(st.buf)
    } else {
        st.tokens
    }
}

/// The texts of a list of strings.
pub open spec fn texts(v: Seq<String>) -> Seq<Seq<char>> {
    Seq::new(v.len(), |i: int| v[i]@)
}

/// Splits a text into tokens.
pub fn tokenize(text: &str) -> (r: Vec<String>)
    ensures
        texts(r@) == tokens_of(text@),
{
    let cs = chars_of(text);
    let mut tokens: Vec<String> = Vec::new();
    let mut buf: Vec<char> = Vec::new();
    let mut quoted = false;
    let mut i: usize = 0;
    proof {
        assert(texts(tokens@) =~= Seq::<Seq<char>>::empty());
        assert(buf@ =~= Seq::<char>::empty());
        assert(cs@.subrange(0, 0) =~= Seq::<char>::empty());
    }
    while i < cs.len()
        invariant
            i <= cs@.len(),
            cs@ == text@,
            tok_run(cs@.subrange(0, i as int)) == (TokState { tokens: texts(tokens@), buf: buf@, quoted }),
        decreases cs@.len() - i,
    {
        let c = cs[i];
        let ghost prev = TokState { tokens: texts(tokens@), buf: buf@, quoted };
        proof {
            assert(cs@.subrange(0, i + 1).drop_last() =~= cs@.subrange(0, i as int));
            assert(cs@.subrange(0, i + 1).last() == c);
        }
        if is_whitespace(c) && !quoted {
            if buf.len() > 0 {
                let t = string_of(&buf);
                tokens.push(t);
                buf = Vec::new();
                quoted = false;
                proof {
                    assert(texts(tokens@) =~= prev.tokens.push(prev.buf));
                    assert(buf@ =~= Seq::<char>::empty());
                }
            }
        } else {
            buf.push(c);
            if c == '"' {
                quoted = !quoted;
            }
        }
        i = i + 1;
    }
    proof {
        assert(cs@.subrange(0, i as int) =~= cs@);
    }
    if buf.len() > 0 {
        let ghost before = texts(tokens@);
        let t = string_of(&buf);
        tokens.push(t);
        proof {
            assert(texts(tokens@) =~= before.push(t@));
        }
    }
    tokens
}

} // verus!
