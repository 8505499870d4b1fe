//! A small DFA that splits a slice of text into the tokens that matter for
//! wikilinks: brackets, pipes, newlines and runs of other characters.
//!
//! Every special character is ASCII, so the automaton reads UTF-8 bytes: a
//! multi-byte character only ever continues a word. Token ranges are byte
//! offsets into the original source.
use core::ops::Range;
use vstd::prelude::*;
use vstd::string::StringSliceAdditionalSpecFns;

verus! {

#[derive(Debug, PartialEq, Eq, Structural, Clone, Copy)]
pub enum Token {
    Pipe,
    RBra,
    LBra,
    RRBra,
    LLBra,
    Word,
    NewLine,
}

/// Possible states of the automaton.
#[derive(Debug, PartialEq, Eq, Structural, Clone, Copy)]
pub enum State {
    Default,
    AfterPipe,
    AfterOpen1,
    AfterOpen2,
    AfterOpen3,
    AfterClose1,
    AfterClose2,
    AfterClose3,
    AfterSymbol,
    AfterReturn,
}

impl Default for State {
    fn default() -> (r: Self)
        ensures
            r == State::Default,
    {
        State::Default
    }
}

/// The token that is pending when the automaton rests in state `s`.
pub open spec fn pending_token(s: State) -> Option<Token> {
    match s {
        State::AfterPipe => Some(Token::Pipe),
        State::AfterOpen1 => Some(Token::LBra),
        State::AfterOpen2 => Some(Token::LLBra),
        State::AfterOpen3 => Some(Token::LBra),
        State::AfterClose1 => Some(Token::RBra),
        State::AfterClose2 => Some(Token::RRBra),
        State::AfterClose3 => Some(Token::RBra),
        State::AfterSymbol => Some(Token::Word),
        State::AfterReturn => Some(Token::NewLine),
        State::Default => None,
    }
}

/// One transition: the next state, and whether the pending token of the
/// current state is finished by this byte.
pub open spec fn step(s: State, b: u8) -> (State, bool) {
    if b == 13u8 {
        (s, false)
    } else if b == 10u8 {
        (State::AfterReturn, true)
    } else if b == 91u8 {
        match s {
            State::AfterOpen1 => (State::AfterOpen2, false),
            State::AfterOpen2 => (State::AfterOpen3, true),
            State::AfterOpen3 => (State::AfterOpen3, true),
            _ => (State::AfterOpen1, true),
        }
    } else if b == 93u8 {
        match s {
            State::AfterClose1 => (State::AfterClose2, false),
            State::AfterClose2 => (State::AfterClose3, true),
            State::AfterClose3 => (State::AfterClose3, true),
            _ => (State::AfterClose1, true),
        }
    } else if b == 124u8 {
        (State::AfterPipe, true)
    } else {
        match s {
            State::AfterSymbol => (State::AfterSymbol, false),
            _ => (State::AfterSymbol, true),
        }
    }
}

/// The tokens produced from byte `i` of `bytes` on, in state `state`, the
/// last token having ended at `last_end`; byte `j` sits at offset `base + j`.
pub open spec fn lex_from(bytes: Seq<u8>, i: int, state: State, last_end: int, base: int) -> Seq<
    (Token, int, int),
>
    decreases bytes.len() - i,
{
    if i >= bytes.len() {
        match pending_token(state) {
            Some(t) => seq![(t, last_end, base + bytes.len())],
            None => seq![],
        }
    } else {
        let (next, done) = step(state, bytes[i]);
        let pos = base + i;
        if done && pending_token(state) is Some {
            seq![(pending_token(state)->0, last_end, pos)] + lex_from(bytes, i + 1, next, pos, base)
        } else {
            lex_from(bytes, i + 1, next, last_end, base)
        }
    }
}

/// The whole tokenization of `bytes`, placed at offset `base`.
pub open spec fn lex(bytes: Seq<u8>, base: int) -> Seq<(Token, int, int)> {
    lex_from(bytes, 0, State::Default, base, base)
}

/// A token with its range, as plain integers.
pub open spec fn token_view(t: (Token, Range<usize>)) -> (Token, int, int) {
    (t.0, t.1.start as int, t.1.end as int)
}

/// Whether every byte of `bytes` from `i` on is a carriage return.
pub open spec fn all_cr_from(bytes: Seq<u8>, i: int) -> bool {
    forall|j: int| i <= j < bytes.len() ==> bytes[j] == 13u8
}

/// The tokens lie end to end, each with `start <= end`, from `a` to `b`.
pub open spec fn tiles(toks: Seq<(Token, int, int)>, a: int, b: int) -> bool
    decreases toks.len(),
{
    if toks.len() == 0 {
        a == b
    } else {
        toks[0].1 == a && toks[0].1 <= toks[0].2 && tiles(toks.drop_first(), toks[0].2, b)
    }
}

/// The text of each token, taken from `bytes` (which sits at offset `base`),
/// joined in order.
pub open spec fn joined_slices(bytes: Seq<u8>, base: int, toks: Seq<(Token, int, int)>) -> Seq<u8>
    decreases toks.len(),
{
    if toks.len() == 0 {
        seq![]
    } else {
        bytes.subrange(toks[0].1 - base, toks[0].2 - base) + joined_slices(
            bytes,
            base,
            toks.drop_first(),
        )
    }
}

proof fn lemma_lex_from_tiles(bytes: Seq<u8>, i: int, state: State, last_end: int, base: int)
    requires
        0 <= i <= bytes.len(),
        last_end <= base + i,
    ensures
        state != State::Default ==> tiles(
            lex_from(bytes, i, state, last_end, base),
            last_end,
            base + bytes.len(),
        ),
        state == State::Default ==> if all_cr_from(bytes, i) {
            lex_from(bytes, i, state, last_end, base).len() == 0
        } else {
            tiles(lex_from(bytes, i, state, last_end, base), last_end, base + bytes.len())
        },
    decreases bytes.len() - i,
{
    if i < bytes.len() {
        let (next, done) = step(state, bytes[i]);
        let pos = base + i;
        assert(state != State::Default ==> next != State::Default);
        if done && pending_token(state) is Some {
            lemma_lex_from_tiles(bytes, i + 1, next, pos, base);
            let rest = lex_from(bytes, i + 1, next, pos, base);
            let all = seq![(pending_token(state)->0, last_end, pos)] + rest;
            assert(all.drop_first() =~= rest);
        } else {
            lemma_lex_from_tiles(bytes, i + 1, next, last_end, base);
        }
    } else {
        let all = lex_from(bytes, i, state, last_end, base);
        if state != State::Default {
            assert(all.drop_first().len() == 0);
            assert(tiles(all.drop_first(), base + bytes.len(), base + bytes.len()));
        }
    }
}

proof fn lemma_joined_tiling(bytes: Seq<u8>, base: int, toks: Seq<(Token, int, int)>, a: int, b: int)
    requires
        tiles(toks, a, b),
        base <= a,
        b <= base + bytes.len(),
    ensures
        joined_slices(bytes, base, toks) =~= bytes.subrange(a - base, b - base),
    decreases toks.len(),
{
    if toks.len() > 0 {
        lemma_tiles_ordered(toks.drop_first(), toks[0].2, b);
        lemma_joined_tiling(bytes, base, toks.drop_first(), toks[0].2, b);
    }
}

proof fn lemma_tiles_ordered(toks: Seq<(Token, int, int)>, a: int, b: int)
    requires
        tiles(toks, a, b),
    ensures
        a <= b,
    decreases toks.len(),
{
    if toks.len() > 0 {
        lemma_tiles_ordered(toks.drop_first(), toks[0].2, b);
    }
}

/// Joining the text of every token, in order, gives back the input: all of
/// it, or nothing when the input holds carriage returns only (those are the
/// bytes that no token takes).
pub proof fn lemma_tokens_rebuild_source(bytes: Seq<u8>, base: int)
    ensures
        joined_slices(bytes, base, lex(bytes, base)) == (if all_cr_from(bytes, 0) {
            Seq::<u8>::empty()
        } else {
            bytes
        }),
{
    lemma_lex_from_tiles(bytes, 0, State::Default, base, base);
    if all_cr_from(bytes, 0) {
        assert(joined_slices(bytes, base, lex(bytes, base)) =~= Seq::<u8>::empty());
    } else {
        lemma_joined_tiling(bytes, base, lex(bytes, base), base, base + bytes.len());
        assert(bytes.subrange(0, bytes.len() as int) =~= bytes);
    }
}

/// The tokens of `bytes` lie end to end over the whole input, unless the
/// input holds carriage returns only, which gives no token at all.
pub proof fn lemma_lex_tiles(bytes: Seq<u8>, base: int)
    ensures
        lex(bytes, base).len() == 0 || tiles(lex(bytes, base), base, base + bytes.len()),
{
    lemma_lex_from_tiles(bytes, 0, State::Default, base, base);
}

/// Some byte other than a carriage return gives at least one token.
pub proof fn lemma_lex_nonempty(bytes: Seq<u8>, base: int, k: int)
    requires
        0 <= k < bytes.len(),
        bytes[k] != 13u8,
    ensures
        lex(bytes, base).len() > 0,
{
    lemma_lex_from_tiles(bytes, 0, State::Default, base, base);
    assert(!all_cr_from(bytes, 0));
    if lex(bytes, base).len() == 0 {
        assert(tiles(lex(bytes, base), base, base + bytes.len()));
    }
}

impl State {
    /// `s.finalize()` returns the extra token that would be returned
    /// if the stream ended in the state `s`.
    pub fn finalize(self) -> (r: Option<Token>)
        ensures
            r == pending_token(self),
    {
        match self {
            State::AfterPipe => Some(Token::Pipe),
            State::AfterOpen1 => Some(Token::LBra),
            State::AfterOpen2 => Some(Token::LLBra),
            State::AfterOpen3 => Some(Token::LBra),
            State::AfterClose1 => Some(Token::RBra),
            State::AfterClose2 => Some(Token::RRBra),
            State::AfterClose3 => Some(Token::RBra),
            State::AfterSymbol => Some(Token::Word),
            State::AfterReturn => Some(Token::NewLine),
            State::Default => None,
        }
    }

    /// One transition of the automaton on byte `b`.
    pub fn advance(self, b: u8) -> (r: (State, bool))
        ensures
            r == step(self, b),
    {
        if b == 13u8 {
            (self, false)
        } else if b == 10u8 {
            (State::AfterReturn, true)
        } else if b == 91u8 {
            match self {
                State::AfterOpen1 => (State::AfterOpen2, false),
                State::AfterOpen2 => (State::AfterOpen3, true),
                State::AfterOpen3 => (State::AfterOpen3, true),
                _ => (State::AfterOpen1, true),
            }
        } else if b == 93u8 {
            match self {
                State::AfterClose1 => (State::AfterClose2, false),
                State::AfterClose2 => (State::AfterClose3, true),
                State::AfterClose3 => (State::AfterClose3, true),
                _ => (State::AfterClose1, true),
            }
        } else if b == 124u8 {
            (State::AfterPipe, true)
        } else {
            match self {
                State::AfterSymbol => (State::AfterSymbol, false),
                _ => (State::AfterSymbol, true),
            }
        }
    }
}

pub struct Lexer<'a> {
    /// the state of the automaton
    state: State,
    /// the bytes of the slice being tokenized
    source: &'a [u8],
    /// how many bytes of `source` have been read
    pos: usize,
    /// the offset, in the original text, of the next byte to read
    cursor: usize,
    /// where the last returned token ended
    last_token_end: usize,
}

impl<'a> Lexer<'a> {
    /// The offset of the slice in the original text.
    pub closed spec fn base(&self) -> int {
        self.cursor - self.pos
    }

    pub closed spec fn wf(&self) -> bool {
        &&& self.pos <= self.source@.len()
        &&& self.pos <= self.cursor
        &&& self.base() + self.source@.len() <= usize::MAX
        &&& self.last_token_end <= self.cursor
    }

    /// The tokens that are still to come.
    pub closed spec fn remaining(&self) -> Seq<(Token, int, int)> {
        lex_from(
            self.source@,
            self.pos as int,
            self.state,
            self.last_token_end as int,
            self.base(),
        )
    }

    /// A lexer over `source`, whose first byte sits at offset `index` of the
    /// original text.
    pub fn new_at(source: &'a str, index: usize) -> (r: Lexer<'a>)
        requires
            index + source.spec_bytes().len() <= usize::MAX,
        ensures
            r.wf(),
            r.remaining() == lex(source.spec_bytes(), index as int),
    {
        Lexer {
            source: source.as_bytes(),
            cursor: index,
            state: State::Default,
            pos: 0,
            last_token_end: index,
        }
    }

    /// The next token and its range, or `None` once the slice is exhausted.
    pub fn next(&mut self) -> (r: Option<(Token, Range<usize>)>)
        requires
            old(self).wf(),
        ensures
            final(self).wf(),
            old(self).remaining().len() == 0 ==> r is None && final(self).remaining().len() == 0,
            old(self).remaining().len() > 0 ==> {
                &&& r is Some
                &&& token_view(r->0) == old(self).remaining()[0]
                &&& final(self).remaining() == old(self).remaining().drop_first()
            },
    {
        while self.pos < self.source.len()
            invariant
                self.wf(),
                self.remaining() == old(self).remaining(),
            decreases self.source@.len() - self.pos,
        {
            let c = self.source[self.pos];
            let state = self.state;
            let (new_state, done) = state.advance(c);
            let last_cursor = self.cursor;
            self.state = new_state;
            self.pos = self.pos + 1;
            self.cursor = self.cursor + 1;
            if done {
                match state.finalize() {
                    Some(t) => {
                        let start = self.last_token_end;
                        self.last_token_end = last_cursor;
                        return Some((t, Range { start, end: last_cursor }));
                    },
                    None => {},
                }
            }
        }
        let state = self.state;
        self.state = State::Default;
        match state.finalize() {
            Some(t) => {
                let start = self.last_token_end;
                self.last_token_end = self.cursor;
                Some((t, Range { start, end: self.cursor }))
            },
            None => None,
        }
    }

    /// All the tokens still to come, in order.
    pub fn tokens(&mut self) -> (r: Vec<(Token, Range<usize>)>)
        requires
            old(self).wf(),
        ensures
            final(self).wf(),
            final(self).remaining().len() == 0,
            r@.map_values(|t: (Token, Range<usize>)| token_view(t)) == old(self).remaining(),
    {
        let mut r: Vec<(Token, Range<usize>)> = Vec::new();
        loop
            invariant
                self.wf(),
                r@.map_values(|t: (Token, Range<usize>)| token_view(t)) + self.remaining()
                    == old(self).remaining(),
            decreases self.remaining().len(),
        {
            let ghost before = r@;
            match self.next() {
                Some(t) => {
                    r.push(t);
                    assert(r@.map_values(|t: (Token, Range<usize>)| token_view(t)) =~= before.map_values(
                        |t: (Token, Range<usize>)| token_view(t),
                    ).push(token_view(t)));
                },
                None => {
                    assert(self.remaining() =~= Seq::<(Token, int, int)>::empty());
                    assert(r@.map_values(|t: (Token, Range<usize>)| token_view(t)) + self.remaining()
                        =~= r@.map_values(|t: (Token, Range<usize>)| token_view(t)));
                    return r;
                },
            }
        }
    }
}

} // verus!
