//! Recognizes `[[target]]` and `[[target|alias]]` inside one run of text.
//!
//! The grammar is read off the token stream of [`crate::token`]: a link is
//! `[[`, a target up to the first `|` or `]]`, then either `]]` or `|`, an
//! alias up to the next `]]`, and `]]`. A link that the stream ends inside
//! is given back verbatim as text.
use crate::event::{Event, LinkType, Tag, TagEnd};
use crate::text::{lemma_ascii_sides, on_boundary, slice_text, utf8_of};
use crate::token::{lex, lex_from, pending_token, step, tiles, token_view, Lexer, State, Token};
use core::ops::Range;
use vstd::prelude::*;
use vstd::string::StringSliceAdditionalSpecFns;
use vstd::utf8::*;

verus! {

/// What the parser makes of the tokens, as byte ranges.
pub enum Piece {
    /// text copied from the source
    Text(int, int),
    /// a link: the range of its target, of its visible text, and of the
    /// whole construct
    Link { url: (int, int), text: (int, int), whole: (int, int) },
}

/// The first token at or after `k` that ends a link target (`|` or `]]`),
/// or `toks.len()` if there is none.
pub open spec fn field_end(toks: Seq<(Token, int, int)>, k: int) -> int
    decreases toks.len() - k,
{
    if k < 0 || k >= toks.len() {
        toks.len() as int
    } else if toks[k].0 == Token::Pipe || toks[k].0 == Token::RRBra {
        k
    } else {
        field_end(toks, k + 1)
    }
}

/// The first `]]` at or after `k`, or `toks.len()`.
pub open spec fn alias_end(toks: Seq<(Token, int, int)>, k: int) -> int
    decreases toks.len() - k,
{
    if k < 0 || k >= toks.len() {
        toks.len() as int
    } else if toks[k].0 == Token::RRBra {
        k
    } else {
        alias_end(toks, k + 1)
    }
}

/// The first `[[` at or after `k`, or `toks.len()`.
pub open spec fn text_end(toks: Seq<(Token, int, int)>, k: int) -> int
    decreases toks.len() - k,
{
    if k < 0 || k >= toks.len() {
        toks.len() as int
    } else if toks[k].0 == Token::LLBra {
        k
    } else {
        text_end(toks, k + 1)
    }
}

/// The `[[` at index `i` is closed by a `]]`: after the target, or after
/// the alias that follows a `|`.
pub open spec fn link_closes(toks: Seq<(Token, int, int)>, i: int) -> bool {
    let j = field_end(toks, i + 1);
    j < toks.len() && (toks[j].0 == Token::RRBra || alias_end(toks, j + 1) < toks.len())
}

/// The byte range covered by tokens `a` (included) to `b` (excluded); when
/// there are none, the empty range where token `a` starts.
pub open spec fn span(toks: Seq<(Token, int, int)>, a: int, b: int) -> (int, int) {
    if b > a {
        (toks[a].1, toks[b - 1].2)
    } else {
        (toks[a].1, toks[a].1)
    }
}

proof fn lemma_ends_bounds(toks: Seq<(Token, int, int)>, k: int)
    requires
        0 <= k <= toks.len(),
    ensures
        k <= field_end(toks, k) <= toks.len(),
        k <= alias_end(toks, k) <= toks.len(),
        k <= text_end(toks, k) <= toks.len(),
        field_end(toks, k) < toks.len() ==> toks[field_end(toks, k)].0 == Token::Pipe
            || toks[field_end(toks, k)].0 == Token::RRBra,
        alias_end(toks, k) < toks.len() ==> toks[alias_end(toks, k)].0 == Token::RRBra,
        text_end(toks, k) < toks.len() ==> toks[text_end(toks, k)].0 == Token::LLBra,
    decreases toks.len() - k,
{
    if k < toks.len() {
        lemma_ends_bounds(toks, k + 1);
    }
}

#[via_fn]
proof fn wiki_from_decreases(toks: Seq<(Token, int, int)>, i: int) {
    if 0 <= i < toks.len() {
        lemma_ends_bounds(toks, i + 1);
        let j = field_end(toks, i + 1);
        if j < toks.len() {
            lemma_ends_bounds(toks, j + 1);
        }
    }
}

/// The pieces made from the tokens at index `i` and after.
pub open spec fn wiki_from(toks: Seq<(Token, int, int)>, i: int) -> Seq<Piece>
    decreases toks.len() - i,
    via wiki_from_decreases
{
    if i < 0 || i >= toks.len() {
        seq![]
    } else if toks[i].0 == Token::LLBra {
        let failed = Piece::Text(toks[i].1, toks.last().2);
        let j = field_end(toks, i + 1);
        if j >= toks.len() {
            seq![failed]
        } else if toks[j].0 == Token::RRBra {
            let url = span(toks, i + 1, j);
            seq![Piece::Link { url, text: url, whole: (toks[i].1, toks[j].2) }] + wiki_from(
                toks,
                j + 1,
            )
        } else {
            let m = alias_end(toks, j + 1);
            if m >= toks.len() {
                seq![failed]
            } else {
                seq![
                    Piece::Link {
                        url: span(toks, i + 1, j),
                        text: span(toks, j + 1, m),
                        whole: (toks[i].1, toks[m].2),
                    },
                ] + wiki_from(toks, m + 1)
            }
        }
    } else if toks[i].0 == Token::NewLine {
        wiki_from(toks, i + 1)
    } else {
        let k = text_end(toks, i + 1);
        seq![Piece::Text(span(toks, i, k).0, span(toks, i, k).1)] + wiki_from(toks, k)
    }
}

/// A piece, with `usize` ranges.
pub enum Fragment {
    Text(Range<usize>),
    Link { url: Range<usize>, text: Range<usize>, whole: Range<usize> },
}

pub open spec fn pair(r: Range<usize>) -> (int, int) {
    (r.start as int, r.end as int)
}

pub open spec fn piece_of(f: Fragment) -> Piece {
    match f {
        Fragment::Text(r) => Piece::Text(r.start as int, r.end as int),
        Fragment::Link { url, text, whole } => Piece::Link {
            url: pair(url),
            text: pair(text),
            whole: pair(whole),
        },
    }
}

pub enum ParseError {
    /// no token was left to read
    Empty,
    /// the construct is unfinished: the range is to be read again as text
    ReParse(Range<usize>),
}

impl ParseError {
    /// `error.extend_before(start..end)` returns a new error
    /// that spans from `start` to the end of the error
    /// (`end` for an empty error).
    pub fn extend_before(self, r: Range<usize>) -> (e: ParseError)
        ensures
            e matches ParseError::ReParse(x) && x.start == r.start && x.end == match self {
                ParseError::Empty => r.end,
                ParseError::ReParse(r2) => r2.end,
            },
    {
        match self {
            ParseError::Empty => ParseError::ReParse(r),
            ParseError::ReParse(r2) => ParseError::ReParse(Range { start: r.start, end: r2.end }),
        }
    }
}

pub struct WikiParser {
    tokens: Vec<(Token, Range<usize>)>,
    pos: usize,
}

impl WikiParser {
    pub closed spec fn toks(&self) -> Seq<(Token, int, int)> {
        self.tokens@.map_values(|t: (Token, Range<usize>)| token_view(t))
    }

    pub closed spec fn position(&self) -> int {
        self.pos as int
    }

    pub closed spec fn wf(&self) -> bool {
        self.pos <= self.tokens@.len() <= usize::MAX
    }

    /// The pieces still to come.
    pub open spec fn rest(&self) -> Seq<Piece> {
        wiki_from(self.toks(), self.position())
    }

    /// A parser over the text `source[start..end]`.
    pub fn new_at(source: &str, start: usize, end: usize) -> (r: WikiParser)
        requires
            start <= end <= source.spec_bytes().len(),
            on_boundary(source.spec_bytes(), start as int),
            on_boundary(source.spec_bytes(), end as int),
        ensures
            r.wf(),
            r.toks() == lex(source.spec_bytes().subrange(start as int, end as int), start as int),
            r.position() == 0,
    {
        let text = crate::text::slice_str(source, start, end);
        let mut lexer = Lexer::new_at(text, start);
        let tokens = lexer.tokens();
        let _ = tokens.len();
        WikiParser { tokens, pos: 0 }
    }

    fn tok(&self, k: usize) -> (r: Token)
        requires
            k < self.tokens@.len(),
        ensures
            r == self.toks()[k as int].0,
    {
        self.tokens[k].0
    }

    fn start_of(&self, k: usize) -> (r: usize)
        requires
            k < self.tokens@.len(),
        ensures
            r == self.toks()[k as int].1,
    {
        self.tokens[k].1.start
    }

    fn end_of(&self, k: usize) -> (r: usize)
        requires
            k < self.tokens@.len(),
        ensures
            r == self.toks()[k as int].2,
    {
        self.tokens[k].1.end
    }

    /// In `[[url|link]]`, reads `url` and stops before the `|`.
    pub fn parse_wikilink_first_field(&mut self) -> (r: Result<Range<usize>, ParseError>)
        requires
            old(self).wf(),
        ensures
            final(self).wf(),
            final(self).toks() == old(self).toks(),
            ({
                let toks = old(self).toks();
                let k = old(self).position();
                let j = field_end(toks, k);
                if k >= toks.len() {
                    r matches Err(ParseError::Empty) && final(self).position() == k
                } else {
                    &&& final(self).position() == j
                    &&& j < toks.len() ==> (r matches Ok(x) && pair(x) == span(toks, k, j))
                    &&& j >= toks.len() ==> (r matches Err(ParseError::ReParse(x)) && pair(x)
                        == span(toks, k, j))
                }
            }),
    {
        if self.pos >= self.tokens.len() {
            return Err(ParseError::Empty);
        }
        let ghost k = self.pos as int;
        let ghost toks = self.toks();
        let start = self.start_of(self.pos);
        let mut end = start;
        while self.pos < self.tokens.len()
            invariant
                self.wf(),
                self.toks() == toks,
                toks == old(self).toks(),
                k == old(self).position(),
                k < toks.len(),
                k <= self.pos <= toks.len(),
                field_end(toks, self.pos as int) == field_end(toks, k),
                start == toks[k].1,
                end == span(toks, k, self.pos as int).1,
            decreases self.tokens@.len() - self.pos,
        {
            let t = self.tok(self.pos);
            if t == Token::Pipe || t == Token::RRBra {
                return Ok(Range { start, end });
            }
            end = self.end_of(self.pos);
            self.pos = self.pos + 1;
        }
        Err(ParseError::ReParse(Range { start, end }))
    }

    /// In `link]]`, reads `link` and stops before the `]]`.
    pub fn parse_wikilink_alias(&mut self) -> (r: Result<Range<usize>, ParseError>)
        requires
            old(self).wf(),
        ensures
            final(self).wf(),
            final(self).toks() == old(self).toks(),
            ({
                let toks = old(self).toks();
                let k = old(self).position();
                let m = alias_end(toks, k);
                if k >= toks.len() {
                    r matches Err(ParseError::Empty) && final(self).position() == k
                } else {
                    &&& final(self).position() == m
                    &&& m < toks.len() ==> (r matches Ok(x) && pair(x) == span(toks, k, m))
                    &&& m >= toks.len() ==> (r matches Err(ParseError::ReParse(x)) && pair(x)
                        == span(toks, k, m))
                }
            }),
    {
        if self.pos >= self.tokens.len() {
            return Err(ParseError::Empty);
        }
        let ghost k = self.pos as int;
        let ghost toks = self.toks();
        let start = self.start_of(self.pos);
        let mut end = start;
        while self.pos < self.tokens.len()
            invariant
                self.wf(),
                self.toks() == toks,
                toks == old(self).toks(),
                k == old(self).position(),
                k < toks.len(),
                k <= self.pos <= toks.len(),
                alias_end(toks, self.pos as int) == alias_end(toks, k),
                start == toks[k].1,
                end == span(toks, k, self.pos as int).1,
            decreases self.tokens@.len() - self.pos,
        {
            if self.tok(self.pos) == Token::RRBra {
                return Ok(Range { start, end });
            }
            end = self.end_of(self.pos);
            self.pos = self.pos + 1;
        }
        Err(ParseError::ReParse(Range { start, end }))
    }

    /// Parses an entire wikilink, `[[a shortcut url]]` or
    /// `[[a url|with some displayed content]]`, from the `[[` it stands on.
    pub fn parse_wikilink(&mut self) -> (r: Result<Fragment, ParseError>)
        requires
            old(self).wf(),
            old(self).position() < old(self).toks().len(),
            old(self).toks()[old(self).position()].0 == Token::LLBra,
        ensures
            final(self).wf(),
            final(self).toks() == old(self).toks(),
            r is Ok <==> link_closes(old(self).toks(), old(self).position()),
            match r {
                Ok(f) => {
                    &&& f is Link
                    &&& old(self).rest() == seq![piece_of(f)] + final(self).rest()
                },
                Err(ParseError::ReParse(x)) => {
                    &&& x.start == old(self).toks()[old(self).position()].1
                    &&& x.end == old(self).toks().last().2
                    &&& old(self).rest() == seq![Piece::Text(x.start as int, x.end as int)]
                    &&& final(self).position() == final(self).toks().len()
                    &&& final(self).rest().len() == 0
                },
                Err(ParseError::Empty) => false,
            },
    {
        let ghost toks = self.toks();
        let ghost i = self.pos as int;
        proof {
            assert(toks.len() == self.tokens@.len());
            lemma_ends_bounds(toks, i + 1);
        }
        let tag_start = self.start_of(self.pos);
        let tag_end = self.end_of(self.pos);
        self.pos = self.pos + 1;
        let url = match self.parse_wikilink_first_field() {
            Ok(x) => x,
            Err(e) => {
                return Err(e.extend_before(Range { start: tag_start, end: tag_end }));
            },
        };
        let j = self.pos;
        proof {
            lemma_ends_bounds(toks, j + 1);
        }
        if self.tok(j) == Token::RRBra {
            let end = self.end_of(j);
            self.pos = self.pos + 1;
            let text = Range { start: url.start, end: url.end };
            return Ok(Fragment::Link { url, text, whole: Range { start: tag_start, end } });
        }
        let pipe_end = self.end_of(j);
        self.pos = self.pos + 1;
        let alias = match self.parse_wikilink_alias() {
            Ok(x) => x,
            Err(e) => {
                return Err(e.extend_before(Range { start: tag_start, end: pipe_end }));
            },
        };
        let end = self.end_of(self.pos);
        self.pos = self.pos + 1;
        Ok(Fragment::Link { url, text: alias, whole: Range { start: tag_start, end } })
    }

    /// Reads plain text up to the next `[[` (start of a wikilink), which it
    /// leaves unread.
    pub fn parse_text(&mut self) -> (r: Range<usize>)
        requires
            old(self).wf(),
            old(self).position() < old(self).toks().len(),
        ensures
            final(self).wf(),
            final(self).toks() == old(self).toks(),
            final(self).position() == text_end(old(self).toks(), old(self).position()),
            pair(r) == span(old(self).toks(), old(self).position(), final(self).position()),
            old(self).toks()[old(self).position()].0 != Token::LLBra && old(
                self,
            ).toks()[old(self).position()].0 != Token::NewLine ==> old(self).rest() == seq![
                Piece::Text(r.start as int, r.end as int),
            ] + final(self).rest(),
    {
        let ghost toks = self.toks();
        let ghost i = self.pos as int;
        proof {
            assert(toks.len() == self.tokens@.len());
        }
        let start = self.start_of(self.pos);
        let mut end = start;
        while self.pos < self.tokens.len() && self.tok(self.pos) != Token::LLBra
            invariant
                self.wf(),
                self.toks() == toks,
                toks == old(self).toks(),
                i == old(self).position(),
                i < toks.len(),
                i <= self.pos <= toks.len(),
                text_end(toks, self.pos as int) == text_end(toks, i),
                start == toks[i].1,
                end == span(toks, i, self.pos as int).1,
            decreases self.tokens@.len() - self.pos,
        {
            end = self.end_of(self.pos);
            self.pos = self.pos + 1;
        }
        assert(text_end(toks, self.pos as int) == self.pos);
        Range { start, end }
    }

    /// The next piece, or `None` when the tokens are used up.
    pub fn next(&mut self) -> (r: Option<Fragment>)
        requires
            old(self).wf(),
        ensures
            final(self).wf(),
            final(self).toks() == old(self).toks(),
            old(self).rest().len() == 0 ==> r is None,
            old(self).rest().len() > 0 ==> (r matches Some(f) && piece_of(f) == old(self).rest()[0]
                && final(self).rest() == old(self).rest().drop_first()),
    {
        while self.pos < self.tokens.len() && self.tok(self.pos) == Token::NewLine
            invariant
                self.wf(),
                self.toks() == old(self).toks(),
                self.rest() == old(self).rest(),
            decreases self.tokens@.len() - self.pos,
        {
            self.pos = self.pos + 1;
        }
        if self.pos >= self.tokens.len() {
            return None;
        }
        if self.tok(self.pos) == Token::LLBra {
            match self.parse_wikilink() {
                Ok(f) => Some(f),
                Err(ParseError::ReParse(r)) => Some(Fragment::Text(r)),
                Err(ParseError::Empty) => None,
            }
        } else {
            let r = self.parse_text();
            Some(Fragment::Text(r))
        }
    }
}

} // verus!

verus! {

/// Every token starts and ends between two characters of `src`.
pub open spec fn on_boundaries(src: Seq<u8>, toks: Seq<(Token, int, int)>) -> bool {
    forall|k: int|
        0 <= k < toks.len() ==> on_boundary(src, #[trigger] toks[k].1) && on_boundary(
            src,
            toks[k].2,
        )
}

/// The tokens are in order, each within `[0, hi]` and with `start <= end`.
pub open spec fn sorted_within(toks: Seq<(Token, int, int)>, hi: int) -> bool {
    &&& forall|k: int| 0 <= k < toks.len() ==> 0 <= #[trigger] toks[k].1 <= toks[k].2 <= hi
    &&& forall|x: int, y: int| 0 <= x < y < toks.len() ==> #[trigger] toks[x].2 <= #[trigger] toks[y].1
}

proof fn lemma_lex_from_on_boundaries(
    src: Seq<u8>,
    start: int,
    end: int,
    i: int,
    state: State,
    last_end: int,
)
    requires
        valid_utf8(src),
        0 <= start <= end <= src.len(),
        on_boundary(src, start),
        on_boundary(src, end),
        on_boundary(src, last_end),
        0 <= i <= end - start,
        state != State::Default && state != State::AfterSymbol ==> i > 0 && src[start + i - 1]
            <= 0x7f,
    ensures
        on_boundaries(src, lex_from(src.subrange(start, end), i, state, last_end, start)),
    decreases end - start - i,
{
    let bytes = src.subrange(start, end);
    let toks = lex_from(bytes, i, state, last_end, start);
    if i < bytes.len() {
        let (next, done) = step(state, bytes[i]);
        let pos = start + i;
        assert(bytes[i] == src[pos]);
        if done && pending_token(state) is Some {
            if src[pos] <= 0x7f {
                lemma_ascii_sides(src, pos);
            } else {
                lemma_ascii_sides(src, pos - 1);
            }
            lemma_lex_from_on_boundaries(src, start, end, i + 1, next, pos);
            let rest = lex_from(bytes, i + 1, next, pos, start);
            assert forall|k: int| 0 <= k < toks.len() implies on_boundary(
                src,
                #[trigger] toks[k].1,
            ) && on_boundary(src, toks[k].2) by {
                if k > 0 {
                    assert(toks[k] == rest[k - 1]);
                }
            }
        } else {
            lemma_lex_from_on_boundaries(src, start, end, i + 1, next, last_end);
        }
    }
}

proof fn lemma_tiles_sorted(toks: Seq<(Token, int, int)>, a: int, b: int)
    requires
        tiles(toks, a, b),
        0 <= a,
    ensures
        sorted_within(toks, b),
        forall|k: int| 0 <= k < toks.len() ==> a <= #[trigger] toks[k].1,
    decreases toks.len(),
{
    if toks.len() > 0 {
        let rest = toks.drop_first();
        lemma_tiles_sorted(rest, toks[0].2, b);
        if rest.len() == 0 {
            assert(tiles(rest, toks[0].2, b));
        }
        assert forall|k: int| 0 <= k < toks.len() implies 0 <= #[trigger] toks[k].1 <= toks[k].2
            <= b by {
            if k > 0 {
                assert(toks[k] == rest[k - 1]);
            }
        }
        assert forall|x: int, y: int| 0 <= x < y < toks.len() implies #[trigger] toks[x].2
            <= #[trigger] toks[y].1 by {
            assert(toks[y] == rest[y - 1]);
            if x > 0 {
                assert(toks[x] == rest[x - 1]);
            }
        }
        assert forall|k: int| 0 <= k < toks.len() implies a <= #[trigger] toks[k].1 by {
            if k > 0 {
                assert(toks[k] == rest[k - 1]);
            }
        }
    }
}

/// Every range in the piece is well ordered, within `src` and between
/// characters.
pub open spec fn range_ok(src: Seq<u8>, r: (int, int)) -> bool {
    0 <= r.0 <= r.1 <= src.len() && on_boundary(src, r.0) && on_boundary(src, r.1)
}

pub open spec fn piece_ok(src: Seq<u8>, p: Piece) -> bool {
    match p {
        Piece::Text(a, b) => range_ok(src, (a, b)),
        Piece::Link { url, text, whole } => range_ok(src, url) && range_ok(src, text) && range_ok(
            src,
            whole,
        ),
    }
}

proof fn lemma_span_ok(src: Seq<u8>, toks: Seq<(Token, int, int)>, a: int, b: int)
    requires
        on_boundaries(src, toks),
        sorted_within(toks, src.len() as int),
        0 <= a < toks.len(),
        a <= b <= toks.len(),
    ensures
        range_ok(src, span(toks, a, b)),
{
    if b > a {
        assert(toks[a].1 <= toks[a].2);
        if b - 1 > a {
            assert(toks[a].2 <= toks[b - 1].1);
        }
        assert(toks[b - 1].1 <= toks[b - 1].2);
    }
}

proof fn lemma_pieces_ok(src: Seq<u8>, toks: Seq<(Token, int, int)>, i: int)
    requires
        on_boundaries(src, toks),
        sorted_within(toks, src.len() as int),
    ensures
        forall|k: int|
            0 <= k < wiki_from(toks, i).len() ==> piece_ok(src, #[trigger] wiki_from(toks, i)[k]),
    decreases toks.len() - i,
{
    let ps = wiki_from(toks, i);
    if 0 <= i < toks.len() {
        lemma_ends_bounds(toks, i + 1);
        if toks[i].0 == Token::LLBra {
            let j = field_end(toks, i + 1);
            let last = toks.len() - 1;
            if last > i {
                assert(toks[i].2 <= toks[last].1);
            }
            assert(toks[last].1 <= toks[last].2);
            assert(toks[i].1 <= toks[i].2);
            assert(range_ok(src, (toks[i].1, toks.last().2)));
            if j >= toks.len() {
                assert(ps =~= seq![Piece::Text(toks[i].1, toks.last().2)]);
                assert(piece_ok(src, ps[0]));
                assert(forall|k: int| 0 <= k < ps.len() ==> piece_ok(src, #[trigger] ps[k]));
            }
            if j < toks.len() {
                lemma_ends_bounds(toks, j + 1);
                lemma_span_ok(src, toks, i + 1, j);
                if j > i {
                    assert(toks[i].2 <= toks[j].1);
                }
                assert(toks[j].1 <= toks[j].2);
                if toks[j].0 == Token::RRBra {
                    lemma_pieces_ok(src, toks, j + 1);
                    let rest = wiki_from(toks, j + 1);
                    assert forall|k: int| 0 <= k < ps.len() implies piece_ok(
                        src,
                        #[trigger] ps[k],
                    ) by {
                        if k > 0 {
                            assert(ps[k] == rest[k - 1]);
                        }
                    }
                } else {
                    let m = alias_end(toks, j + 1);
                    if m >= toks.len() {
                        assert(ps =~= seq![Piece::Text(toks[i].1, toks.last().2)]);
                        assert(piece_ok(src, ps[0]));
                    }
                    if m < toks.len() {
                        lemma_span_ok(src, toks, j + 1, m);
                        assert(toks[i].2 <= toks[m].1);
                        assert(toks[m].1 <= toks[m].2);
                        lemma_pieces_ok(src, toks, m + 1);
                        let rest = wiki_from(toks, m + 1);
                        assert forall|k: int| 0 <= k < ps.len() implies piece_ok(
                            src,
                            #[trigger] ps[k],
                        ) by {
                            if k > 0 {
                                assert(ps[k] == rest[k - 1]);
                            }
                        }
                    }
                }
            }
        } else if toks[i].0 == Token::NewLine {
            lemma_pieces_ok(src, toks, i + 1);
            assert(ps == wiki_from(toks, i + 1));
        } else {
            let k0 = text_end(toks, i + 1);
            lemma_span_ok(src, toks, i, k0);
            lemma_pieces_ok(src, toks, k0);
            let rest = wiki_from(toks, k0);
            assert forall|k: int| 0 <= k < ps.len() implies piece_ok(src, #[trigger] ps[k]) by {
                if k > 0 {
                    assert(ps[k] == rest[k - 1]);
                }
            }
        }
    }
}

/// The pieces that the text `src[start..end]` is made into.
pub open spec fn pieces_of(src: Seq<u8>, start: int, end: int) -> Seq<Piece> {
    wiki_from(lex(src.subrange(start, end), start), 0)
}

/// Every piece of `src[start..end]` can be cut out of `src`.
pub proof fn lemma_pieces_of_ok(src: Seq<u8>, start: int, end: int)
    requires
        valid_utf8(src),
        0 <= start <= end <= src.len(),
        on_boundary(src, start),
        on_boundary(src, end),
    ensures
        forall|k: int|
            0 <= k < pieces_of(src, start, end).len() ==> piece_ok(
                src,
                #[trigger] pieces_of(src, start, end)[k],
            ),
{
    let bytes = src.subrange(start, end);
    let toks = lex(bytes, start);
    lemma_lex_from_on_boundaries(src, start, end, 0, State::Default, start);
    crate::token::lemma_lex_tiles(bytes, start);
    if toks.len() > 0 {
        lemma_tiles_sorted(toks, start, start + bytes.len());
    }
    lemma_pieces_ok(src, toks, 0);
}

} // verus!

verus! {

/// The shape of one event made from a piece.
pub enum Shape {
    /// text equal to the source bytes of the range, spanning that range
    TextAt(int, int),
    /// opening of a wikilink to the source bytes of `url`
    LinkOpen { url: (int, int), whole: (int, int) },
    /// closing of a wikilink
    LinkClose(int, int),
}

pub open spec fn piece_shapes(p: Piece) -> Seq<Shape> {
    match p {
        Piece::Text(a, b) => seq![Shape::TextAt(a, b)],
        Piece::Link { url, text, whole } => seq![
            Shape::LinkOpen { url, whole },
            Shape::TextAt(text.0, text.1),
            Shape::LinkClose(whole.0, whole.1),
        ],
    }
}

/// The shapes of all the events made from `ps`, in order.
pub open spec fn flat_shapes(ps: Seq<Piece>) -> Seq<Shape>
    decreases ps.len(),
{
    if ps.len() == 0 {
        seq![]
    } else {
        flat_shapes(ps.drop_last()) + piece_shapes(ps.last())
    }
}

/// Event `e` has shape `s`, its text being read from `src`.
pub open spec fn shows(src: Seq<u8>, e: (Event, Range<usize>), s: Shape) -> bool {
    match s {
        Shape::TextAt(a, b) => {
            &&& e.0 matches Event::Text(t) && utf8_of(t@) == src.subrange(a, b)
            &&& pair(e.1) == (a, b)
        },
        Shape::LinkOpen { url, whole } => {
            &&& e.0 matches Event::Start(Tag::Link { link_type, dest_url, title }) && link_type
                == LinkType::Inline && utf8_of(dest_url@) == src.subrange(url.0, url.1)
                && title@ == "wiki"@
            &&& pair(e.1) == whole
        },
        Shape::LinkClose(a, b) => e.0 matches Event::End(TagEnd::Link) && pair(e.1) == (a, b),
    }
}

pub open spec fn shows_all(src: Seq<u8>, es: Seq<(Event, Range<usize>)>, ss: Seq<Shape>) -> bool {
    es.len() == ss.len() && forall|k: int| 0 <= k < es.len() ==> shows(src, #[trigger] es[k], ss[k])
}

fn text_event(source: &str, r: Range<usize>) -> (e: (Event, Range<usize>))
    requires
        range_ok(source.spec_bytes(), pair(r)),
    ensures
        shows(source.spec_bytes(), e, Shape::TextAt(r.start as int, r.end as int)),
{
    let t = slice_text(source, r.start, r.end);
    (Event::Text(t), r)
}

/// The events that replace the text `source[start..end]`: runs of text, and
/// each wikilink as a link start, its visible text and a link end.
pub fn wikilink_events(source: &str, start: usize, end: usize) -> (r: Vec<(Event, Range<usize>)>)
    requires
        start <= end <= source.spec_bytes().len(),
        on_boundary(source.spec_bytes(), start as int),
        on_boundary(source.spec_bytes(), end as int),
    ensures
        shows_all(
            source.spec_bytes(),
            r@,
            flat_shapes(pieces_of(source.spec_bytes(), start as int, end as int)),
        ),
{
    let ghost src = source.spec_bytes();
    let ghost ps = pieces_of(src, start as int, end as int);
    proof {
        encode_utf8_valid_utf8(source@);
        lemma_pieces_of_ok(src, start as int, end as int);
    }
    let mut parser = WikiParser::new_at(source, start, end);
    let mut out: Vec<(Event, Range<usize>)> = Vec::new();
    let ghost mut n: int = 0;
    loop
        invariant
            parser.wf(),
            0 <= n <= ps.len(),
            parser.rest() == ps.subrange(n, ps.len() as int),
            shows_all(src, out@, flat_shapes(ps.take(n))),
            forall|k: int| 0 <= k < ps.len() ==> piece_ok(src, #[trigger] ps[k]),
            src == source.spec_bytes(),
            ps == pieces_of(src, start as int, end as int),
        decreases ps.len() - n,
    {
        let ghost before = out@;
        let next = parser.next();
        match next {
            None => {
                assert(ps.subrange(n, ps.len() as int).len() == 0);
                assert(ps.take(n) =~= ps);
                assert(flat_shapes(ps.take(n)) == flat_shapes(ps));
                return out;
            },
            Some(f) => {
                let ghost p = ps[n];
                assert(piece_of(f) == p);
                assert(ps.take(n + 1).drop_last() =~= ps.take(n));
                assert(parser.rest() =~= ps.subrange(n + 1, ps.len() as int));
                match f {
                    Fragment::Text(r) => {
                        out.push(text_event(source, r));
                    },
                    Fragment::Link { url, text, whole } => {
                        let dest_url = slice_text(source, url.start, url.end);
                        let title = "wiki".to_owned();
                        let open_range = Range { start: whole.start, end: whole.end };
                        out.push(
                            (
                                Event::Start(
                                    Tag::Link { link_type: LinkType::Inline, dest_url, title },
                                ),
                                open_range,
                            ),
                        );
                        out.push(text_event(source, text));
                        out.push((Event::End(TagEnd::Link), whole));
                    },
                }
                proof {
                    let shapes = flat_shapes(ps.take(n + 1));
                    assert(shapes == flat_shapes(ps.take(n)) + piece_shapes(p));
                    assert forall|k: int| 0 <= k < out@.len() implies shows(
                        src,
                        #[trigger] out@[k],
                        shapes[k],
                    ) by {
                        if k < before.len() {
                            assert(out@[k] == before[k]);
                        }
                    }
                    n = n + 1;
                }
            },
        }
    }
}

} // verus!

verus! {

/// The outer range of a piece: the text, or the whole link construct.
pub open spec fn outer(p: Piece) -> (int, int) {
    match p {
        Piece::Text(a, b) => (a, b),
        Piece::Link { whole, .. } => whole,
    }
}

/// The pieces' outer ranges lie end to end from `a` to `b`.
pub open spec fn pieces_tile(ps: Seq<Piece>, a: int, b: int) -> bool
    decreases ps.len(),
{
    if ps.len() == 0 {
        a == b
    } else {
        outer(ps[0]).0 == a && pieces_tile(ps.drop_first(), outer(ps[0]).1, b)
    }
}

/// Each token ends where the next one starts.
pub open spec fn contiguous(toks: Seq<(Token, int, int)>) -> bool {
    forall|k: int| 0 <= k && k + 1 < toks.len() ==> (#[trigger] toks[k]).2 == toks[k + 1].1
}

proof fn lemma_tiles_contiguous(toks: Seq<(Token, int, int)>, a: int, b: int)
    requires
        tiles(toks, a, b),
    ensures
        contiguous(toks),
        toks.len() > 0 ==> toks[0].1 == a && toks.last().2 == b,
    decreases toks.len(),
{
    if toks.len() > 0 {
        let rest = toks.drop_first();
        lemma_tiles_contiguous(rest, toks[0].2, b);
        if rest.len() == 0 {
            assert(tiles(rest, toks[0].2, b));
        }
        assert forall|k: int| 0 <= k && k + 1 < toks.len() implies (#[trigger] toks[k]).2
            == toks[k + 1].1 by {
            assert(toks[k + 1] == rest[k]);
            if k > 0 {
                assert(toks[k] == rest[k - 1]);
            }
        }
    }
}

proof fn lemma_wiki_from_tiles(toks: Seq<(Token, int, int)>, i: int)
    requires
        0 <= i < toks.len(),
        contiguous(toks),
        forall|k: int| i <= k < toks.len() ==> (#[trigger] toks[k]).0 != Token::NewLine,
    ensures
        pieces_tile(wiki_from(toks, i), toks[i].1, toks.last().2),
    decreases toks.len() - i,
{
    let ps = wiki_from(toks, i);
    let last = toks.last().2;
    lemma_ends_bounds(toks, i + 1);
    if toks[i].0 == Token::LLBra {
        let j = field_end(toks, i + 1);
        if j >= toks.len() {
            assert(pieces_tile(ps.drop_first(), last, last));
        } else {
            lemma_ends_bounds(toks, j + 1);
            if toks[j].0 == Token::RRBra {
                let rest = wiki_from(toks, j + 1);
                assert(ps.drop_first() =~= rest);
                if j + 1 < toks.len() {
                    lemma_wiki_from_tiles(toks, j + 1);
                } else {
                    assert(pieces_tile(rest, toks[j].2, last));
                }
            } else {
                let m = alias_end(toks, j + 1);
                if m >= toks.len() {
                    assert(pieces_tile(ps.drop_first(), last, last));
                } else {
                    let rest = wiki_from(toks, m + 1);
                    assert(ps.drop_first() =~= rest);
                    if m + 1 < toks.len() {
                        lemma_wiki_from_tiles(toks, m + 1);
                    } else {
                        assert(pieces_tile(rest, toks[m].2, last));
                    }
                }
            }
        }
    } else {
        let k = text_end(toks, i + 1);
        let rest = wiki_from(toks, k);
        assert(ps.drop_first() =~= rest);
        if k < toks.len() {
            lemma_wiki_from_tiles(toks, k);
        } else {
            assert(pieces_tile(rest, toks[k - 1].2, last));
        }
    }
}

/// Text without line feeds loses no byte to the wikilink parser: the text
/// runs and the link constructs lie end to end over the whole text,
/// whether the links are finished or not.
pub proof fn lemma_pieces_keep_every_byte(src: Seq<u8>, start: int, end: int)
    requires
        0 <= start < end <= src.len(),
        forall|k: int| start <= k < end ==> src[k] != 10u8,
        exists|k: int| start <= k < end && src[k] != 13u8,
    ensures
        pieces_tile(pieces_of(src, start, end), start, end),
{
    let bytes = src.subrange(start, end);
    let toks = lex(bytes, start);
    let w = choose|k: int| start <= k < end && src[k] != 13u8;
    assert(bytes[w - start] != 13u8);
    assert forall|k: int| 0 <= k < bytes.len() implies bytes[k] != 10u8 by {
        assert(bytes[k] == src[start + k]);
    }
    crate::token::lemma_lex_tiles(bytes, start);
    lemma_lex_no_newline(bytes, 0, State::Default, start, start);
    crate::token::lemma_lex_nonempty(bytes, start, w - start);
    lemma_tiles_contiguous(toks, start, end);
    lemma_wiki_from_tiles(toks, 0);
}

proof fn lemma_lex_no_newline(bytes: Seq<u8>, i: int, state: State, last_end: int, base: int)
    requires
        0 <= i <= bytes.len(),
        forall|k: int| i <= k < bytes.len() ==> bytes[k] != 10u8,
        state != State::AfterReturn,
    ensures
        forall|k: int|
            0 <= k < lex_from(bytes, i, state, last_end, base).len() ==> (#[trigger] lex_from(
                bytes,
                i,
                state,
                last_end,
                base,
            )[k]).0 != Token::NewLine,
    decreases bytes.len() - i,
{
    let toks = lex_from(bytes, i, state, last_end, base);
    if i < bytes.len() {
        let (next, done) = step(state, bytes[i]);
        let pos = base + i;
        if done && pending_token(state) is Some {
            lemma_lex_no_newline(bytes, i + 1, next, pos, base);
            let rest = lex_from(bytes, i + 1, next, pos, base);
            assert forall|k: int| 0 <= k < toks.len() implies (#[trigger] toks[k]).0
                != Token::NewLine by {
                if k > 0 {
                    assert(toks[k] == rest[k - 1]);
                }
            }
        } else {
            lemma_lex_no_newline(bytes, i + 1, next, last_end, base);
        }
    }
}

} // verus!
