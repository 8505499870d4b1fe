//! The streaming renderer: walks a flat event stream with one shared cursor
//! and rebuilds the nested structure as a tree of [`Node`]s.
//!
//! Each nesting level has its own scope (the table's column alignments, the
//! index of the next cell, the end marker that closes the level, and the
//! component whose children are being captured). A level ends on its end
//! marker; a component capture ends on the raw html `</name>`.
use crate::component::{attr_pair, chars_of, parse_call, ComponentCall, TagError};
use crate::event::{
    closing_of, Alignment, CodeBlockKind, Event, HeadingLevel, LinkType, MathMode, Tag, TagEnd,
};
use crate::highlight::{katex_html, katex_of, RenderContext};
use core::ops::Range;
use vstd::prelude::*;

verus! {

/// Failures of the stream's own contract: they abort the whole pass.
#[derive(Debug, Clone, Copy, PartialEq, Eq, Structural)]
pub enum StreamError {
    /// an end marker that does not close the open structure
    UnexpectedEnd,
    /// the stream ended inside a structure
    MissingEnd,
    /// a structure that holds literal text held something else
    ExpectedText,
    /// a table cell with no column alignment for it
    CellOutsideTable,
}

/// Failures local to one node, shown in its place.
#[derive(Debug, Clone, PartialEq)]
pub enum HtmlError {
    /// a component tag that does not parse
    Tag(TagError),
    /// a component name that nobody registered
    UnknownComponent(String),
    /// a component whose closing marker is missing or garbled
    NotClosed(String),
    /// a closing marker placed inside a paragraph or another structure
    NewlineBeforeEnd,
    FootnoteReference,
    FootnoteDefinition,
}

#[derive(Debug, PartialEq)]
#[allow(inconsistent_fields)]
pub enum NodeKind {
    Text { text: String, range: Range<usize> },
    Code { text: String, range: Range<usize> },
    /// raw html, with the range to report on a click when it has one
    RawHtml { html: String, range: Option<Range<usize>> },
    HardBreak,
    Rule { range: Range<usize> },
    TaskListMarker { checked: bool, range: Range<usize> },
    /// `html` is the rendered formula, `None` when it is invalid
    Math { mode: MathMode, html: Option<String>, range: Range<usize> },
    Paragraph,
    Heading(HeadingLevel),
    BlockQuote,
    List(Option<u64>),
    Item,
    Table,
    TableHead,
    TableRow,
    Cell(Alignment),
    Emphasis,
    Strong,
    Strikethrough,
    Link { url: String, title: String, link_type: LinkType, image: bool },
    /// `highlighted` is the highlighted html, when the language is known
    CodeBlock {
        content: Option<String>,
        lang: Option<String>,
        highlighted: Option<String>,
        range: Range<usize>,
    },
    /// the content of a metadata block, for the frontmatter sink; not shown
    Frontmatter(Option<String>),
    Component { name: String, attributes: Vec<(String, String)>, has_children: bool },
    Error(HtmlError),
}

/// One node of the output tree.
#[derive(Debug, PartialEq)]
pub struct Node {
    pub kind: NodeKind,
    pub children: Vec<Node>,
}

// ---------------------------------------------------------------------
// The model: the same tree over plain values.
// ---------------------------------------------------------------------
pub enum PError {
    Tag(TagError),
    UnknownComponent(Seq<char>),
    NotClosed(Seq<char>),
    NewlineBeforeEnd,
    FootnoteReference,
    FootnoteDefinition,
}

pub enum PKind {
    Text(Seq<char>, int, int),
    Code(Seq<char>, int, int),
    RawHtml(Seq<char>, Option<(int, int)>),
    HardBreak,
    Rule(int, int),
    TaskListMarker(bool, int, int),
    /// the mode, and the html that KaTeX gives for the formula
    Math(MathMode, Option<Seq<char>>, int, int),
    Paragraph,
    Heading(HeadingLevel),
    BlockQuote,
    List(Option<u64>),
    Item,
    Table,
    TableHead,
    TableRow,
    Cell(Alignment),
    Emphasis,
    Strong,
    Strikethrough,
    Link { url: Seq<char>, title: Seq<char>, link_type: LinkType, image: bool },
    CodeBlock { content: Option<Seq<char>>, lang: Option<Seq<char>>, range: (int, int) },
    Frontmatter(Option<Seq<char>>),
    Component { name: Seq<char>, attributes: Seq<(Seq<char>, Seq<char>)>, has_children: bool },
    Error(PError),
}

pub struct PNode {
    pub kind: PKind,
    pub children: Seq<PNode>,
}

pub open spec fn rng(r: Range<usize>) -> (int, int) {
    (r.start as int, r.end as int)
}

pub open spec fn opt_str(s: Option<String>) -> Option<Seq<char>> {
    match s {
        Some(x) => Some(x@),
        None => None,
    }
}

pub open spec fn error_view(e: HtmlError) -> PError {
    match e {
        HtmlError::Tag(t) => PError::Tag(t),
        HtmlError::UnknownComponent(n) => PError::UnknownComponent(n@),
        HtmlError::NotClosed(n) => PError::NotClosed(n@),
        HtmlError::NewlineBeforeEnd => PError::NewlineBeforeEnd,
        HtmlError::FootnoteReference => PError::FootnoteReference,
        HtmlError::FootnoteDefinition => PError::FootnoteDefinition,
    }
}

/// What a node kind says, over plain values. Highlighted code, which
/// syntect makes from its own syntax and theme values, is left out.
pub open spec fn kind_view(k: NodeKind) -> PKind {
    match k {
        NodeKind::Text { text, range } => PKind::Text(text@, rng(range).0, rng(range).1),
        NodeKind::Code { text, range } => PKind::Code(text@, rng(range).0, rng(range).1),
        NodeKind::RawHtml { html, range } => PKind::RawHtml(
            html@,
            match range {
                Some(r) => Some(rng(r)),
                None => None,
            },
        ),
        NodeKind::HardBreak => PKind::HardBreak,
        NodeKind::Rule { range } => PKind::Rule(rng(range).0, rng(range).1),
        NodeKind::TaskListMarker { checked, range } => PKind::TaskListMarker(
            checked,
            rng(range).0,
            rng(range).1,
        ),
        NodeKind::Math { mode, html, range } => PKind::Math(
            mode,
            opt_str(html),
            rng(range).0,
            rng(range).1,
        ),
        NodeKind::Paragraph => PKind::Paragraph,
        NodeKind::Heading(l) => PKind::Heading(l),
        NodeKind::BlockQuote => PKind::BlockQuote,
        NodeKind::List(s) => PKind::List(s),
        NodeKind::Item => PKind::Item,
        NodeKind::Table => PKind::Table,
        NodeKind::TableHead => PKind::TableHead,
        NodeKind::TableRow => PKind::TableRow,
        NodeKind::Cell(a) => PKind::Cell(a),
        NodeKind::Emphasis => PKind::Emphasis,
        NodeKind::Strong => PKind::Strong,
        NodeKind::Strikethrough => PKind::Strikethrough,
        NodeKind::Link { url, title, link_type, image } => PKind::Link {
            url: url@,
            title: title@,
            link_type,
            image,
        },
        NodeKind::CodeBlock { content, lang, highlighted, range } => PKind::CodeBlock {
            content: opt_str(content),
            lang: opt_str(lang),
            range: rng(range),
        },
        NodeKind::Frontmatter(c) => PKind::Frontmatter(opt_str(c)),
        NodeKind::Component { name, attributes, has_children } => PKind::Component {
            name: name@,
            attributes: attributes@.map_values(|a: (String, String)| attr_pair(a)),
            has_children,
        },
        NodeKind::Error(e) => PKind::Error(error_view(e)),
    }
}

pub open spec fn node_view(n: Node) -> PNode
    decreases n,
{
    PNode { kind: kind_view(n.kind), children: nodes_view(n.children@) }
}

pub open spec fn nodes_view(ns: Seq<Node>) -> Seq<PNode>
    decreases ns,
{
    if ns.len() == 0 {
        seq![]
    } else {
        nodes_view(ns.drop_last()).push(node_view(ns.last()))
    }
}

/// The state of one nesting level.
pub struct SScope {
    pub align: Option<Seq<Alignment>>,
    pub cell: int,
    pub end: Option<TagEnd>,
    pub comp: Option<Seq<char>>,
    /// whether an html block is open in this level
    pub html: bool,
}

/// What one step of the walk gives.
pub enum SStep {
    /// a rendered node
    Node(PNode),
    /// the level is closed
    Done,
    /// the stream is exhausted
    Eof,
    /// the stream breaks its contract
    Fatal(StreamError),
}

/// Number of `<` and `>` characters in `s`.
pub open spec fn angle_count(s: Seq<char>) -> int
    decreases s.len(),
{
    if s.len() == 0 {
        0
    } else {
        angle_count(s.drop_last()) + if s.last() == '<' || s.last() == '>' {
            1int
        } else {
            0int
        }
    }
}

/// Raw html that holds exactly two angle brackets is taken for a component.
pub open spec fn probably_component(s: Seq<char>) -> bool {
    angle_count(s) == 2
}

/// Raw html whose text, trimmed, is `</name>`.
pub open spec fn closes(s: Seq<char>, name: Seq<char>) -> bool {
    trim_of(s) == seq!['<', '/'] + name + seq!['>']
}

/// The characters of the Unicode property White_Space.
pub open spec fn is_white_space(c: char) -> bool {
    let u = c as u32;
    ||| 0x9 <= u <= 0xd
    ||| u == 0x20
    ||| u == 0x85
    ||| u == 0xa0
    ||| u == 0x1680
    ||| 0x2000 <= u <= 0x200a
    ||| u == 0x2028
    ||| u == 0x2029
    ||| u == 0x202f
    ||| u == 0x205f
    ||| u == 0x3000
}

/// `s` without its leading white space.
pub open spec fn trim_start_of(s: Seq<char>) -> Seq<char>
    decreases s.len(),
{
    if s.len() > 0 && is_white_space(s[0]) {
        trim_start_of(s.drop_first())
    } else {
        s
    }
}

/// `s` without its trailing white space.
pub open spec fn trim_end_of(s: Seq<char>) -> Seq<char>
    decreases s.len(),
{
    if s.len() > 0 && is_white_space(s.last()) {
        trim_end_of(s.drop_last())
    } else {
        s
    }
}

/// `s` without leading and trailing white space, as `str::trim` gives it.
pub open spec fn trim_of(s: Seq<char>) -> Seq<char> {
    trim_end_of(trim_start_of(s))
}

/// A closing marker may stand with spaces and line ends around it.
pub proof fn lemma_closing_marker_with_line_end(name: Seq<char>)
    ensures
        closes(seq!['<', '/'] + name + seq!['>', '\n'], name),
        closes(seq![' ', '<', '/'] + name + seq!['>'], name),
{
    let m = seq!['<', '/'] + name + seq!['>'];
    let a = seq!['<', '/'] + name + seq!['>', '\n'];
    assert(trim_start_of(a) == a);
    assert(a.drop_last() =~= m);
    assert(trim_end_of(m) == m);
    let b = seq![' ', '<', '/'] + name + seq!['>'];
    assert(b.drop_first() =~= m);
    assert(trim_start_of(m) == m);
}

/// Relies on `str::trim`: the slice without leading and trailing white
/// space, white space being the Unicode property White_Space.
#[verifier::external_body]
fn trimmed(s: &str) -> (r: &str)
    ensures
        r@ == trim_of(s@),
{
    s.trim()
}

pub open spec fn leaf(k: PKind) -> PNode {
    PNode { kind: k, children: seq![] }
}

pub open spec fn child_scope(sc: SScope, end: TagEnd) -> SScope {
    SScope { align: sc.align, cell: 0, end: Some(end), comp: sc.comp, html: false }
}

pub open spec fn tag_kind(t: Tag) -> PKind {
    match t {
        Tag::Paragraph => PKind::Paragraph,
        Tag::Heading(l) => PKind::Heading(l),
        Tag::BlockQuote => PKind::BlockQuote,
        Tag::List(s) => PKind::List(s),
        Tag::Item => PKind::Item,
        Tag::Table(_) => PKind::Table,
        Tag::TableHead => PKind::TableHead,
        Tag::TableRow => PKind::TableRow,
        Tag::Emphasis => PKind::Emphasis,
        Tag::Strong => PKind::Strong,
        Tag::Strikethrough => PKind::Strikethrough,
        Tag::Link { link_type, dest_url, title } => PKind::Link {
            url: dest_url@,
            title: title@,
            link_type,
            image: false,
        },
        Tag::Image { link_type, dest_url, title } => PKind::Link {
            url: dest_url@,
            title: title@,
            link_type,
            image: true,
        },
        _ => PKind::Error(PError::FootnoteDefinition),
    }
}

/// The tags whose content is one piece of literal text, or nothing.
pub open spec fn holds_text(t: Tag) -> bool {
    t is CodeBlock || t is MetadataBlock
}

/// The literal child of the tag opened at `i`: `(Ok(text), j)` where `j`
/// follows its end marker.
pub open spec fn s_children_text(evs: Seq<(Event, Range<usize>)>, i: int, end: TagEnd) -> (
    Result<Option<Seq<char>>, StreamError>,
    int,
) {
    if i >= evs.len() {
        (Err(StreamError::MissingEnd), i)
    } else {
        match evs[i].0 {
            Event::End(e) => if e == end {
                (Ok(None), i + 1)
            } else {
                (Err(StreamError::ExpectedText), i)
            },
            Event::Text(s) => if i + 1 < evs.len() && evs[i + 1].0 == Event::End(end) {
                (Ok(Some(s@)), i + 2)
            } else if i + 1 >= evs.len() {
                (Err(StreamError::MissingEnd), i)
            } else {
                (Err(StreamError::ExpectedText), i)
            },
            _ => (Err(StreamError::ExpectedText), i),
        }
    }
}

/// One step of the walk from event `i` in scope `sc`: what it gives, where
/// the cursor stands after it, and the scope after it.
pub open spec fn s_next(
    evs: Seq<(Event, Range<usize>)>,
    reg: Seq<Seq<char>>,
    i: int,
    sc: SScope,
) -> (SStep, int, SScope)
    decreases evs.len() - i, 2int,
{
    if i < 0 || i >= evs.len() {
        (SStep::Eof, i, sc)
    } else {
        let r = rng(evs[i].1);
        match evs[i].0 {
            Event::Start(Tag::HtmlBlock) => s_next(evs, reg, i + 1, SScope { html: true, ..sc }),
            Event::End(TagEnd::HtmlBlock) => if sc.html {
                s_next(evs, reg, i + 1, SScope { html: false, ..sc })
            } else {
                (SStep::Fatal(StreamError::UnexpectedEnd), i + 1, sc)
            },
            Event::SoftBreak => s_next(evs, reg, i + 1, sc),
            Event::Start(t) => s_render_tag(evs, reg, i, sc),
            Event::End(e) => if sc.end == Some(e) && !sc.html {
                (SStep::Done, i + 1, sc)
            } else {
                (SStep::Fatal(StreamError::UnexpectedEnd), i + 1, sc)
            },
            Event::Text(s) => (SStep::Node(leaf(PKind::Text(s@, r.0, r.1))), i + 1, sc),
            Event::Code(s) => (SStep::Node(leaf(PKind::Code(s@, r.0, r.1))), i + 1, sc),
            Event::Html(s) => s_html(evs, reg, i, sc),
            Event::InlineHtml(s) => s_html(evs, reg, i, sc),
            Event::FootnoteReference(_) => (
                SStep::Node(leaf(PKind::Error(PError::FootnoteReference))),
                i + 1,
                sc,
            ),
            Event::HardBreak => (SStep::Node(leaf(PKind::HardBreak)), i + 1, sc),
            Event::Rule => (SStep::Node(leaf(PKind::Rule(r.0, r.1))), i + 1, sc),
            Event::TaskListMarker(m) => (
                SStep::Node(leaf(PKind::TaskListMarker(m, r.0, r.1))),
                i + 1,
                sc,
            ),
            Event::Math(mode, f) => (
                SStep::Node(
                    leaf(PKind::Math(mode, katex_of(f@, mode == MathMode::Display), r.0, r.1)),
                ),
                i + 1,
                sc,
            ),
        }
    }
}

/// The children of a level that starts at event `i`, up to and including
/// what closes it; the first flag tells whether the stream ran out first,
/// the second whether an html block was left open at the close.
pub open spec fn s_children(
    evs: Seq<(Event, Range<usize>)>,
    reg: Seq<Seq<char>>,
    i: int,
    sc: SScope,
) -> (Result<Seq<PNode>, StreamError>, int, bool, bool)
    decreases evs.len() - i, 3int,
{
    if i < 0 || i > evs.len() {
        (Err(StreamError::MissingEnd), i, true, false)
    } else {
        let (st, j, sc2) = s_next(evs, reg, i, sc);
        match st {
            SStep::Done => (Ok(seq![]), j, false, sc2.html),
            SStep::Eof => if sc.end is Some || sc2.html {
                (Err(StreamError::MissingEnd), j, true, sc2.html)
            } else {
                (Ok(seq![]), j, true, false)
            },
            SStep::Fatal(f) => (Err(f), j, false, sc2.html),
            SStep::Node(n) => if j <= i || j > evs.len() {
                (Err(StreamError::MissingEnd), j, false, sc2.html)
            } else {
                match s_children(evs, reg, j, sc2) {
                    (Ok(rest), k, eof, h) => (Ok(seq![n] + rest), k, eof, h),
                    (Err(f), k, eof, h) => (Err(f), k, eof, h),
                }
            },
        }
    }
}

/// The structure opened by the start marker at `i`.
pub open spec fn s_render_tag(
    evs: Seq<(Event, Range<usize>)>,
    reg: Seq<Seq<char>>,
    i: int,
    sc: SScope,
) -> (SStep, int, SScope)
    decreases evs.len() - i, 1int,
{
    if i < 0 || i >= evs.len() {
        (SStep::Eof, i, sc)
    } else {
        match evs[i].0 {
            Event::Start(t) => {
                let r = rng(evs[i].1);
                let end = closing_of(t);
                if holds_text(t) {
                    let (c, j) = s_children_text(evs, i + 1, end);
                    match c {
                        Err(f) => (SStep::Fatal(f), j, sc),
                        Ok(text) => {
                            let kind = match t {
                                Tag::CodeBlock(CodeBlockKind::Fenced(lang)) => PKind::CodeBlock {
                                    content: text,
                                    lang: Some(lang@),
                                    range: r,
                                },
                                Tag::CodeBlock(CodeBlockKind::Indented) => PKind::CodeBlock {
                                    content: text,
                                    lang: None,
                                    range: r,
                                },
                                _ => PKind::Frontmatter(text),
                            };
                            (SStep::Node(leaf(kind)), j, sc)
                        },
                    }
                } else if t is TableCell {
                    match sc.align {
                        Some(a) => if 0 <= sc.cell < a.len() {
                            let sc2 = SScope { cell: sc.cell + 1, ..sc };
                            match s_children(evs, reg, i + 1, child_scope(sc2, end)) {
                                (Ok(ch), j, _, _) => (
                                    SStep::Node(PNode { kind: PKind::Cell(a[sc.cell]), children: ch }),
                                    j,
                                    sc2,
                                ),
                                (Err(f), j, _, _) => (SStep::Fatal(f), j, sc2),
                            }
                        } else {
                            (SStep::Fatal(StreamError::CellOutsideTable), i + 1, sc)
                        },
                        None => (SStep::Fatal(StreamError::CellOutsideTable), i + 1, sc),
                    }
                } else {
                    let sc2 = match t {
                        Tag::Table(a) => SScope { align: Some(a@), ..sc },
                        _ => sc,
                    };
                    match s_children(evs, reg, i + 1, child_scope(sc2, end)) {
                        (Ok(ch), j, _, _) => if t is FootnoteDefinition {
                            (SStep::Node(leaf(PKind::Error(PError::FootnoteDefinition))), j, sc2)
                        } else {
                            (SStep::Node(PNode { kind: tag_kind(t), children: ch }), j, sc2)
                        },
                        (Err(f), j, _, _) => (SStep::Fatal(f), j, sc2),
                    }
                }
            },
            _ => (SStep::Eof, i, sc),
        }
    }
}

/// The raw html at event `i`: a component, the end of a component's
/// children, an error, or html shown as it is.
pub open spec fn s_html(
    evs: Seq<(Event, Range<usize>)>,
    reg: Seq<Seq<char>>,
    i: int,
    sc: SScope,
) -> (SStep, int, SScope)
    decreases evs.len() - i, 1int,
{
    if i < 0 || i >= evs.len() {
        (SStep::Eof, i, sc)
    } else {
        let s = match evs[i].0 {
            Event::Html(x) => x@,
            Event::InlineHtml(x) => x@,
            _ => seq![],
        };
        let r = rng(evs[i].1);
        match sc.comp {
            None => if sc.end is None && probably_component(s) {
                s_component(evs, reg, i, s, sc)
            } else {
                (SStep::Node(leaf(PKind::RawHtml(s, Some(r)))), i + 1, sc)
            },
            Some(x) => if sc.end is None && closes(s, x) {
                (SStep::Done, i + 1, sc)
            } else if sc.end is None && probably_component(s) {
                (SStep::Node(leaf(PKind::Error(PError::NotClosed(x)))), i + 1, sc)
            } else if sc.end is Some && closes(s, x) {
                (SStep::Node(leaf(PKind::Error(PError::NewlineBeforeEnd))), i + 1, sc)
            } else {
                (SStep::Node(leaf(PKind::RawHtml(s, None))), i + 1, sc)
            },
        }
    }
}

/// The component called by the raw html `s` at event `i`.
pub open spec fn s_component(
    evs: Seq<(Event, Range<usize>)>,
    reg: Seq<Seq<char>>,
    i: int,
    s: Seq<char>,
    sc: SScope,
) -> (SStep, int, SScope)
    decreases evs.len() - i, 0int,
{
    match parse_call(s) {
        Err(e) => (SStep::Node(leaf(PKind::Error(PError::Tag(e)))), i + 1, sc),
        Ok(c) => if !reg.contains(c.name) {
            (SStep::Node(leaf(PKind::Error(PError::UnknownComponent(c.name)))), i + 1, sc)
        } else if !c.children {
            (
                SStep::Node(
                    leaf(
                        PKind::Component {
                            name: c.name,
                            attributes: c.attributes,
                            has_children: false,
                        },
                    ),
                ),
                i + 1,
                sc,
            )
        } else if 0 <= i < evs.len() {
            let capture = SScope {
                align: sc.align,
                cell: 0,
                end: sc.end,
                comp: Some(c.name),
                html: sc.html,
            };
            match s_children(evs, reg, i + 1, capture) {
                (Ok(ch), j, true, h) => (
                    SStep::Node(leaf(PKind::Error(PError::NotClosed(c.name)))),
                    j,
                    SScope { html: h, ..sc },
                ),
                (Ok(ch), j, false, h) => (
                    SStep::Node(
                        PNode {
                            kind: PKind::Component {
                                name: c.name,
                                attributes: c.attributes,
                                has_children: true,
                            },
                            children: ch,
                        },
                    ),
                    j,
                    SScope { html: h, ..sc },
                ),
                (Err(f), j, _, _) => (SStep::Fatal(f), j, sc),
            }
        } else {
            (SStep::Eof, i, sc)
        }
    }
}

/// The whole document: the nodes of the top level, or the contract error
/// that stopped the pass.
pub open spec fn s_document(evs: Seq<(Event, Range<usize>)>, reg: Seq<Seq<char>>) -> Result<
    Seq<PNode>,
    StreamError,
> {
    s_children(evs, reg, 0, SScope { align: None, cell: 0, end: None, comp: None, html: false }).0
}

} // verus!

verus! {

/// What one step of the walk gives.
pub enum Step {
    Node(Node),
    Done,
    Eof,
    Fatal(StreamError),
}

pub open spec fn step_view(s: Step) -> SStep {
    match s {
        Step::Node(n) => SStep::Node(node_view(n)),
        Step::Done => SStep::Done,
        Step::Eof => SStep::Eof,
        Step::Fatal(f) => SStep::Fatal(f),
    }
}

/// The registered names, as plain values.
pub open spec fn registry(ctx: &RenderContext) -> Seq<Seq<char>> {
    ctx.components@.map_values(|s: String| s@)
}

/// Whether the raw html `s` holds exactly two angle brackets.
pub fn is_probably_custom_component(raw_html: &str) -> (r: bool)
    ensures
        r == probably_component(raw_html@),
{
    let cs = chars_of(raw_html);
    let mut count: usize = 0;
    let mut k: usize = 0;
    while k < cs.len()
        invariant
            k <= cs@.len(),
            count <= k,
            count == angle_count(cs@.take(k as int)),
        decreases cs@.len() - k,
    {
        assert(cs@.take(k + 1).drop_last() =~= cs@.take(k as int));
        if cs[k] == '<' || cs[k] == '>' {
            count = count + 1;
        }
        k = k + 1;
    }
    assert(cs@.take(k as int) =~= cs@);
    count == 2
}

/// Whether `s`, trimmed, is the closing marker `</name>`.
fn is_closing_marker(s: &str, name: &String) -> (r: bool)
    ensures
        r == closes(s@, name@),
{
    let t = chars_of(trimmed(s));
    let n = chars_of(name.as_str());
    let ghost want = seq!['<', '/'] + n@ + seq!['>'];
    if t.len() < 3 || t.len() - 3 != n.len() {
        assert(t@.len() != want.len());
        return false;
    }
    if t[0] != '<' || t[1] != '/' || t[t.len() - 1] != '>' {
        assert(t@[0] != want[0] || t@[1] != want[1] || t@[t@.len() - 1] != want[want.len() - 1]);
        return false;
    }
    let mut k: usize = 0;
    while k < n.len()
        invariant
            t@.len() == n@.len() + 3,
            t@.len() <= usize::MAX,
            want == seq!['<', '/'] + n@ + seq!['>'],
            t@ == trim_of(s@),
            n@ == name@,
            k <= n@.len(),
            forall|j: int| 0 <= j < k ==> t@[j + 2] == n@[j],
        decreases n@.len() - k,
    {
        if t[k + 2] != n[k] {
            assert(t@[k + 2] != want[k + 2]);
            return false;
        }
        k = k + 1;
    }
    assert(t@ =~= want);
    true
}

fn clone_alignments(v: &Vec<Alignment>) -> (r: Vec<Alignment>)
    ensures
        r@ == v@,
{
    let mut r: Vec<Alignment> = Vec::new();
    let mut k: usize = 0;
    while k < v.len()
        invariant
            k <= v@.len(),
            r@ == v@.take(k as int),
        decreases v@.len() - k,
    {
        r.push(v[k]);
        k = k + 1;
        assert(r@ =~= v@.take(k as int));
    }
    assert(v@.take(k as int) =~= v@);
    r
}

fn clone_string(s: &String) -> (r: String)
    ensures
        r@ == s@,
{
    s.clone()
}

fn leaf_node(kind: NodeKind) -> (r: Node)
    ensures
        node_view(r) == leaf(kind_view(kind)),
{
    let r = Node { kind, children: Vec::new() };
    assert(nodes_view(r.children@) =~= Seq::<PNode>::empty());
    r
}

fn copy_range(r: &Range<usize>) -> (c: Range<usize>)
    ensures
        c == *r,
{
    Range { start: r.start, end: r.end }
}

/// One nesting level of the walk over the events.
pub struct Renderer<'a> {
    context: &'a RenderContext,
    column_alignment: Option<Vec<Alignment>>,
    cell_index: usize,
    end_tag: Option<TagEnd>,
    current_component: Option<String>,
    /// whether an html block is open in this level
    html_block: bool,
}

impl<'a> Renderer<'a> {
    pub closed spec fn scope(&self) -> SScope {
        SScope {
            align: match self.column_alignment {
                Some(v) => Some(v@),
                None => None,
            },
            cell: self.cell_index as int,
            end: self.end_tag,
            comp: opt_str(self.current_component),
            html: self.html_block,
        }
    }

    pub closed spec fn reg(&self) -> Seq<Seq<char>> {
        registry(self.context)
    }

    /// The top level of a pass over the events.
    pub fn new(context: &'a RenderContext) -> (r: Renderer<'a>)
        ensures
            r.scope() == (SScope { align: None, cell: 0, end: None, comp: None, html: false }),
            r.reg() == registry(context),
    {
        Renderer {
            context,
            column_alignment: None,
            cell_index: 0,
            end_tag: None,
            current_component: None,
            html_block: false,
        }
    }

    fn sub(&self, end_tag: Option<TagEnd>, component: Option<String>, html: bool) -> (r: Renderer<
        'a,
    >)
        ensures
            r.reg() == self.reg(),
            r.scope() == (SScope {
                align: self.scope().align,
                cell: 0,
                end: end_tag,
                comp: opt_str(component),
                html,
            }),
    {
        let column_alignment = match &self.column_alignment {
            Some(v) => Some(clone_alignments(v)),
            None => None,
        };
        Renderer {
            context: self.context,
            column_alignment,
            cell_index: 0,
            end_tag,
            current_component: component,
            html_block: html,
        }
    }

    fn component_name(&self) -> (r: Option<String>)
        ensures
            opt_str(r) == self.scope().comp,
    {
        match &self.current_component {
            Some(s) => Some(clone_string(s)),
            None => None,
        }
    }

    fn is_registered(&self, name: &String) -> (r: bool)
        ensures
            r == self.reg().contains(name@),
    {
        let comps = &self.context.components;
        let mut k: usize = 0;
        while k < comps.len()
            invariant
                k <= comps@.len(),
                comps == &self.context.components,
                forall|j: int| 0 <= j < k ==> comps@[j]@ != name@,
            decreases comps@.len() - k,
        {
            if comps[k] == *name {
                assert(self.reg()[k as int] == name@);
                return true;
            }
            k = k + 1;
        }
        assert forall|j: int| 0 <= j < self.reg().len() implies self.reg()[j] != name@ by {
            assert(self.reg()[j] == comps@[j]@);
        }
        false
    }

    /// Renders the level's children from event `i` on, up to what closes
    /// the level; also says whether the stream ran out first, and whether an
    /// html block was left open at the close.
    pub fn children(&mut self, events: &Vec<(Event, Range<usize>)>, i: usize) -> (r: (
        Result<Vec<Node>, StreamError>,
        usize,
        bool,
        bool,
    ))
        requires
            i <= events@.len(),
        ensures
            final(self).reg() == old(self).reg(),
            r.1 <= events@.len(),
            r.1 >= i,
            ({
                let (res, j, eof, h) = s_children(
                    events@,
                    old(self).reg(),
                    i as int,
                    old(self).scope(),
                );
                &&& r.1 == j
                &&& r.2 == eof
                &&& r.3 == h
                &&& match res {
                    Ok(ns) => r.0 matches Ok(v) && nodes_view(v@) == ns,
                    Err(f) => r.0 matches Err(g) && g == f,
                }
            }),
        decreases events@.len() - i, 3int,
    {
        let ghost evs = events@;
        let ghost reg = self.reg();
        let ghost sc0 = self.scope();
        let mut out: Vec<Node> = Vec::new();
        let mut j = i;
        loop
            invariant
                i <= j <= evs.len(),
                evs == events@,
                self.reg() == reg,
                reg == old(self).reg(),
                sc0 == old(self).scope(),
                s_children(evs, reg, i as int, sc0) == (match s_children(
                    evs,
                    reg,
                    j as int,
                    self.scope(),
                ) {
                    (Ok(rest), k, eof, h) => (
                        Ok::<Seq<PNode>, StreamError>(nodes_view(out@) + rest),
                        k,
                        eof,
                        h,
                    ),
                    (Err(f), k, eof, h) => (Err::<Seq<PNode>, StreamError>(f), k, eof, h),
                }),
            decreases evs.len() - j,
        {
            let closed_level = self.end_tag.is_some();
            let (st, k) = self.next(events, j);
            match st {
                Step::Done => {
                    assert(nodes_view(out@) + seq![] =~= nodes_view(out@));
                    return (Ok(out), k, false, self.html_block);
                },
                Step::Eof => {
                    if closed_level || self.html_block {
                        return (Err(StreamError::MissingEnd), k, true, self.html_block);
                    }
                    assert(nodes_view(out@) + seq![] =~= nodes_view(out@));
                    return (Ok(out), k, true, false);
                },
                Step::Fatal(f) => {
                    return (Err(f), k, false, self.html_block);
                },
                Step::Node(n) => {
                    let ghost before = out@;
                    out.push(n);
                    proof {
                        assert(out@.drop_last() =~= before);
                        assert(nodes_view(out@) == nodes_view(before).push(node_view(n)));
                        match s_children(evs, reg, k as int, self.scope()) {
                            (Ok(rest), _, _, _) => {
                                assert(nodes_view(before) + (seq![node_view(n)] + rest)
                                    =~= nodes_view(out@) + rest);
                            },
                            _ => {},
                        }
                    }
                    j = k;
                },
            }
        }
    }

    /// One step of the walk from event `i`: a node, the end of the level,
    /// the end of the stream, or a contract error; and the next index.
    pub fn next(&mut self, events: &Vec<(Event, Range<usize>)>, i: usize) -> (r: (Step, usize))
        requires
            i <= events@.len(),
        ensures
            final(self).reg() == old(self).reg(),
            r.1 <= events@.len(),
            r.1 >= i,
            r.0 is Node ==> r.1 > i,
            (step_view(r.0), r.1 as int, final(self).scope()) == s_next(
                events@,
                old(self).reg(),
                i as int,
                old(self).scope(),
            ),
        decreases events@.len() - i, 2int,
    {
        if i >= events.len() {
            return (Step::Eof, i);
        }
        let range = copy_range(&events[i].1);
        match &events[i].0 {
            Event::Start(Tag::HtmlBlock) => {
                self.html_block = true;
                self.next(events, i + 1)
            },
            Event::End(TagEnd::HtmlBlock) => {
                if self.html_block {
                    self.html_block = false;
                    self.next(events, i + 1)
                } else {
                    (Step::Fatal(StreamError::UnexpectedEnd), i + 1)
                }
            },
            Event::SoftBreak => self.next(events, i + 1),
            Event::Start(_) => self.render_tag(events, i),
            Event::End(e) => {
                if self.end_tag == Some(*e) && !self.html_block {
                    (Step::Done, i + 1)
                } else {
                    (Step::Fatal(StreamError::UnexpectedEnd), i + 1)
                }
            },
            Event::Text(s) => (
                Step::Node(leaf_node(NodeKind::Text { text: clone_string(s), range })),
                i + 1,
            ),
            Event::Code(s) => (
                Step::Node(leaf_node(NodeKind::Code { text: clone_string(s), range })),
                i + 1,
            ),
            Event::Html(_) => self.html(events, i),
            Event::InlineHtml(_) => self.html(events, i),
            Event::FootnoteReference(_) => (
                Step::Node(leaf_node(NodeKind::Error(HtmlError::FootnoteReference))),
                i + 1,
            ),
            Event::HardBreak => (Step::Node(leaf_node(NodeKind::HardBreak)), i + 1),
            Event::Rule => (Step::Node(leaf_node(NodeKind::Rule { range })), i + 1),
            Event::TaskListMarker(m) => (
                Step::Node(leaf_node(NodeKind::TaskListMarker { checked: *m, range })),
                i + 1,
            ),
            Event::Math(mode, content) => {
                let html = katex_html(content.as_str(), *mode == MathMode::Display);
                (Step::Node(leaf_node(NodeKind::Math { mode: *mode, html, range })), i + 1)
            },
        }
    }

    /// The structure opened by the start marker at event `i`.
    fn render_tag(&mut self, events: &Vec<(Event, Range<usize>)>, i: usize) -> (r: (Step, usize))
        requires
            i < events@.len(),
            events@[i as int].0 is Start,
            !(events@[i as int].0 matches Event::Start(Tag::HtmlBlock)),
        ensures
            final(self).reg() == old(self).reg(),
            r.1 <= events@.len(),
            r.1 >= i,
            r.0 is Node ==> r.1 > i,
            (step_view(r.0), r.1 as int, final(self).scope()) == s_render_tag(
                events@,
                old(self).reg(),
                i as int,
                old(self).scope(),
            ),
        decreases events@.len() - i, 1int,
    {
        if i >= events.len() {
            return (Step::Eof, i);
        }
        let range = copy_range(&events[i].1);
        let tag = match &events[i].0 {
            Event::Start(t) => t,
            _ => {
                return (Step::Eof, i);
            },
        };
        let end = crate::event::as_closing_tag(tag);
        match tag {
            Tag::CodeBlock(kind) => {
                let (c, j) = Renderer::children_text(events, i + 1, end);
                match c {
                    Err(f) => (Step::Fatal(f), j),
                    Ok(content) => {
                        let lang = match kind {
                            CodeBlockKind::Fenced(l) => Some(clone_string(l)),
                            CodeBlockKind::Indented => None,
                        };
                        let highlighted = match (&content, &lang) {
                            (Some(c), Some(l)) => self.context.highlight(c.as_str(), l.as_str()),
                            _ => None,
                        };
                        let node = leaf_node(
                            NodeKind::CodeBlock { content, lang, highlighted, range },
                        );
                        (Step::Node(node), j)
                    },
                }
            },
            Tag::MetadataBlock(_) => {
                let (c, j) = Renderer::children_text(events, i + 1, end);
                match c {
                    Err(f) => (Step::Fatal(f), j),
                    Ok(content) => (Step::Node(leaf_node(NodeKind::Frontmatter(content))), j),
                }
            },
            Tag::TableCell => {
                let align = match &self.column_alignment {
                    Some(a) => {
                        if self.cell_index < a.len() {
                            a[self.cell_index]
                        } else {
                            return (Step::Fatal(StreamError::CellOutsideTable), i + 1);
                        }
                    },
                    None => {
                        return (Step::Fatal(StreamError::CellOutsideTable), i + 1);
                    },
                };
                self.cell_index = self.cell_index + 1;
                let mut sub = self.sub(Some(end), self.component_name(), false);
                let (res, j, _, _) = sub.children(events, i + 1);
                match res {
                    Ok(children) => (Step::Node(Node { kind: NodeKind::Cell(align), children }), j),
                    Err(f) => (Step::Fatal(f), j),
                }
            },
            _ => {
                if let Tag::Table(a) = tag {
                    self.column_alignment = Some(clone_alignments(a));
                }
                let mut sub = self.sub(Some(end), self.component_name(), false);
                let (res, j, _, _) = sub.children(events, i + 1);
                let children = match res {
                    Ok(children) => children,
                    Err(f) => {
                        return (Step::Fatal(f), j);
                    },
                };
                let kind = match tag {
                    Tag::Paragraph => NodeKind::Paragraph,
                    Tag::Heading(l) => NodeKind::Heading(*l),
                    Tag::BlockQuote => NodeKind::BlockQuote,
                    Tag::List(s) => NodeKind::List(*s),
                    Tag::Item => NodeKind::Item,
                    Tag::Table(_) => NodeKind::Table,
                    Tag::TableHead => NodeKind::TableHead,
                    Tag::TableRow => NodeKind::TableRow,
                    Tag::Emphasis => NodeKind::Emphasis,
                    Tag::Strong => NodeKind::Strong,
                    Tag::Strikethrough => NodeKind::Strikethrough,
                    Tag::Link { link_type, dest_url, title } => NodeKind::Link {
                        url: clone_string(dest_url),
                        title: clone_string(title),
                        link_type: *link_type,
                        image: false,
                    },
                    Tag::Image { link_type, dest_url, title } => NodeKind::Link {
                        url: clone_string(dest_url),
                        title: clone_string(title),
                        link_type: *link_type,
                        image: true,
                    },
                    _ => {
                        return (
                            Step::Node(leaf_node(NodeKind::Error(HtmlError::FootnoteDefinition))),
                            j,
                        );
                    },
                };
                (Step::Node(Node { kind, children }), j)
            },
        }
    }

    /// Raw html at event `i`: a component, the end of the component whose
    /// children are being captured, an error, or html shown as it is.
    fn html(&mut self, events: &Vec<(Event, Range<usize>)>, i: usize) -> (r: (Step, usize))
        requires
            i < events@.len(),
            events@[i as int].0 is Html || events@[i as int].0 is InlineHtml,
        ensures
            final(self).reg() == old(self).reg(),
            r.1 <= events@.len(),
            r.1 >= i,
            r.0 is Node ==> r.1 > i,
            (step_view(r.0), r.1 as int, final(self).scope()) == s_html(
                events@,
                old(self).reg(),
                i as int,
                old(self).scope(),
            ),
        decreases events@.len() - i, 1int,
    {
        if i >= events.len() {
            return (Step::Eof, i);
        }
        let range = copy_range(&events[i].1);
        let s = match &events[i].0 {
            Event::Html(x) => x,
            Event::InlineHtml(x) => x,
            _ => {
                return (Step::Eof, i);
            },
        };
        match &self.current_component {
            None => {
                if self.end_tag.is_none() && is_probably_custom_component(s.as_str()) {
                    self.custom_component(events, i, s)
                } else {
                    let node = leaf_node(
                        NodeKind::RawHtml { html: clone_string(s), range: Some(range) },
                    );
                    (Step::Node(node), i + 1)
                }
            },
            Some(x) => {
                let closing = is_closing_marker(s.as_str(), x);
                if self.end_tag.is_none() && closing {
                    (Step::Done, i + 1)
                } else if self.end_tag.is_none() && is_probably_custom_component(s.as_str()) {
                    let e = HtmlError::NotClosed(clone_string(x));
                    (Step::Node(leaf_node(NodeKind::Error(e))), i + 1)
                } else if self.end_tag.is_some() && closing {
                    (Step::Node(leaf_node(NodeKind::Error(HtmlError::NewlineBeforeEnd))), i + 1)
                } else {
                    let node = leaf_node(NodeKind::RawHtml { html: clone_string(s), range: None });
                    (Step::Node(node), i + 1)
                }
            },
        }
    }

    /// The component called by the raw html `raw_html` of event `i`.
    fn custom_component(
        &mut self,
        events: &Vec<(Event, Range<usize>)>,
        i: usize,
        raw_html: &String,
    ) -> (r: (Step, usize))
        requires
            i < events@.len(),
        ensures
            final(self).reg() == old(self).reg(),
            r.1 <= events@.len(),
            r.1 >= i,
            r.0 is Node ==> r.1 > i,
            (step_view(r.0), r.1 as int, final(self).scope()) == s_component(
                events@,
                old(self).reg(),
                i as int,
                raw_html@,
                old(self).scope(),
            ),
        decreases events@.len() - i, 0int,
    {
        if i >= events.len() {
            return (Step::Eof, i);
        }
        let call = match ComponentCall::parse(raw_html.as_str()) {
            Ok(c) => c,
            Err(e) => {
                return (Step::Node(leaf_node(NodeKind::Error(HtmlError::Tag(e)))), i + 1);
            },
        };
        if !self.is_registered(&call.name) {
            let e = HtmlError::UnknownComponent(call.name);
            return (Step::Node(leaf_node(NodeKind::Error(e))), i + 1);
        }
        if !call.children {
            let kind = NodeKind::Component {
                name: call.name,
                attributes: call.attributes,
                has_children: false,
            };
            return (Step::Node(leaf_node(kind)), i + 1);
        }
        let mut capture = self.sub(self.end_tag, Some(clone_string(&call.name)), self.html_block);
        let (res, j, eof, html) = capture.children(events, i + 1);
        match res {
            Err(f) => (Step::Fatal(f), j),
            Ok(children) => {
                self.html_block = html;
                if eof {
                    let e = HtmlError::NotClosed(call.name);
                    (Step::Node(leaf_node(NodeKind::Error(e))), j)
                } else {
                    let kind = NodeKind::Component {
                        name: call.name,
                        attributes: call.attributes,
                        has_children: true,
                    };
                    (Step::Node(Node { kind, children }), j)
                }
            },
        }
    }

    /// The literal text inside the structure whose content starts at event
    /// `i`, and the index after its end marker `end`.
    fn children_text(events: &Vec<(Event, Range<usize>)>, i: usize, end: TagEnd) -> (r: (
        Result<Option<String>, StreamError>,
        usize,
    ))
        requires
            i <= events@.len(),
        ensures
            r.1 <= events@.len(),
            r.1 >= i,
            ({
                let (res, j) = s_children_text(events@, i as int, end);
                &&& r.1 == j
                &&& match res {
                    Ok(t) => r.0 matches Ok(x) && opt_str(x) == t,
                    Err(f) => r.0 matches Err(g) && g == f,
                }
            }),
    {
        if i >= events.len() {
            return (Err(StreamError::MissingEnd), i);
        }
        match &events[i].0 {
            Event::End(e) => {
                if *e == end {
                    (Ok(None), i + 1)
                } else {
                    (Err(StreamError::ExpectedText), i)
                }
            },
            Event::Text(s) => {
                if i + 1 >= events.len() {
                    return (Err(StreamError::MissingEnd), i);
                }
                match &events[i + 1].0 {
                    Event::End(e) => {
                        if *e == end {
                            (Ok(Some(clone_string(s))), i + 2)
                        } else {
                            (Err(StreamError::ExpectedText), i)
                        }
                    },
                    _ => (Err(StreamError::ExpectedText), i),
                }
            },
            _ => (Err(StreamError::ExpectedText), i),
        }
    }
}

} // verus!

verus! {

/// Renders a whole event stream: the top-level nodes, or the contract error
/// that stopped the pass.
pub fn render_events(context: &RenderContext, events: &Vec<(Event, Range<usize>)>) -> (r: Result<
    Vec<Node>,
    StreamError,
>)
    ensures
        match s_document(events@, registry(context)) {
            Ok(ns) => r matches Ok(v) && nodes_view(v@) == ns,
            Err(f) => r matches Err(g) && g == f,
        },
{
    let mut top = Renderer::new(context);
    let (res, _, _, _) = top.children(events, 0);
    res
}

} // verus!

verus! {

/// A formula is one leaf in its own place: it holds what KaTeX makes of
/// the formula, no html at all (shown as an error) when KaTeX rejects it,
/// and the level's children are that leaf followed by the children that
/// come after it, which render as they would without it.
pub proof fn lemma_math_is_one_leaf(
    evs: Seq<(Event, Range<usize>)>,
    reg: Seq<Seq<char>>,
    i: int,
    sc: SScope,
    mode: MathMode,
    formula: String,
)
    requires
        0 <= i < evs.len(),
        evs[i].0 == Event::Math(mode, formula),
    ensures
        s_children(evs, reg, i, sc) == match s_children(evs, reg, i + 1, sc) {
            (Ok(rest), k, eof, h) => (
                Ok::<Seq<PNode>, StreamError>(
                    seq![
                        leaf(
                            PKind::Math(
                                mode,
                                katex_of(formula@, mode == MathMode::Display),
                                rng(evs[i].1).0,
                                rng(evs[i].1).1,
                            ),
                        ),
                    ] + rest,
                ),
                k,
                eof,
                h,
            ),
            (Err(f), k, eof, h) => (Err::<Seq<PNode>, StreamError>(f), k, eof, h),
        },
{
    let r = rng(evs[i].1);
    assert(s_next(evs, reg, i, sc) == (
        SStep::Node(leaf(PKind::Math(mode, katex_of(formula@, mode == MathMode::Display), r.0, r.1))),
        i + 1,
        sc,
    ));
}

/// Every row starts again at the first column: the cells of a row, and
/// of a table head, are read in a scope whose cell index is zero.
pub proof fn lemma_row_starts_at_first_column(
    evs: Seq<(Event, Range<usize>)>,
    reg: Seq<Seq<char>>,
    i: int,
    sc: SScope,
)
    requires
        0 <= i < evs.len(),
        evs[i].0 == Event::Start(Tag::TableRow) || evs[i].0 == Event::Start(Tag::TableHead),
    ensures
        ({
            let inner = child_scope(sc, if evs[i].0 == Event::Start(Tag::TableRow) {
                TagEnd::TableRow
            } else {
                TagEnd::TableHead
            });
            &&& inner.cell == 0
            &&& inner.align == sc.align
            &&& s_next(evs, reg, i, sc) == match s_children(evs, reg, i + 1, inner) {
                (Ok(ch), j, _, _) => (
                    SStep::Node(
                        PNode {
                            kind: if evs[i].0 == Event::Start(Tag::TableRow) {
                                PKind::TableRow
                            } else {
                                PKind::TableHead
                            },
                            children: ch,
                        },
                    ),
                    j,
                    sc,
                ),
                (Err(f), j, _, _) => (SStep::Fatal(f), j, sc),
            }
        }),
{
    assert(s_next(evs, reg, i, sc) == s_render_tag(evs, reg, i, sc));
}

/// A cell takes the alignment of its column, the column being the number
/// of cells before it in its row; the next cell of the row is one column
/// further.
pub proof fn lemma_cell_takes_its_column(
    evs: Seq<(Event, Range<usize>)>,
    reg: Seq<Seq<char>>,
    i: int,
    sc: SScope,
    align: Seq<Alignment>,
)
    requires
        0 <= i < evs.len(),
        evs[i].0 == Event::Start(Tag::TableCell),
        sc.align == Some(align),
        0 <= sc.cell < align.len(),
    ensures
        ({
            let next = SScope { cell: sc.cell + 1, ..sc };
            s_next(evs, reg, i, sc) == match s_children(
                evs,
                reg,
                i + 1,
                child_scope(next, TagEnd::TableCell),
            ) {
                (Ok(ch), j, _, _) => (
                    SStep::Node(PNode { kind: PKind::Cell(align[sc.cell]), children: ch }),
                    j,
                    next,
                ),
                (Err(f), j, _, _) => (SStep::Fatal(f), j, next),
            }
        }),
{
    assert(s_next(evs, reg, i, sc) == s_render_tag(evs, reg, i, sc));
}

} // verus!

verus! {

/// From index `i` on, the end markers close, innermost first, the
/// structures of `open` (innermost last) and those opened on the way; the
/// markers of html blocks are left aside, as the renderer leaves them.
pub open spec fn nests(evs: Seq<(Event, Range<usize>)>, i: int, open: Seq<TagEnd>) -> bool
    decreases evs.len() - i,
{
    if i < 0 || i >= evs.len() {
        open.len() == 0
    } else {
        match evs[i].0 {
            Event::Start(Tag::HtmlBlock) => nests(evs, i + 1, open),
            Event::End(TagEnd::HtmlBlock) => nests(evs, i + 1, open),
            Event::Start(t) => nests(evs, i + 1, open.push(closing_of(t))),
            Event::End(e) => open.len() > 0 && open.last() == e && nests(
                evs,
                i + 1,
                open.drop_last(),
            ),
            _ => nests(evs, i + 1, open),
        }
    }
}

proof fn lemma_next_nests(
    evs: Seq<(Event, Range<usize>)>,
    reg: Seq<Seq<char>>,
    i: int,
    sc: SScope,
    open: Seq<TagEnd>,
)
    requires
        0 <= i <= evs.len(),
    ensures
        ({
            let (st, j, sc2) = s_next(evs, reg, i, sc);
            &&& sc2.end == sc.end
            &&& sc2.comp == sc.comp
            &&& st is Node ==> (nests(evs, j, open) ==> nests(evs, i, open))
            &&& st is Eof ==> j == evs.len() && (nests(evs, j, open) ==> nests(evs, i, open))
            &&& st is Done ==> (sc.end is Some || sc.comp is Some)
            &&& st is Done && sc.end is None ==> (nests(evs, j, open) ==> nests(evs, i, open))
            &&& st is Done && sc.end is Some ==> (nests(evs, j, open) ==> nests(
                evs,
                i,
                open.push(sc.end->0),
            ))
        }),
    decreases evs.len() - i, 2int,
{
    if i < evs.len() {
        match evs[i].0 {
            Event::Start(Tag::HtmlBlock) => lemma_next_nests(
                evs,
                reg,
                i + 1,
                SScope { html: true, ..sc },
                open,
            ),
            Event::End(TagEnd::HtmlBlock) => if sc.html {
                lemma_next_nests(evs, reg, i + 1, SScope { html: false, ..sc }, open)
            },
            Event::SoftBreak => lemma_next_nests(evs, reg, i + 1, sc, open),
            Event::Start(t) => {
                lemma_tag_nests(evs, reg, i, sc, open);
            },
            Event::End(e) => {
                if sc.end == Some(e) {
                    assert(open.push(e).drop_last() =~= open);
                }
            },
            Event::Html(_) => lemma_html_nests(evs, reg, i, sc, open),
            Event::InlineHtml(_) => lemma_html_nests(evs, reg, i, sc, open),
            _ => {},
        }
    }
}

proof fn lemma_tag_nests(
    evs: Seq<(Event, Range<usize>)>,
    reg: Seq<Seq<char>>,
    i: int,
    sc: SScope,
    open: Seq<TagEnd>,
)
    requires
        0 <= i < evs.len(),
        evs[i].0 is Start,
        !(evs[i].0 matches Event::Start(Tag::HtmlBlock)),
    ensures
        ({
            let (st, j, sc2) = s_render_tag(evs, reg, i, sc);
            &&& sc2.end == sc.end
            &&& sc2.comp == sc.comp
            &&& !(st is Eof)
            &&& !(st is Done)
            &&& st is Node ==> (nests(evs, j, open) ==> nests(evs, i, open))
        }),
    decreases evs.len() - i, 1int,
{
    let t = evs[i].0->Start_0;
    let end = closing_of(t);
    let inner = open.push(end);
    assert(nests(evs, i + 1, inner) ==> nests(evs, i, open));
    if holds_text(t) {
        assert(inner.drop_last() =~= open);
        if i + 1 < evs.len() && evs[i + 1].0 == Event::End(end) {
            assert(nests(evs, i + 2, open) ==> nests(evs, i + 1, inner));
        }
        if i + 2 < evs.len() && evs[i + 1].0 is Text && evs[i + 2].0 == Event::End(end) {
            assert(nests(evs, i + 3, open) ==> nests(evs, i + 2, inner));
            assert(nests(evs, i + 2, inner) ==> nests(evs, i + 1, inner));
        }
    } else if t is TableCell {
        match sc.align {
            Some(a) => if 0 <= sc.cell < a.len() {
                let sc2 = SScope { cell: sc.cell + 1, ..sc };
                lemma_children_nests(evs, reg, i + 1, child_scope(sc2, end), open);
            },
            None => {},
        }
    } else {
        let sc2 = match t {
            Tag::Table(a) => SScope { align: Some(a@), ..sc },
            _ => sc,
        };
        lemma_children_nests(evs, reg, i + 1, child_scope(sc2, end), open);
    }
}

proof fn lemma_html_nests(
    evs: Seq<(Event, Range<usize>)>,
    reg: Seq<Seq<char>>,
    i: int,
    sc: SScope,
    open: Seq<TagEnd>,
)
    requires
        0 <= i < evs.len(),
        evs[i].0 is Html || evs[i].0 is InlineHtml,
    ensures
        ({
            let (st, j, sc2) = s_html(evs, reg, i, sc);
            &&& sc2.end == sc.end
            &&& sc2.comp == sc.comp
            &&& !(st is Eof)
            &&& st is Done ==> sc.end is None && sc.comp is Some
            &&& (st is Node || st is Done) ==> (nests(evs, j, open) ==> nests(evs, i, open))
        }),
    decreases evs.len() - i, 1int,
{
    let s = match evs[i].0 {
        Event::Html(x) => x@,
        Event::InlineHtml(x) => x@,
        _ => seq![],
    };
    if sc.comp is None && sc.end is None && probably_component(s) {
        lemma_component_nests(evs, reg, i, s, sc, open);
    }
}

proof fn lemma_component_nests(
    evs: Seq<(Event, Range<usize>)>,
    reg: Seq<Seq<char>>,
    i: int,
    s: Seq<char>,
    sc: SScope,
    open: Seq<TagEnd>,
)
    requires
        0 <= i < evs.len(),
        evs[i].0 is Html || evs[i].0 is InlineHtml,
        sc.end is None,
    ensures
        ({
            let (st, j, sc2) = s_component(evs, reg, i, s, sc);
            &&& sc2.end == sc.end
            &&& sc2.comp == sc.comp
            &&& !(st is Eof)
            &&& !(st is Done)
            &&& st is Node ==> (nests(evs, j, open) ==> nests(evs, i, open))
        }),
    decreases evs.len() - i, 0int,
{
    match parse_call(s) {
        Ok(c) => if reg.contains(c.name) && c.children {
            let capture = SScope {
                align: sc.align,
                cell: 0,
                end: sc.end,
                comp: Some(c.name),
                html: sc.html,
            };
            lemma_children_nests(evs, reg, i + 1, capture, open);
        },
        Err(_) => {},
    }
}

proof fn lemma_children_nests(
    evs: Seq<(Event, Range<usize>)>,
    reg: Seq<Seq<char>>,
    i: int,
    sc: SScope,
    open: Seq<TagEnd>,
)
    requires
        0 <= i <= evs.len(),
    ensures
        ({
            let (res, k, eof, _) = s_children(evs, reg, i, sc);
            res is Ok ==> {
                &&& eof ==> k == evs.len()
                &&& !eof ==> (sc.end is Some || sc.comp is Some)
                &&& sc.end is None ==> (nests(evs, k, open) ==> nests(evs, i, open))
                &&& sc.end is Some ==> (nests(evs, k, open) ==> nests(
                    evs,
                    i,
                    open.push(sc.end->0),
                ))
            }
        }),
    decreases evs.len() - i, 3int,
{
    let (st, j, sc2) = s_next(evs, reg, i, sc);
    let stack = match sc.end {
        Some(e) => open.push(e),
        None => open,
    };
    lemma_next_nests(evs, reg, i, sc, open);
    lemma_next_nests(evs, reg, i, sc, stack);
    match st {
        SStep::Node(n) => if i < j <= evs.len() {
            lemma_children_nests(evs, reg, j, sc2, open);
        },
        _ => {},
    }
}

/// The renderer keeps the stack discipline of the stream: when it renders a
/// document without a contract error, every end marker closes the
/// innermost structure still open, and none is left open at the end.
pub proof fn lemma_rendered_documents_nest(evs: Seq<(Event, Range<usize>)>, reg: Seq<Seq<char>>)
    requires
        s_document(evs, reg) is Ok,
    ensures
        nests(evs, 0, seq![]),
{
    let top = SScope { align: None, cell: 0, end: None, comp: None, html: false };
    lemma_children_nests(evs, reg, 0, top, seq![]);
}

/// Start markers (html blocks aside) from index `i` on.
pub open spec fn starts_from(evs: Seq<(Event, Range<usize>)>, i: int) -> int
    decreases evs.len() - i,
{
    if i < 0 || i >= evs.len() {
        0
    } else {
        starts_from(evs, i + 1) + match evs[i].0 {
            Event::Start(Tag::HtmlBlock) => 0int,
            Event::Start(_) => 1int,
            _ => 0int,
        }
    }
}

/// End markers (html blocks aside) from index `i` on.
pub open spec fn ends_from(evs: Seq<(Event, Range<usize>)>, i: int) -> int
    decreases evs.len() - i,
{
    if i < 0 || i >= evs.len() {
        0
    } else {
        ends_from(evs, i + 1) + match evs[i].0 {
            Event::End(TagEnd::HtmlBlock) => 0int,
            Event::End(_) => 1int,
            _ => 0int,
        }
    }
}

proof fn lemma_nests_counts(evs: Seq<(Event, Range<usize>)>, i: int, open: Seq<TagEnd>)
    requires
        0 <= i,
        nests(evs, i, open),
    ensures
        starts_from(evs, i) + open.len() == ends_from(evs, i),
    decreases evs.len() - i,
{
    if i < evs.len() {
        match evs[i].0 {
            Event::Start(Tag::HtmlBlock) => lemma_nests_counts(evs, i + 1, open),
            Event::End(TagEnd::HtmlBlock) => lemma_nests_counts(evs, i + 1, open),
            Event::Start(t) => lemma_nests_counts(evs, i + 1, open.push(closing_of(t))),
            Event::End(e) => lemma_nests_counts(evs, i + 1, open.drop_last()),
            _ => lemma_nests_counts(evs, i + 1, open),
        }
    }
}

/// A document that renders without a contract error has as many start
/// markers as end markers (html blocks aside).
pub proof fn lemma_rendered_documents_balance(
    evs: Seq<(Event, Range<usize>)>,
    reg: Seq<Seq<char>>,
)
    requires
        s_document(evs, reg) is Ok,
    ensures
        starts_from(evs, 0) == ends_from(evs, 0),
{
    lemma_rendered_documents_nest(evs, reg);
    lemma_nests_counts(evs, 0, seq![]);
}

} // verus!
