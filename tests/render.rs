use leptos_markdown::event::{Alignment, Event, MathMode, Tag, TagEnd};
use leptos_markdown::highlight::RenderContext;
use leptos_markdown::render::{
    is_probably_custom_component, render_events, HtmlError, Node, NodeKind, StreamError,
};
use std::ops::Range;

fn ctx(components: &[&str]) -> RenderContext {
    let names = components.iter().map(|s| s.to_string()).collect();
    match RenderContext::new(None, names) {
        Ok(c) => c,
        Err(_) => panic!("the default theme exists"),
    }
}

fn ev(e: Event, r: Range<usize>) -> (Event, Range<usize>) {
    (e, r)
}

fn text_node(t: &str, range: Range<usize>) -> Node {
    Node { kind: NodeKind::Text { text: t.to_string(), range }, children: vec![] }
}

fn node(kind: NodeKind, children: Vec<Node>) -> Node {
    Node { kind, children }
}

#[test]
fn box_component_captures_its_children() {
    // <box>\n\n**bold**\n\n</box>
    let events = vec![
        ev(Event::Start(Tag::HtmlBlock), 0..6),
        ev(Event::Html("<box>\n".to_string()), 0..6),
        ev(Event::End(TagEnd::HtmlBlock), 0..6),
        ev(Event::Start(Tag::Paragraph), 7..15),
        ev(Event::Start(Tag::Strong), 7..15),
        ev(Event::Text("bold".to_string()), 9..13),
        ev(Event::End(TagEnd::Strong), 7..15),
        ev(Event::End(TagEnd::Paragraph), 7..15),
        ev(Event::Start(Tag::HtmlBlock), 17..23),
        ev(Event::Html("</box>".to_string()), 17..23),
        ev(Event::End(TagEnd::HtmlBlock), 17..23),
    ];
    let nodes = render_events(&ctx(&["box"]), &events).unwrap();
    assert_eq!(
        nodes,
        vec![node(
            NodeKind::Component { name: "box".to_string(), attributes: vec![], has_children: true },
            vec![node(
                NodeKind::Paragraph,
                vec![node(NodeKind::Strong, vec![text_node("bold", 9..13)])]
            )]
        )]
    );
}

#[test]
fn self_closing_counter_component() {
    let events = vec![
        ev(Event::Start(Tag::HtmlBlock), 0..22),
        ev(Event::Html("<counter initial=\"5\"/>".to_string()), 0..22),
        ev(Event::End(TagEnd::HtmlBlock), 0..22),
    ];
    let nodes = render_events(&ctx(&["counter"]), &events).unwrap();
    assert_eq!(
        nodes,
        vec![node(
            NodeKind::Component {
                name: "counter".to_string(),
                attributes: vec![("initial".to_string(), "5".to_string())],
                has_children: false
            },
            vec![]
        )]
    );
}

#[test]
fn unknown_component_is_a_local_error() {
    let events = vec![ev(Event::Html("<nope/>".to_string()), 0..7), ev(Event::Rule, 8..11)];
    let nodes = render_events(&ctx(&["box"]), &events).unwrap();
    assert_eq!(
        nodes,
        vec![
            node(NodeKind::Error(HtmlError::UnknownComponent("nope".to_string())), vec![]),
            node(NodeKind::Rule { range: 8..11 }, vec![]),
        ]
    );
}

#[test]
fn missing_closing_marker_is_a_local_error() {
    let events = vec![
        ev(Event::Html("<box>".to_string()), 0..5),
        ev(Event::Text("x".to_string()), 6..7),
    ];
    let nodes = render_events(&ctx(&["box"]), &events).unwrap();
    assert_eq!(
        nodes,
        vec![node(NodeKind::Error(HtmlError::NotClosed("box".to_string())), vec![])]
    );
}

#[test]
fn raw_html_inside_a_paragraph_is_shown() {
    let events = vec![
        ev(Event::Start(Tag::Paragraph), 0..8),
        ev(Event::InlineHtml("<b>".to_string()), 0..3),
        ev(Event::End(TagEnd::Paragraph), 0..8),
    ];
    let nodes = render_events(&ctx(&[]), &events).unwrap();
    assert_eq!(
        nodes,
        vec![node(
            NodeKind::Paragraph,
            vec![node(NodeKind::RawHtml { html: "<b>".to_string(), range: Some(0..3) }, vec![])]
        )]
    );
}

fn cell(t: &str, r: Range<usize>) -> Vec<(Event, Range<usize>)> {
    vec![
        ev(Event::Start(Tag::TableCell), r.clone()),
        ev(Event::Text(t.to_string()), r.clone()),
        ev(Event::End(TagEnd::TableCell), r),
    ]
}

#[test]
fn table_cells_are_aligned_by_column() {
    let align = vec![Alignment::Left, Alignment::Right];
    let mut events = vec![ev(Event::Start(Tag::Table(align)), 0..30)];
    events.push(ev(Event::Start(Tag::TableHead), 0..10));
    events.extend(cell("a", 0..1));
    events.extend(cell("b", 2..3));
    events.push(ev(Event::End(TagEnd::TableHead), 0..10));
    for row in 0..2 {
        let base = 10 + 10 * row;
        events.push(ev(Event::Start(Tag::TableRow), base..base + 10));
        events.extend(cell("c", base..base + 1));
        events.extend(cell("d", base + 2..base + 3));
        events.push(ev(Event::End(TagEnd::TableRow), base..base + 10));
    }
    events.push(ev(Event::End(TagEnd::Table), 0..30));
    let nodes = render_events(&ctx(&[]), &events).unwrap();
    assert_eq!(nodes.len(), 1);
    let table = &nodes[0];
    assert_eq!(table.kind, NodeKind::Table);
    assert_eq!(table.children.len(), 3);
    for part in &table.children {
        let kinds: Vec<&NodeKind> = part.children.iter().map(|c| &c.kind).collect();
        assert_eq!(
            kinds,
            vec![&NodeKind::Cell(Alignment::Left), &NodeKind::Cell(Alignment::Right)]
        );
    }
}

#[test]
fn too_many_cells_break_the_contract() {
    let events = vec![
        ev(Event::Start(Tag::Table(vec![Alignment::Unaligned])), 0..9),
        ev(Event::Start(Tag::TableRow), 0..9),
        ev(Event::Start(Tag::TableCell), 0..1),
        ev(Event::End(TagEnd::TableCell), 0..1),
        ev(Event::Start(Tag::TableCell), 2..3),
        ev(Event::End(TagEnd::TableCell), 2..3),
        ev(Event::End(TagEnd::TableRow), 0..9),
        ev(Event::End(TagEnd::Table), 0..9),
    ];
    assert_eq!(render_events(&ctx(&[]), &events), Err(StreamError::CellOutsideTable));
}

#[test]
fn invalid_math_is_one_local_error() {
    let events = vec![
        ev(Event::Start(Tag::Paragraph), 0..20),
        ev(Event::Text("a ".to_string()), 0..2),
        ev(Event::Math(MathMode::Inline, "\\frac{".to_string()), 2..10),
        ev(Event::Text(" b".to_string()), 10..12),
        ev(Event::End(TagEnd::Paragraph), 0..20),
    ];
    let nodes = render_events(&ctx(&[]), &events).unwrap();
    assert_eq!(nodes.len(), 1);
    let para = &nodes[0];
    assert_eq!(para.children.len(), 3);
    assert_eq!(para.children[0], text_node("a ", 0..2));
    assert_eq!(
        para.children[1].kind,
        NodeKind::Math { mode: MathMode::Inline, html: None, range: 2..10 }
    );
    assert_eq!(para.children[2], text_node(" b", 10..12));
}

#[test]
fn valid_math_is_rendered() {
    let events = vec![ev(Event::Math(MathMode::Display, "x^2".to_string()), 0..7)];
    let nodes = render_events(&ctx(&[]), &events).unwrap();
    match &nodes[0].kind {
        NodeKind::Math { mode, html, range } => {
            assert_eq!(*mode, MathMode::Display);
            assert_eq!(*range, 0..7);
            assert!(html.as_ref().map(|h| h.contains("katex")).unwrap_or(false));
        }
        _ => panic!("a math node is expected"),
    }
}

#[test]
fn wrong_end_marker_is_fatal() {
    let events = vec![
        ev(Event::Start(Tag::Paragraph), 0..3),
        ev(Event::End(TagEnd::Strong), 0..3),
    ];
    assert_eq!(render_events(&ctx(&[]), &events), Err(StreamError::UnexpectedEnd));
}

#[test]
fn missing_end_marker_is_fatal() {
    let events = vec![ev(Event::Start(Tag::Emphasis), 0..3), ev(Event::Text("x".to_string()), 1..2)];
    assert_eq!(render_events(&ctx(&[]), &events), Err(StreamError::MissingEnd));
}

#[test]
fn code_block_without_language_keeps_raw_text() {
    let events = vec![
        ev(Event::Start(Tag::CodeBlock(leptos_markdown::event::CodeBlockKind::Indented)), 0..9),
        ev(Event::Text("let x;\n".to_string()), 4..11),
        ev(Event::End(TagEnd::CodeBlock), 0..9),
    ];
    let nodes = render_events(&ctx(&[]), &events).unwrap();
    assert_eq!(
        nodes[0].kind,
        NodeKind::CodeBlock {
            content: Some("let x;\n".to_string()),
            lang: None,
            highlighted: None,
            range: 0..9
        }
    );
}

#[test]
fn fenced_rust_code_is_highlighted() {
    let kind = leptos_markdown::event::CodeBlockKind::Fenced("rust".to_string());
    let events = vec![
        ev(Event::Start(Tag::CodeBlock(kind)), 0..20),
        ev(Event::Text("fn main() {}\n".to_string()), 8..21),
        ev(Event::End(TagEnd::CodeBlock), 0..20),
    ];
    let nodes = render_events(&ctx(&[]), &events).unwrap();
    match &nodes[0].kind {
        NodeKind::CodeBlock { highlighted, .. } => {
            let html = highlighted.clone().unwrap();
            assert!(html.contains("<pre"));
            assert_ne!(html, "fn main() {}\n");
        }
        _ => panic!("a code block is expected"),
    }
}

#[test]
fn metadata_goes_to_frontmatter() {
    let events = vec![
        ev(
            Event::Start(Tag::MetadataBlock(leptos_markdown::event::MetadataBlockKind::YamlStyle)),
            0..12,
        ),
        ev(Event::Text("title: x\n".to_string()), 4..13),
        ev(Event::End(TagEnd::MetadataBlock(leptos_markdown::event::MetadataBlockKind::YamlStyle)), 0..12),
    ];
    let nodes = render_events(&ctx(&[]), &events).unwrap();
    assert_eq!(nodes[0].kind, NodeKind::Frontmatter(Some("title: x\n".to_string())));
}

#[test]
fn soft_breaks_are_not_rendered() {
    let events = vec![
        ev(Event::Text("a".to_string()), 0..1),
        ev(Event::SoftBreak, 1..2),
        ev(Event::HardBreak, 2..3),
    ];
    let nodes = render_events(&ctx(&[]), &events).unwrap();
    assert_eq!(nodes, vec![text_node("a", 0..1), node(NodeKind::HardBreak, vec![])]);
}

#[test]
fn probably_a_component() {
    assert!(is_probably_custom_component("<box>"));
    assert!(is_probably_custom_component("<div>hello</div>") == false);
    assert!(!is_probably_custom_component("plain"));
}

#[test]
fn unknown_theme_is_refused() {
    assert!(RenderContext::new(Some("no such theme".to_string()), vec![]).is_err());
    assert!(RenderContext::new(Some("InspiredGitHub".to_string()), vec![]).is_ok());
}

#[test]
fn closing_marker_is_read_trimmed() {
    let events = vec![
        ev(Event::Html("<box>\n".to_string()), 0..6),
        ev(Event::Rule, 7..10),
        ev(Event::Html("  </box>\n".to_string()), 11..20),
        ev(Event::Text("after".to_string()), 21..26),
    ];
    let nodes = render_events(&ctx(&["box"]), &events).unwrap();
    assert_eq!(
        nodes,
        vec![
            node(
                NodeKind::Component {
                    name: "box".to_string(),
                    attributes: vec![],
                    has_children: true
                },
                vec![node(NodeKind::Rule { range: 7..10 }, vec![])]
            ),
            text_node("after", 21..26),
        ]
    );
}

#[test]
fn closing_marker_inside_a_paragraph_is_an_error() {
    let events = vec![
        ev(Event::Html("<box>".to_string()), 0..5),
        ev(Event::Start(Tag::Paragraph), 6..20),
        ev(Event::InlineHtml("</box>".to_string()), 6..12),
        ev(Event::End(TagEnd::Paragraph), 6..20),
        ev(Event::Html("</box>".to_string()), 21..27),
    ];
    let nodes = render_events(&ctx(&["box"]), &events).unwrap();
    assert_eq!(
        nodes,
        vec![node(
            NodeKind::Component { name: "box".to_string(), attributes: vec![], has_children: true },
            vec![node(
                NodeKind::Paragraph,
                vec![node(NodeKind::Error(HtmlError::NewlineBeforeEnd), vec![])]
            )]
        )]
    );
}

#[test]
fn other_component_inside_a_capture_is_an_error() {
    let events = vec![
        ev(Event::Html("<box>".to_string()), 0..5),
        ev(Event::Html("<other/>".to_string()), 6..14),
        ev(Event::Html("</box>".to_string()), 15..21),
    ];
    let nodes = render_events(&ctx(&["box", "other"]), &events).unwrap();
    assert_eq!(
        nodes,
        vec![node(
            NodeKind::Component { name: "box".to_string(), attributes: vec![], has_children: true },
            vec![node(NodeKind::Error(HtmlError::NotClosed("box".to_string())), vec![])]
        )]
    );
}

#[test]
fn malformed_tag_is_a_local_error() {
    let events = vec![ev(Event::Html("<box a>".to_string()), 0..7)];
    let nodes = render_events(&ctx(&["box"]), &events).unwrap();
    assert_eq!(
        nodes,
        vec![node(
            NodeKind::Error(HtmlError::Tag(leptos_markdown::component::TagError::MissingEquals)),
            vec![]
        )]
    );
}

#[test]
fn footnote_reference_is_unsupported() {
    let events = vec![ev(Event::FootnoteReference("1".to_string()), 0..4)];
    let nodes = render_events(&ctx(&[]), &events).unwrap();
    assert_eq!(nodes, vec![node(NodeKind::Error(HtmlError::FootnoteReference), vec![])]);
}

#[test]
fn end_marker_at_top_level_is_fatal() {
    let events = vec![ev(Event::End(TagEnd::Paragraph), 0..1)];
    assert_eq!(render_events(&ctx(&[]), &events), Err(StreamError::UnexpectedEnd));
}

#[test]
fn code_block_with_two_children_is_fatal() {
    let events = vec![
        ev(Event::Start(Tag::CodeBlock(leptos_markdown::event::CodeBlockKind::Indented)), 0..9),
        ev(Event::Text("a".to_string()), 0..1),
        ev(Event::Text("b".to_string()), 1..2),
        ev(Event::End(TagEnd::CodeBlock), 0..9),
    ];
    assert_eq!(render_events(&ctx(&[]), &events), Err(StreamError::ExpectedText));
}

#[test]
fn link_keeps_its_destination() {
    let events = vec![
        ev(
            Event::Start(Tag::Link {
                link_type: leptos_markdown::event::LinkType::Inline,
                dest_url: "https://example.org".to_string(),
                title: "t".to_string(),
            }),
            0..30,
        ),
        ev(Event::Text("x".to_string()), 1..2),
        ev(Event::End(TagEnd::Link), 0..30),
    ];
    let nodes = render_events(&ctx(&[]), &events).unwrap();
    assert_eq!(
        nodes,
        vec![node(
            NodeKind::Link {
                url: "https://example.org".to_string(),
                title: "t".to_string(),
                link_type: leptos_markdown::event::LinkType::Inline,
                image: false
            },
            vec![text_node("x", 1..2)]
        )]
    );
}

#[test]
fn every_documented_theme_loads() {
    let names = [
        "base16-ocean.dark",
        "base16-eighties.dark",
        "base16-mocha.dark",
        "base16-ocean.light",
        "InspiredGitHub",
        "Solarized (dark)",
        "Solarized (light)",
    ];
    for name in names {
        assert!(RenderContext::new(Some(name.to_string()), vec![]).is_ok(), "{name}");
    }
    assert!(RenderContext::new(Some("base16-ocean".to_string()), vec![]).is_err());
}

#[test]
fn unmatched_html_block_end_is_fatal() {
    let events = vec![ev(Event::End(TagEnd::HtmlBlock), 0..1)];
    assert_eq!(render_events(&ctx(&[]), &events), Err(StreamError::UnexpectedEnd));
    let events = vec![
        ev(Event::Start(Tag::Paragraph), 0..3),
        ev(Event::End(TagEnd::HtmlBlock), 0..1),
        ev(Event::End(TagEnd::Paragraph), 0..3),
    ];
    assert_eq!(render_events(&ctx(&[]), &events), Err(StreamError::UnexpectedEnd));
}

#[test]
fn unclosed_html_block_is_fatal() {
    let events = vec![
        ev(Event::Start(Tag::HtmlBlock), 0..5),
        ev(Event::Html("<p>".to_string()), 0..3),
    ];
    assert_eq!(render_events(&ctx(&[]), &events), Err(StreamError::MissingEnd));
}

#[test]
fn html_block_markers_that_pair_up_are_skipped() {
    let events = vec![
        ev(Event::Start(Tag::HtmlBlock), 0..9),
        ev(Event::Html("<p>a</p>\n".to_string()), 0..9),
        ev(Event::End(TagEnd::HtmlBlock), 0..9),
    ];
    let nodes = render_events(&ctx(&[]), &events).unwrap();
    assert_eq!(
        nodes,
        vec![node(
            NodeKind::RawHtml { html: "<p>a</p>\n".to_string(), range: Some(0..9) },
            vec![]
        )]
    );
}
