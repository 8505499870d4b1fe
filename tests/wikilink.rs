use leptos_markdown::event::{Event, LinkType, Tag, TagEnd};
use leptos_markdown::parse::{group_text, normalize};
use leptos_markdown::wikilink::wikilink_events;

fn wiki_start(url: &str) -> Event {
    Event::Start(Tag::Link {
        link_type: LinkType::Inline,
        dest_url: url.to_string(),
        title: "wiki".to_string(),
    })
}

fn text(s: &str) -> Event {
    Event::Text(s.to_string())
}

#[test]
fn parse_wikilink_no_alias() {
    let s = "here is a wikilink: [[link]]";
    let events = wikilink_events(s, 0, 28);
    assert_eq!(
        events,
        vec![
            (text("here is a wikilink: "), 0..20),
            (wiki_start("link"), 20..28),
            (text("link"), 22..26),
            (Event::End(TagEnd::Link), 20..28),
        ]
    );
}

#[test]
fn parse_wikilink_alias() {
    let s = "[[the url| with a strange content |😈| inside]]";
    let events: Vec<Event> = wikilink_events(s, 0, s.len())
        .into_iter()
        .map(|(t, _)| t)
        .collect();
    assert_eq!(
        events,
        vec![
            wiki_start("the url"),
            text(" with a strange content |😈| inside"),
            Event::End(TagEnd::Link),
        ]
    );
}

#[test]
fn simple_link_has_url_and_text() {
    let events = wikilink_events("[[link]]", 0, 8);
    assert_eq!(
        events,
        vec![
            (wiki_start("link"), 0..8),
            (text("link"), 2..6),
            (Event::End(TagEnd::Link), 0..8),
        ]
    );
}

#[test]
fn pipes_inside_alias_are_literal() {
    let events = wikilink_events("[[url|a|b]]", 0, 11);
    assert_eq!(
        events,
        vec![
            (wiki_start("url"), 0..11),
            (text("a|b"), 6..9),
            (Event::End(TagEnd::Link), 0..11),
        ]
    );
}

#[test]
fn unterminated_link_is_kept_as_text() {
    let s = "here [[oops";
    let events = wikilink_events(s, 0, s.len());
    assert_eq!(events, vec![(text("here "), 0..5), (text("[[oops"), 5..11)]);
    let joined: String = events
        .iter()
        .map(|(e, _)| match e {
            Event::Text(t) => t.clone(),
            _ => panic!("only text is expected"),
        })
        .collect();
    assert_eq!(joined, s);
}

#[test]
fn unterminated_link_alone_is_one_fragment() {
    let events = wikilink_events("[[oops", 0, 6);
    assert_eq!(events, vec![(text("[[oops"), 0..6)]);
}

#[test]
fn unterminated_alias_keeps_every_byte() {
    let events = wikilink_events("[[url|", 0, 6);
    assert_eq!(events, vec![(text("[[url|"), 0..6)]);
}

#[test]
fn empty_link() {
    let events = wikilink_events("[[]]", 0, 4);
    assert_eq!(
        events,
        vec![(wiki_start(""), 0..4), (text(""), 2..2), (Event::End(TagEnd::Link), 0..4)]
    );
}

#[test]
fn newline_after_link_is_skipped() {
    let s = "[[a]]\nb";
    let events = wikilink_events(s, 0, s.len());
    assert_eq!(
        events,
        vec![
            (wiki_start("a"), 0..5),
            (text("a"), 2..3),
            (Event::End(TagEnd::Link), 0..5),
            (text("b"), 6..7),
        ]
    );
}

#[test]
fn slice_in_the_middle_of_the_source() {
    let s = "xx[[y]]zz";
    let events = wikilink_events(s, 2, 7);
    assert_eq!(
        events,
        vec![(wiki_start("y"), 2..7), (text("y"), 4..5), (Event::End(TagEnd::Link), 2..7)]
    );
}

#[test]
fn group_by() {
    let s = "ab*c";
    let events = vec![
        (text("a"), 0..1),
        (text("b"), 1..2),
        (Event::Start(Tag::Emphasis), 2..4),
        (text("c"), 3..4),
        (Event::End(TagEnd::Emphasis), 2..4),
    ];
    assert_eq!(
        group_text(s, events),
        vec![
            (text("ab"), 0..2),
            (Event::Start(Tag::Emphasis), 2..4),
            (text("c"), 3..4),
            (Event::End(TagEnd::Emphasis), 2..4),
        ]
    );
}

#[test]
fn parse() {
    let s = "[[the url| with a strange content |😈| inside]]";
    let n = s.len();
    // the base parser splits the text at the brackets
    let events = vec![
        (Event::Start(Tag::Paragraph), 0..n),
        (text("["), 0..1),
        (text("[the url| with a strange content |😈| inside"), 1..n - 2),
        (text("]"), n - 2..n - 1),
        (text("]"), n - 1..n),
        (Event::End(TagEnd::Paragraph), 0..n),
    ];
    let events: Vec<Event> = leptos_markdown::parse::parse(s, events, true)
        .into_iter()
        .map(|(t, _)| t)
        .collect();
    assert_eq!(
        events,
        vec![
            Event::Start(Tag::Paragraph),
            wiki_start("the url"),
            text(" with a strange content |😈| inside"),
            Event::End(TagEnd::Link),
            Event::End(TagEnd::Paragraph),
        ]
    );
}

#[test]
fn wikilinks_off_only_merges_text() {
    let s = "[[a]]";
    let events = vec![(text("[["), 0..2), (text("a]]"), 2..5)];
    assert_eq!(leptos_markdown::parse::parse(s, events, false), vec![(text("[[a]]"), 0..5)]);
}

#[test]
fn soft_breaks_become_hard_breaks() {
    let s = "a\nb";
    let events = vec![(text("a"), 0..1), (Event::SoftBreak, 1..2), (text("b"), 2..3)];
    assert_eq!(
        normalize(s, events.clone(), false, true),
        vec![(text("a"), 0..1), (Event::HardBreak, 1..2), (text("b"), 2..3)]
    );
    assert_eq!(normalize(s, events.clone(), false, false), events);
}
