use leptos_markdown::component::{ComponentCall, TagError};
use std::str::FromStr;

fn pair(a: &str, b: &str) -> (String, String) {
    (a.to_string(), b.to_string())
}

#[test]
fn self_closing_component_with_attribute() {
    let c = ComponentCall::parse("<counter initial=\"5\"/>").unwrap();
    assert_eq!(c.name, "counter");
    assert_eq!(c.attributes, vec![pair("initial", "5")]);
    assert!(!c.children);
}

#[test]
fn component_with_children() {
    let c = ComponentCall::parse("<box>").unwrap();
    assert_eq!(c.name, "box");
    assert!(c.attributes.is_empty());
    assert!(c.children);
}

#[test]
fn attributes_keep_order_and_duplicates() {
    // a name runs up to the `=`, spaces included
    let c = ComponentCall::parse("<a x=\"1\" y = \"2\" x=\"3\" />").unwrap();
    assert_eq!(c.name, "a");
    assert_eq!(c.attributes, vec![pair("x", "1"), pair("y ", "2"), pair("x", "3")]);
    assert!(!c.children);
}

#[test]
fn missing_open_bracket() {
    assert_eq!(ComponentCall::parse("box>").unwrap_err(), TagError::MissingOpen);
}

#[test]
fn missing_equal_sign() {
    assert_eq!(ComponentCall::parse("<a b>").unwrap_err(), TagError::MissingEquals);
}

#[test]
fn unquoted_value() {
    assert_eq!(ComponentCall::parse("<a b=c>").unwrap_err(), TagError::UnquotedValue);
}

#[test]
fn unterminated_value() {
    assert_eq!(ComponentCall::parse("<a b=\"c>").unwrap_err(), TagError::UnterminatedValue);
}

#[test]
fn unterminated_tag() {
    assert_eq!(ComponentCall::parse("<abc").unwrap_err(), TagError::UnterminatedTag);
    assert_eq!(ComponentCall::parse("<a b=\"1\"").unwrap_err(), TagError::UnterminatedTag);
}

#[test]
fn from_str_gives_the_message() {
    assert_eq!(ComponentCall::from_str("x").unwrap_err(), "expected <");
    assert_eq!(
        ComponentCall::from_str("<a b=c>").unwrap_err(),
        "please use `\"` to wrap your attribute values"
    );
    assert_eq!(ComponentCall::from_str("<box/>").unwrap().name, "box");
}

#[test]
fn slash_without_closing_bracket_is_unterminated() {
    assert_eq!(ComponentCall::parse("<box/").unwrap_err(), TagError::UnterminatedTag);
    assert_eq!(ComponentCall::parse("<box/x").unwrap_err(), TagError::UnterminatedTag);
    assert_eq!(ComponentCall::from_str("<box/").unwrap_err(), "expected end of tag");
    assert_eq!(ComponentCall::from_str("<box").unwrap_err(), "expected end of tag");
}

#[test]
fn from_str_reads_the_whole_call() {
    let c = ComponentCall::from_str("<counter initial=\"5\" />").unwrap();
    assert_eq!(c.name, "counter");
    assert_eq!(c.attributes, vec![pair("initial", "5")]);
    assert!(!c.children);
    let c = ComponentCall::from_str("<c a=\"1\" b=\"2\" a=\"3\">").unwrap();
    assert_eq!(c.attributes, vec![pair("a", "1"), pair("b", "2"), pair("a", "3")]);
    assert!(c.children);
    for bad in ["box>", "<c a>", "<c a=1>", "<c a=\"1>"] {
        assert!(ComponentCall::from_str(bad).is_err(), "{bad}");
    }
}
