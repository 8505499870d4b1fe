//! Markdown rendering core: a wikilink lexer and parser, an event
//! normalizer, a custom component tag parser and a streaming renderer that
//! builds an output tree from a flat event stream.
pub mod component;
pub mod event;
pub mod highlight;
pub mod parse;
pub mod render;
pub mod text;
pub mod token;
pub mod wikilink;
