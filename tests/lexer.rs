use leptos_markdown::token::{Lexer, Token};

fn lex(source: &str) -> Vec<(Token, std::ops::Range<usize>)> {
    Lexer::new_at(source, 0).tokens()
}

#[test]
fn test_stream() {
    let source = "[abc] [[ d e]]\nb";
    let stream: Vec<Token> = lex(source).into_iter().map(|(t, _)| t).collect();
    assert_eq!(
        stream,
        vec![
            Token::LBra,
            Token::Word,
            Token::RBra,
            Token::Word,
            Token::LLBra,
            Token::Word,
            Token::RRBra,
            Token::NewLine,
            Token::Word,
        ]
    );
}

#[test]
fn test_stream_double_bracket() {
    assert_eq!(lex("[[["), vec![(Token::LLBra, 0..2), (Token::LBra, 2..3)]);
}

#[test]
fn closing_brackets_are_symmetric() {
    assert_eq!(lex("]]]"), vec![(Token::RRBra, 0..2), (Token::RBra, 2..3)]);
}

#[test]
fn four_brackets_give_one_double_and_two_single() {
    assert_eq!(
        lex("[[[["),
        vec![(Token::LLBra, 0..2), (Token::LBra, 2..3), (Token::LBra, 3..4)]
    );
}

#[test]
fn lexer_emoji() {
    let source = "[[the url| with a strange content |😈| inside]]";
    let stream: Vec<_> = lex(source)
        .into_iter()
        .map(|(token, range)| (token, &source[range]))
        .collect();
    assert_eq!(
        stream,
        vec![
            (Token::LLBra, "[["),
            (Token::Word, "the url"),
            (Token::Pipe, "|"),
            (Token::Word, " with a strange content "),
            (Token::Pipe, "|"),
            (Token::Word, "😈"),
            (Token::Pipe, "|"),
            (Token::Word, " inside"),
            (Token::RRBra, "]]"),
        ]
    );
}

#[test]
fn ranges_rebuild_the_input() {
    let source = "a\r\n[[b|c]]\r\n\r";
    let joined: String = lex(source).into_iter().map(|(_, r)| &source[r]).collect();
    assert_eq!(joined, source);
}

#[test]
fn carriage_returns_alone_give_no_token() {
    assert_eq!(lex("\r\r"), vec![]);
    assert_eq!(lex(""), vec![]);
}

#[test]
fn offset_shifts_every_range() {
    let tokens = Lexer::new_at("a|b", 10).tokens();
    assert_eq!(
        tokens,
        vec![(Token::Word, 10..11), (Token::Pipe, 11..12), (Token::Word, 12..13)]
    );
}

#[test]
fn next_returns_tokens_one_by_one() {
    let mut lexer = Lexer::new_at("x\ny", 0);
    assert_eq!(lexer.next(), Some((Token::Word, 0..1)));
    assert_eq!(lexer.next(), Some((Token::NewLine, 1..2)));
    assert_eq!(lexer.next(), Some((Token::Word, 2..3)));
    assert_eq!(lexer.next(), None);
    assert_eq!(lexer.next(), None);
}
