use olus::lexer::{quote_step, token_of, uses_up, Indentation, LiteralString, Quoted, RawToken, Step};
use olus::parser::{Error, Span, Token};

/// The tokens that the layout makes of raw tokens.
fn tokens(raw: &[(RawToken, &str)]) -> Vec<Token> {
    let mut layout = Indentation::new();
    let mut out = vec![];
    let mut start = 0;
    for (kind, text) in raw {
        let span = Span { start, end: start + text.len() };
        loop {
            let step = layout.step(*kind, text.len());
            let number = text.parse().unwrap_or(0);
            if let Some(token) = token_of(step, &text.to_string(), number, span) {
                out.push(token);
            }
            if uses_up(step) {
                break;
            }
        }
        start += text.len();
    }
    out
}

fn id(s: &str) -> Token {
    Token::Identifier(s.to_string())
}

#[test]
fn test_block() {
    // def hello / setup / for foo / if foo / print foo / (blank) / aap /
    // (blank) / hello, indented by 0, 4, 4, 8, 12, 4 and 0 blanks.
    let raw = [
        (RawToken::Identifier, "def"),
        (RawToken::Whitespace, " "),
        (RawToken::Identifier, "hello"),
        (RawToken::Newline, "\n"),
        (RawToken::Whitespace, "    "),
        (RawToken::Identifier, "setup"),
        (RawToken::Newline, "\n"),
        (RawToken::Whitespace, "    "),
        (RawToken::Identifier, "for"),
        (RawToken::Whitespace, " "),
        (RawToken::Identifier, "foo"),
        (RawToken::Newline, "\n"),
        (RawToken::Whitespace, "        "),
        (RawToken::Identifier, "if"),
        (RawToken::Whitespace, " "),
        (RawToken::Identifier, "foo"),
        (RawToken::Newline, "\n"),
        (RawToken::Whitespace, "            "),
        (RawToken::Identifier, "print"),
        (RawToken::Whitespace, " "),
        (RawToken::Identifier, "foo"),
        (RawToken::Newline, "\n\n"),
        (RawToken::Whitespace, "    "),
        (RawToken::Identifier, "aap"),
        (RawToken::Newline, "\n\n"),
        (RawToken::Identifier, "hello"),
        (RawToken::Newline, "\n"),
    ];
    assert_eq!(
        tokens(&raw),
        vec![
            Token::LineStart, id("def"), id("hello"), Token::LineEnd,
            Token::BlockStart,
                Token::LineStart, id("setup"), Token::LineEnd,
                Token::LineStart, id("for"), id("foo"), Token::LineEnd,
                Token::BlockStart,
                    Token::LineStart, id("if"), id("foo"), Token::LineEnd,
                    Token::BlockStart,
                        Token::LineStart, id("print"), id("foo"), Token::LineEnd,
                    Token::BlockEnd,
                Token::BlockEnd,
                Token::LineStart, id("aap"), Token::LineEnd,
            Token::BlockEnd,
            Token::LineStart, id("hello"), Token::LineEnd,
        ]
    );
}

#[test]
fn layout_of_a_bad_indentation() {
    let raw = [
        (RawToken::Identifier, "a"),
        (RawToken::Newline, "\n"),
        (RawToken::Whitespace, "    "),
        (RawToken::Identifier, "b"),
        (RawToken::Newline, "\n"),
        (RawToken::Whitespace, "  "),
        (RawToken::Identifier, "c"),
    ];
    assert_eq!(
        tokens(&raw),
        vec![
            Token::LineStart,
            id("a"),
            Token::LineEnd,
            Token::BlockStart,
            Token::LineStart,
            id("b"),
            Token::LineEnd,
            Token::Error(Error::IndentationError, Span { start: 10, end: 11 }),
            Token::BlockStart,
            Token::LineStart,
            id("c"),
        ]
    );
}

#[test]
fn layout_of_numbers_and_errors() {
    let raw = [(RawToken::Identifier, "f"), (RawToken::Whitespace, " "), (RawToken::Number, "42"), (RawToken::Error, "_")];
    assert_eq!(
        tokens(&raw),
        vec![
            Token::LineStart,
            id("f"),
            Token::Number(42),
            Token::Error(Error::TokenError, Span { start: 4, end: 5 }),
        ]
    );
}

#[test]
fn steps_of_the_layout() {
    let mut layout = Indentation::new();
    assert_eq!(layout.step(RawToken::Newline, 1), Step::Skip);
    assert_eq!(layout.step(RawToken::Whitespace, 2), Step::Skip);
    assert_eq!(layout.next_indent, 2);
    assert_eq!(layout.step(RawToken::StringStart, 3), Step::BlockStart);
    assert_eq!(layout.indent_stack, vec![2]);
    assert_eq!(layout.step(RawToken::StringStart, 3), Step::LineStart);
    assert!(layout.line_started);
    assert_eq!(layout.step(RawToken::StringStart, 3), Step::String);
    assert_eq!(layout.step(RawToken::Whitespace, 7), Step::Skip);
    assert_eq!(layout.next_indent, 2);
    assert_eq!(layout.step(RawToken::Newline, 1), Step::LineEnd);
    assert_eq!(layout.next_indent, 0);
    assert!(!layout.line_started);
    assert_eq!(layout.step(RawToken::Identifier, 1), Step::BlockEnd);
    assert_eq!(layout.indent_stack, Vec::<usize>::new());
    assert!(!uses_up(Step::BlockEnd));
    assert!(uses_up(Step::String));
}

#[test]
fn quotes_nest() {
    assert_eq!(quote_step(0, Some(LiteralString::Characters)), Quoted::Open(0));
    assert_eq!(quote_step(0, Some(LiteralString::StringStart)), Quoted::Open(1));
    assert_eq!(quote_step(1, Some(LiteralString::StringStop)), Quoted::Open(0));
    assert_eq!(quote_step(0, Some(LiteralString::StringStop)), Quoted::Closed);
    assert_eq!(quote_step(3, Some(LiteralString::Error)), Quoted::Broken);
    assert_eq!(quote_step(3, None), Quoted::Unterminated);
}

/// Cuts the text behind an opening quote into the pieces of a string.
fn pieces(text: &str) -> Vec<(LiteralString, usize, usize)> {
    let mut out: Vec<(LiteralString, usize, usize)> = vec![];
    for (at, c) in text.char_indices() {
        let kind = match c {
            '“' => LiteralString::StringStart,
            '”' => LiteralString::StringStop,
            _ => LiteralString::Characters,
        };
        let end = at + c.len_utf8();
        match out.last_mut() {
            Some(last) if kind == LiteralString::Characters && last.0 == kind => last.2 = end,
            _ => out.push((kind, at, end)),
        }
    }
    out
}

/// Reads a string whose opening quote has been read: its text and the text
/// that follows it.
fn string(rest: &str) -> Option<(String, &str)> {
    let mut nesting = 0;
    let mut all = pieces(rest).into_iter();
    loop {
        let piece = all.next();
        match quote_step(nesting, piece.map(|p| p.0)) {
            Quoted::Open(deeper) => nesting = deeper,
            Quoted::Closed => {
                let (_, start, end) = piece.unwrap();
                return Some((rest[..start].to_string(), &rest[end..]));
            }
            _ => return None,
        }
    }
}

#[test]
fn test_string() {
    assert_eq!(string("Hello”asd"), Some(("Hello".to_string(), "asd")));
    assert_eq!(
        string("Outer “inner” quotation” trailing input"),
        Some(("Outer “inner” quotation".to_string(), " trailing input"))
    );
    assert_eq!(string("Hello””asd"), Some(("Hello".to_string(), "”asd")));
    assert_eq!(
        string("1“2“3”2”“2“3““5”””2”1”a"),
        Some(("1“2“3”2”“2“3““5”””2”1".to_string(), "a"))
    );
    assert_eq!(string("Hello"), None);
}
