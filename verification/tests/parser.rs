use olus::ast::{Binder, Expression, Statement};
use olus::parser::{parse, try_parse, Error, Span, Token};

fn id(s: &str) -> Token {
    Token::Identifier(s.to_string())
}

fn text(s: &str) -> Token {
    Token::String(s.to_string())
}

fn wrap_expr(expr: Expression) -> Statement {
    Statement::Block(vec![Statement::Call(vec![expr])])
}

#[test]
fn parse_galactose() {
    // The tokens of "(\na\n\nb\n) ".
    let tokens = vec![
        Token::LineStart,
        id("("),
        Token::LineEnd,
        Token::LineStart,
        id("a"),
        Token::LineEnd,
        Token::LineStart,
        id("b"),
        Token::LineEnd,
        Token::LineStart,
        id(")"),
    ];
    assert_eq!(
        parse(&tokens),
        wrap_expr(Expression::Galactose(vec![
            Expression::Reference(None, "a".to_string()),
            Expression::Reference(None, "b".to_string()),
        ]))
    );
    // The tokens of "(a_“He + (l)lo”+ (b “*”)) ".
    let tokens = vec![
        Token::LineStart,
        id("("),
        id("a_"),
        text("He + (l)lo"),
        id("+"),
        id("("),
        id("b"),
        text("*"),
        id(")"),
        id(")"),
    ];
    assert_eq!(
        parse(&tokens),
        wrap_expr(Expression::Galactose(vec![
            Expression::Reference(None, "a_".to_string()),
            Expression::Literal("He + (l)lo".to_string()),
            Expression::Reference(None, "+".to_string()),
            Expression::Galactose(vec![
                Expression::Reference(None, "b".to_string()),
                Expression::Literal("*".to_string()),
            ])
        ]))
    );
}

#[test]
fn parse_fructose() {
    // The tokens of "(↦)".
    let tokens = vec![Token::LineStart, id("("), id("↦"), id(")")];
    assert_eq!(parse(&tokens), wrap_expr(Expression::Fructose(vec![], vec![])));
    // The tokens of "(↦f a b)".
    let tokens = vec![Token::LineStart, id("("), id("↦"), id("f"), id("a"), id("b"), id(")")];
    assert_eq!(
        parse(&tokens),
        wrap_expr(Expression::Fructose(vec![], vec![
            Expression::Reference(None, "f".to_string()),
            Expression::Reference(None, "a".to_string()),
            Expression::Reference(None, "b".to_string()),
        ]))
    );
    // The tokens of "(a b ↦ f)".
    let tokens = vec![Token::LineStart, id("("), id("a"), id("b"), id("↦"), id("f"), id(")")];
    assert_eq!(
        parse(&tokens),
        wrap_expr(Expression::Fructose(
            vec![Binder(None, "a".to_string()), Binder(None, "b".to_string()),],
            vec![Expression::Reference(None, "f".to_string()),]
        ))
    );
}

#[test]
fn parse_closure() {
    // The tokens of "fact m n ↦ f a b \nc".
    let tokens = vec![
        Token::LineStart,
        id("fact"),
        id("m"),
        id("n"),
        id("↦"),
        id("f"),
        id("a"),
        id("b"),
        Token::LineEnd,
        Token::LineStart,
        id("c"),
    ];
    assert_eq!(
        parse(&tokens),
        Statement::Block(vec![
            Statement::Closure(
                vec![
                    Binder(None, "fact".to_string()),
                    Binder(None, "m".to_string()),
                    Binder(None, "n".to_string()),
                ],
                vec![
                    Expression::Reference(None, "f".to_string()),
                    Expression::Reference(None, "a".to_string()),
                    Expression::Reference(None, "b".to_string()),
                ]
            ),
            Statement::Call(vec![Expression::Reference(None, "c".to_string())])
        ])
    );
}

#[test]
fn parse_nested_blocks_and_numbers() {
    let tokens = vec![
        Token::LineStart,
        id("a"),
        Token::Number(7),
        Token::LineEnd,
        Token::BlockStart,
        Token::LineStart,
        id("b"),
        Token::LineEnd,
        Token::BlockEnd,
        Token::LineStart,
        id("c"),
        Token::LineEnd,
    ];
    assert_eq!(
        parse(&tokens),
        Statement::Block(vec![
            Statement::Call(vec![Expression::Reference(None, "a".to_string()), Expression::Number(7)]),
            Statement::Block(vec![Statement::Call(vec![Expression::Reference(
                None,
                "b".to_string()
            )])]),
            Statement::Call(vec![Expression::Reference(None, "c".to_string())]),
        ])
    );
}

#[test]
fn parse_skips_what_it_does_not_expect() {
    let tokens = vec![
        Token::LineEnd,
        Token::LineStart,
        id("a"),
        Token::Error(Error::TokenError, Span { start: 2, end: 3 }),
        Token::BlockStart,
        id("b"),
        Token::LineEnd,
    ];
    assert_eq!(
        parse(&tokens),
        Statement::Block(vec![Statement::Call(vec![
            Expression::Reference(None, "a".to_string()),
            Expression::Reference(None, "b".to_string()),
        ])])
    );
}

#[test]
fn a_second_arrow_is_ignored_and_non_names_give_no_binder() {
    let tokens = vec![
        Token::LineStart,
        id("f"),
        Token::Number(1),
        id("x"),
        id("↦"),
        id("g"),
        id("↦"),
        id("x"),
        Token::LineEnd,
    ];
    assert_eq!(
        parse(&tokens),
        Statement::Block(vec![Statement::Closure(
            vec![Binder(None, "f".to_string()), Binder(None, "x".to_string())],
            vec![
                Expression::Reference(None, "g".to_string()),
                Expression::Reference(None, "x".to_string())
            ]
        )])
    );
}

#[test]
fn a_line_must_not_begin_with_the_arrow() {
    let tokens = vec![Token::LineStart, id("↦"), id("f"), Token::LineEnd];
    assert_eq!(try_parse(&tokens), None);
    let tokens = vec![Token::LineStart, id("f"), Token::LineEnd];
    assert!(try_parse(&tokens).is_some());
}

#[test]
fn test_parse() {
    // The tokens of a small program:
    //   main ↦ print “Hello, World!” (↦ exit 0)
    let tokens = vec![
        Token::LineStart,
        id("main"),
        id("↦"),
        id("print"),
        text("Hello, World!"),
        id("("),
        id("↦"),
        id("exit"),
        Token::Number(0),
        id(")"),
        Token::LineEnd,
    ];
    parse(&tokens);
}
