use olus::ast::{Binder, Expression, Statement};
use olus::desugar::{bind, desugar, fructase, galac_vec, galactase, glucase, glucase_wrap, merge};

fn name(s: &str) -> Expression {
    Expression::Reference(None, s.to_string())
}

fn bound(n: usize, s: &str) -> Expression {
    Expression::Reference(Some(n), s.to_string())
}

fn binder(s: &str) -> Binder {
    Binder(None, s.to_string())
}

fn numbered(n: usize, s: &str) -> Binder {
    Binder(Some(n), s.to_string())
}

#[test]
fn merge_replaces_an_empty_call() {
    let mut target = vec![];
    merge(&mut target, vec![name("a"), name("b")]);
    assert_eq!(target, vec![name("a"), name("b")]);
}

#[test]
fn merge_fills_the_first_empty_call_inside() {
    let mut target = vec![
        name("f"),
        Expression::Galactose(vec![name("g"), Expression::Fructose(vec![binder("x")], vec![])]),
        Expression::Galactose(vec![]),
    ];
    merge(&mut target, vec![name("c")]);
    assert_eq!(
        target,
        vec![
            name("f"),
            Expression::Galactose(vec![
                name("g"),
                Expression::Fructose(vec![binder("x")], vec![name("c")])
            ]),
            Expression::Galactose(vec![]),
        ]
    );
}

#[test]
fn glucase_completes_closures_with_the_calls_after_them() {
    let statements = vec![
        Statement::Closure(vec![binder("f")], vec![]),
        Statement::Call(vec![name("a"), name("b")]),
        Statement::Closure(vec![binder("g")], vec![name("h"), Expression::Galactose(vec![])]),
        Statement::Call(vec![name("c")]),
        Statement::Closure(vec![binder("last")], vec![name("z")]),
    ];
    assert_eq!(
        glucase(&statements),
        vec![
            Statement::Closure(vec![binder("f")], vec![name("a"), name("b")]),
            Statement::Closure(
                vec![binder("g")],
                vec![name("h"), Expression::Galactose(vec![name("c")])]
            ),
        ]
    );
}

#[test]
fn glucase_wrap_leaves_other_statements_alone() {
    let mut call = Statement::Call(vec![name("a")]);
    glucase_wrap(&mut call);
    assert_eq!(call, Statement::Call(vec![name("a")]));
    let mut block = Statement::Block(vec![
        Statement::Closure(vec![binder("f")], vec![]),
        Statement::Call(vec![name("a")]),
        Statement::Closure(vec![binder("g")], vec![]),
    ]);
    glucase_wrap(&mut block);
    assert_eq!(
        block,
        Statement::Block(vec![Statement::Closure(vec![binder("f")], vec![name("a")])])
    );
}

#[test]
fn galac_vec_turns_a_call_inside_out() {
    let mut exprs = vec![name("a"), Expression::Galactose(vec![name("f"), name("x")]), name("b")];
    let mut id = 5;
    galac_vec(&mut exprs, &mut id);
    assert_eq!(id, 6);
    assert_eq!(
        exprs,
        vec![
            name("f"),
            name("x"),
            Expression::Fructose(
                vec![numbered(5, "")],
                vec![name("a"), bound(5, ""), name("b")]
            ),
        ]
    );
}

#[test]
fn galac_vec_goes_on_until_no_galactose_is_on_top() {
    // a (f (g x)) : the inner call comes first, twice over.
    let mut exprs = vec![
        name("a"),
        Expression::Galactose(vec![name("f"), Expression::Galactose(vec![name("g"), name("x")])]),
    ];
    let mut id = 0;
    galac_vec(&mut exprs, &mut id);
    assert_eq!(id, 2);
    assert_eq!(
        exprs,
        vec![
            name("g"),
            name("x"),
            Expression::Fructose(
                vec![numbered(1, "")],
                vec![
                    name("f"),
                    bound(1, ""),
                    Expression::Fructose(vec![numbered(0, "")], vec![name("a"), bound(0, "")]),
                ]
            ),
        ]
    );
}

#[test]
fn galac_vec_leaves_a_plain_call_alone() {
    let mut exprs = vec![name("a"), Expression::Number(3)];
    let mut id = 9;
    galac_vec(&mut exprs, &mut id);
    assert_eq!(id, 9);
    assert_eq!(exprs, vec![name("a"), Expression::Number(3)]);
}

#[test]
fn galactase_treats_the_calls_of_closures() {
    let mut block = Statement::Block(vec![Statement::Closure(
        vec![numbered(0, "f")],
        vec![name("a"), Expression::Galactose(vec![name("g"), name("x")]), name("b")],
    )]);
    let mut id = 1;
    galactase(&mut block, &mut id);
    assert_eq!(id, 2);
    assert_eq!(
        block,
        Statement::Block(vec![Statement::Closure(
            vec![numbered(0, "f")],
            vec![
                name("g"),
                name("x"),
                Expression::Fructose(
                    vec![numbered(1, "")],
                    vec![name("a"), bound(1, ""), name("b")]
                ),
            ],
        )])
    );
}

#[test]
fn fructase_makes_closures_of_inline_declarations() {
    let mut block = Statement::Block(vec![Statement::Closure(
        vec![numbered(0, "main")],
        vec![
            name("f"),
            Expression::Fructose(
                vec![numbered(1, "x")],
                vec![name("x"), Expression::Fructose(vec![], vec![name("y")])],
            ),
        ],
    )]);
    let mut id = 2;
    fructase(&mut block, &mut id);
    assert_eq!(id, 4);
    assert_eq!(
        block,
        Statement::Block(vec![
            Statement::Closure(vec![numbered(0, "main")], vec![name("f"), bound(3, "")]),
            Statement::Closure(vec![numbered(2, "")], vec![name("y")]),
            Statement::Closure(
                vec![numbered(3, ""), numbered(1, "x")],
                vec![name("x"), bound(2, "")]
            ),
        ])
    );
}

#[test]
fn bind_numbers_binders_and_binds_references() {
    let mut block = Statement::Block(vec![
        Statement::Closure(vec![binder("f"), binder("x")], vec![name("g"), name("x")]),
        Statement::Block(vec![Statement::Call(vec![name("f")])]),
        Statement::Closure(vec![binder("x")], vec![name("x")]),
    ]);
    let count = bind(&mut block);
    assert_eq!(count, 3);
    assert_eq!(
        block,
        Statement::Block(vec![
            Statement::Closure(
                vec![numbered(0, "f"), numbered(1, "x")],
                vec![name("g"), bound(1, "x")]
            ),
            Statement::Call(vec![bound(0, "f")]),
            Statement::Closure(vec![numbered(2, "x")], vec![bound(2, "x")]),
        ])
    );
}

#[test]
fn bind_wraps_a_single_statement_in_a_block() {
    let mut call = Statement::Call(vec![name("a")]);
    let count = bind(&mut call);
    assert_eq!(count, 0);
    assert_eq!(call, Statement::Block(vec![Statement::Call(vec![name("a")])]));
}

#[test]
fn desugar_runs_the_passes_in_order() {
    let mut block = Statement::Block(vec![
        Statement::Closure(vec![binder("main")], vec![]),
        Statement::Call(vec![
            name("print"),
            Expression::Literal("hi".to_string()),
            Expression::Fructose(vec![], vec![name("exit"), Expression::Number(0)]),
        ]),
        Statement::Closure(vec![binder("tail")], vec![name("main")]),
    ]);
    desugar(&mut block);
    assert_eq!(
        block,
        Statement::Block(vec![
            Statement::Closure(
                vec![numbered(0, "main")],
                vec![name("print"), Expression::Literal("hi".to_string()), bound(2, "")]
            ),
            Statement::Closure(vec![numbered(2, "")], vec![name("exit"), Expression::Number(0)]),
        ])
    );
}

#[test]
fn copies_are_equal() {
    let block = Statement::Block(vec![Statement::Closure(
        vec![binder("f")],
        vec![Expression::Galactose(vec![name("g"), Expression::Number(1)])],
    )]);
    assert_eq!(block.clone(), block);
}
