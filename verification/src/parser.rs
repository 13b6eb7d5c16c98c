use vstd::prelude::*;
use vstd::string::StringExecFns;
use crate::ast::{
    binders_view, expressions_view, statements_view, Binder, BinderView, Expression, ExpressionView, Statement,
    StatementView,
};

verus! {

/// What can be wrong with the text of a program.
#[derive(Clone, PartialEq, Eq, Debug)]
pub enum Error {
    /// A character that begins no token.
    TokenError,
    /// A line indented less than its block but more than the block around it.
    IndentationError,
    /// Something that cannot stand inside a string.
    StringError,
    /// A string whose closing quote is missing.
    StringUnterminated,
}

/// A range of the text of a program, in bytes.
#[derive(Clone, Copy, PartialEq, Eq, Structural, Debug)]
pub struct Span {
    pub start: usize,
    pub end: usize,
}

/// A token of a program, with the lines and blocks that its layout gives it.
#[derive(Clone, PartialEq, Eq, Debug)]
pub enum Token {
    BlockStart,
    BlockEnd,
    LineStart,
    LineEnd,
    /// A name, or a single character of syntax.
    Identifier(String),
    /// The text between a pair of quotes.
    String(String),
    /// A number.
    Number(u64),
    /// An error, and the range of the text that it concerns.
    Error(Error, Span),
}

/// Mathematical content of a [`Token`].
pub enum TokenView {
    BlockStart,
    BlockEnd,
    LineStart,
    LineEnd,
    Identifier(Seq<char>),
    String(Seq<char>),
    Number(u64),
    Error(Error, Span),
}

impl View for Token {
    type V = TokenView;

    open spec fn view(&self) -> TokenView {
        match self {
            Token::BlockStart => TokenView::BlockStart,
            Token::BlockEnd => TokenView::BlockEnd,
            Token::LineStart => TokenView::LineStart,
            Token::LineEnd => TokenView::LineEnd,
            Token::Identifier(s) => TokenView::Identifier(s@),
            Token::String(s) => TokenView::String(s@),
            Token::Number(n) => TokenView::Number(*n),
            Token::Error(error, span) => TokenView::Error(*error, *span),
        }
    }
}

/// The views of a list of tokens.
pub open spec fn tokens_view(list: Seq<Token>) -> Seq<TokenView> {
    Seq::new(list.len(), |i: int| list[i]@)
}

/// The arrow that parts the binders of a declaration from its call.
pub open spec fn maplet() -> Seq<char> {
    "\u{21a6}"@
}

/// The opening parenthesis.
pub open spec fn opening() -> Seq<char> {
    "("@
}

/// The closing parenthesis.
pub open spec fn closing() -> Seq<char> {
    ")"@
}

/// A tree that was parsed, and the place of the token after it.
pub struct Parsed<T> {
    pub tree: T,
    pub next: int,
}

/// The expressions read so far on a line or in parentheses, and the number
/// of them that stood before the arrow, if there was one.
pub struct Gathered {
    pub items: Seq<ExpressionView>,
    pub arrow: Option<nat>,
}

/// The binders that the expressions before an arrow stand for: one for each
/// name, and nothing for anything else.
pub open spec fn binders_of(left: Seq<ExpressionView>) -> Seq<BinderView>
    decreases left.len(),
{
    if left.len() == 0 {
        Seq::empty()
    } else {
        match left.last() {
            ExpressionView::Reference(_, name) => binders_of(left.drop_last()).push(
                BinderView { number: None, name },
            ),
            _ => binders_of(left.drop_last()),
        }
    }
}

/// What the tokens from `pos` on add to what was gathered in parentheses, up
/// to the closing parenthesis.
pub open spec fn paren_items(tokens: Seq<TokenView>, pos: int, so_far: Gathered) -> Parsed<Gathered>
    decreases tokens.len() - pos, 0nat,
{
    if 0 <= pos < tokens.len() {
        match tokens[pos] {
            TokenView::Identifier(name) => {
                if name == maplet() {
                    paren_items(
                        tokens,
                        pos + 1,
                        Gathered {
                            items: so_far.items,
                            arrow: match so_far.arrow {
                                Some(n) => Some(n),
                                None => Some(so_far.items.len()),
                            },
                        },
                    )
                } else if name == opening() {
                    let inner = paren(tokens, pos + 1);
                    if pos < inner.next <= tokens.len() {
                        paren_items(
                            tokens,
                            inner.next,
                            Gathered { items: so_far.items.push(inner.tree), arrow: so_far.arrow },
                        )
                    } else {
                        Parsed { tree: so_far, next: pos }
                    }
                } else if name == closing() {
                    Parsed { tree: so_far, next: pos + 1 }
                } else {
                    paren_items(
                        tokens,
                        pos + 1,
                        Gathered {
                            items: so_far.items.push(ExpressionView::Reference(None, name)),
                            arrow: so_far.arrow,
                        },
                    )
                }
            },
            TokenView::String(text) => paren_items(
                tokens,
                pos + 1,
                Gathered { items: so_far.items.push(ExpressionView::Literal(text)), arrow: so_far.arrow },
            ),
            TokenView::Number(n) => paren_items(
                tokens,
                pos + 1,
                Gathered { items: so_far.items.push(ExpressionView::Number(n)), arrow: so_far.arrow },
            ),
            _ => paren_items(tokens, pos + 1, so_far),
        }
    } else {
        Parsed { tree: so_far, next: pos }
    }
}

/// The expression in parentheses that begins after the opening parenthesis
/// at `pos`: a fructose if it holds an arrow, else a galactose.
pub open spec fn paren(tokens: Seq<TokenView>, pos: int) -> Parsed<ExpressionView>
    decreases tokens.len() - pos, 1nat,
{
    let read = paren_items(tokens, pos, Gathered { items: Seq::empty(), arrow: None });
    Parsed {
        tree: match read.tree.arrow {
            Some(n) => ExpressionView::Fructose(
                binders_of(read.tree.items.take(n as int)),
                read.tree.items.skip(n as int),
            ),
            None => ExpressionView::Galactose(read.tree.items),
        },
        next: read.next,
    }
}

/// What the tokens from `pos` on add to what was gathered on a line, up to
/// the end of the line.
pub open spec fn line_items(tokens: Seq<TokenView>, pos: int, so_far: Gathered) -> Parsed<Gathered>
    decreases tokens.len() - pos,
{
    if 0 <= pos < tokens.len() {
        match tokens[pos] {
            TokenView::Identifier(name) => {
                if name == maplet() {
                    line_items(
                        tokens,
                        pos + 1,
                        Gathered {
                            items: so_far.items,
                            arrow: match so_far.arrow {
                                Some(n) => Some(n),
                                None => Some(so_far.items.len()),
                            },
                        },
                    )
                } else if name == opening() {
                    let inner = paren(tokens, pos + 1);
                    if pos < inner.next <= tokens.len() {
                        line_items(
                            tokens,
                            inner.next,
                            Gathered { items: so_far.items.push(inner.tree), arrow: so_far.arrow },
                        )
                    } else {
                        Parsed { tree: so_far, next: pos }
                    }
                } else {
                    line_items(
                        tokens,
                        pos + 1,
                        Gathered {
                            items: so_far.items.push(ExpressionView::Reference(None, name)),
                            arrow: so_far.arrow,
                        },
                    )
                }
            },
            TokenView::String(text) => line_items(
                tokens,
                pos + 1,
                Gathered { items: so_far.items.push(ExpressionView::Literal(text)), arrow: so_far.arrow },
            ),
            TokenView::Number(n) => line_items(
                tokens,
                pos + 1,
                Gathered { items: so_far.items.push(ExpressionView::Number(n)), arrow: so_far.arrow },
            ),
            TokenView::LineEnd => Parsed { tree: so_far, next: pos + 1 },
            _ => line_items(tokens, pos + 1, so_far),
        }
    } else {
        Parsed { tree: so_far, next: pos }
    }
}

/// The statement on the line that begins at `pos`: a closure if the line
/// holds an arrow, else a call. There is none where the line begins with the
/// arrow.
pub open spec fn line(tokens: Seq<TokenView>, pos: int) -> Option<Parsed<StatementView>> {
    let read = line_items(tokens, pos, Gathered { items: Seq::empty(), arrow: None });
    match read.tree.arrow {
        Some(n) => if n == 0 {
            None
        } else {
            Some(
                Parsed {
                    tree: StatementView::Closure(
                        binders_of(read.tree.items.take(n as int)),
                        read.tree.items.skip(n as int),
                    ),
                    next: read.next,
                },
            )
        },
        None => Some(Parsed { tree: StatementView::Call(read.tree.items), next: read.next }),
    }
}

/// What the tokens from `pos` on add to the statements of a block, up to the
/// end of the block; `None` where a line in it cannot be parsed.
pub open spec fn block_items(tokens: Seq<TokenView>, pos: int, so_far: Seq<StatementView>) -> Option<
    Parsed<Seq<StatementView>>,
>
    decreases tokens.len() - pos, 0nat,
{
    if 0 <= pos < tokens.len() {
        match tokens[pos] {
            TokenView::BlockStart => {
                match block(tokens, pos + 1) {
                    Some(inner) => if pos < inner.next <= tokens.len() {
                        block_items(tokens, inner.next, so_far.push(inner.tree))
                    } else {
                        None
                    },
                    None => None,
                }
            },
            TokenView::LineStart => {
                match line(tokens, pos + 1) {
                    Some(inner) => if pos < inner.next <= tokens.len() {
                        block_items(tokens, inner.next, so_far.push(inner.tree))
                    } else {
                        None
                    },
                    None => None,
                }
            },
            TokenView::BlockEnd => Some(Parsed { tree: so_far, next: pos + 1 }),
            _ => block_items(tokens, pos + 1, so_far),
        }
    } else {
        Some(Parsed { tree: so_far, next: pos })
    }
}

/// The block whose statements begin at `pos`.
pub open spec fn block(tokens: Seq<TokenView>, pos: int) -> Option<Parsed<StatementView>>
    decreases tokens.len() - pos, 1nat,
{
    match block_items(tokens, pos, Seq::empty()) {
        Some(read) => Some(Parsed { tree: StatementView::Block(read.tree), next: read.next }),
        None => None,
    }
}

/// The program that the tokens spell; `None` where a line begins with the arrow.
pub open spec fn parsed(tokens: Seq<TokenView>) -> Option<StatementView> {
    match block(tokens, 0) {
        Some(read) => Some(read.tree),
        None => None,
    }
}

/// Reading in parentheses only moves forward, and not past the end.
pub proof fn lemma_paren_items(tokens: Seq<TokenView>, pos: int, so_far: Gathered)
    requires
        0 <= pos <= tokens.len(),
    ensures
        pos <= paren_items(tokens, pos, so_far).next <= tokens.len(),
    decreases tokens.len() - pos, 0nat,
{
    if pos < tokens.len() {
        match tokens[pos] {
            TokenView::Identifier(name) => {
                if name == maplet() {
                    lemma_paren_items(
                        tokens,
                        pos + 1,
                        Gathered {
                            items: so_far.items,
                            arrow: match so_far.arrow {
                                Some(n) => Some(n),
                                None => Some(so_far.items.len()),
                            },
                        },
                    );
                } else if name == opening() {
                    lemma_paren(tokens, pos + 1);
                    let inner = paren(tokens, pos + 1);
                    lemma_paren_items(
                        tokens,
                        inner.next,
                        Gathered { items: so_far.items.push(inner.tree), arrow: so_far.arrow },
                    );
                } else if name == closing() {
                } else {
                    lemma_paren_items(
                        tokens,
                        pos + 1,
                        Gathered {
                            items: so_far.items.push(ExpressionView::Reference(None, name)),
                            arrow: so_far.arrow,
                        },
                    );
                }
            },
            TokenView::String(text) => lemma_paren_items(
                tokens,
                pos + 1,
                Gathered { items: so_far.items.push(ExpressionView::Literal(text)), arrow: so_far.arrow },
            ),
            TokenView::Number(n) => lemma_paren_items(
                tokens,
                pos + 1,
                Gathered { items: so_far.items.push(ExpressionView::Number(n)), arrow: so_far.arrow },
            ),
            _ => lemma_paren_items(tokens, pos + 1, so_far),
        }
    }
}

/// An expression in parentheses ends at or after where it began.
pub proof fn lemma_paren(tokens: Seq<TokenView>, pos: int)
    requires
        0 <= pos <= tokens.len(),
    ensures
        pos <= paren(tokens, pos).next <= tokens.len(),
    decreases tokens.len() - pos, 1nat,
{
    lemma_paren_items(tokens, pos, Gathered { items: Seq::empty(), arrow: None });
}

/// Whether `name` is the text `text`.
fn is_text(name: &String, text: &str) -> (r: bool)
    ensures
        r == (name@ == text@),
{
    let other = String::from_str(text);
    *name == other
}

/// The binders that the expressions `line[..upto]` stand for.
fn binders_from(line: &Vec<Expression>, upto: usize) -> (r: Vec<Binder>)
    requires
        upto <= line@.len(),
    ensures
        binders_view(r@) == binders_of(expressions_view(line@).take(upto as int)),
{
    let ghost items = expressions_view(line@);
    let mut binders: Vec<Binder> = Vec::new();
    let mut i: usize = 0;
    assert(items.take(0) =~= Seq::<ExpressionView>::empty());
    assert(binders_view(binders@) =~= binders_of(items.take(0)));
    while i < upto
        invariant
            i <= upto,
            upto <= line@.len(),
            items == expressions_view(line@),
            binders_view(binders@) == binders_of(items.take(i as int)),
        decreases upto - i,
    {
        let ghost before = binders_view(binders@);
        assert(items.take(i + 1).drop_last() =~= items.take(i as int));
        assert(items.take(i + 1).last() == line@[i as int]@);
        match &line[i] {
            Expression::Reference(_, name) => {
                let binder = Binder(None, name.clone());
                binders.push(binder);
                assert(binders_view(binders@) =~= before.push(binder@));
            },
            _ => {},
        }
        i += 1;
    }
    binders
}

/// The expressions `line[from..]`, taken out of `line`.
fn split_off(line: &mut Vec<Expression>, from: usize) -> (r: Vec<Expression>)
    requires
        from <= old(line)@.len(),
    ensures
        expressions_view(r@) == expressions_view(old(line)@).skip(from as int),
        expressions_view(final(line)@) == expressions_view(old(line)@).take(from as int),
{
    let ghost items = expressions_view(line@);
    let mut right: Vec<Expression> = Vec::new();
    while line.len() > from
        invariant
            from <= line@.len(),
            line@.len() <= items.len(),
            expressions_view(line@) == items.take(line@.len() as int),
            expressions_view(right@) == items.skip(line@.len() as int),
        decreases line@.len(),
    {
        let ghost before = expressions_view(right@);
        let ghost n = line@.len();
        assert(expressions_view(line@)[n - 1] == line@[n - 1]@);
        match line.pop() {
            Some(last) => {
                assert(last@ == items[n - 1]);
                right.insert(0, last);
                assert(expressions_view(right@) =~= seq![last@] + before);
                assert(expressions_view(right@) =~= items.skip(n - 1));
                assert(expressions_view(line@) =~= items.take(n - 1));
            },
            None => {},
        }
    }
    right
}

/// Reads an expression in parentheses, whose opening parenthesis has just
/// been read.
fn parse_paren(tokens: &Vec<Token>, pos: &mut usize) -> (r: Expression)
    requires
        *old(pos) <= tokens@.len(),
    ensures
        r@ == paren(tokens_view(tokens@), *old(pos) as int).tree,
        *final(pos) == paren(tokens_view(tokens@), *old(pos) as int).next,
        *old(pos) <= *final(pos) <= tokens@.len(),
    decreases tokens@.len() - *old(pos),
{
    let ghost views = tokens_view(tokens@);
    let ghost start = *pos as int;
    let mut line: Vec<Expression> = Vec::new();
    let mut arrow: Option<usize> = None;
    let mut open = true;
    assert(expressions_view(line@) =~= Seq::<ExpressionView>::empty());
    while open && *pos < tokens.len()
        invariant
            start == *old(pos),
            start <= *pos <= tokens@.len(),
            views == tokens_view(tokens@),
            open ==> paren_items(views, start, Gathered { items: Seq::empty(), arrow: None }) == paren_items(
                views,
                *pos as int,
                Gathered {
                    items: expressions_view(line@),
                    arrow: match arrow {
                        Some(n) => Some(n as nat),
                        None => None,
                    },
                },
            ),
            !open ==> paren_items(views, start, Gathered { items: Seq::empty(), arrow: None }) == (Parsed {
                tree: Gathered {
                    items: expressions_view(line@),
                    arrow: match arrow {
                        Some(n) => Some(n as nat),
                        None => None,
                    },
                },
                next: *pos as int,
            }),
            arrow matches Some(n) ==> n <= line@.len(),
        decreases tokens@.len() - *pos + (if open { 1int } else { 0int }),
    {
        let ghost before = expressions_view(line@);
        assert(views[*pos as int] == tokens@[*pos as int]@);
        match &tokens[*pos] {
            Token::Identifier(name) => {
                if is_text(name, "\u{21a6}") {
                    if arrow.is_none() {
                        arrow = Some(line.len());
                    }
                    *pos += 1;
                } else if is_text(name, "(") {
                    *pos += 1;
                    proof {
                        lemma_paren(views, *pos as int);
                    }
                    let inner = parse_paren(tokens, pos);
                    line.push(inner);
                    assert(expressions_view(line@) =~= before.push(inner@));
                } else if is_text(name, ")") {
                    *pos += 1;
                    open = false;
                } else {
                    let item = Expression::Reference(None, name.clone());
                    line.push(item);
                    assert(expressions_view(line@) =~= before.push(item@));
                    *pos += 1;
                }
            },
            Token::String(text) => {
                let item = Expression::Literal(text.clone());
                line.push(item);
                assert(expressions_view(line@) =~= before.push(item@));
                *pos += 1;
            },
            Token::Number(n) => {
                let item = Expression::Number(*n);
                line.push(item);
                assert(expressions_view(line@) =~= before.push(item@));
                *pos += 1;
            },
            _ => {
                *pos += 1;
            },
        }
    }
    match arrow {
        Some(n) => {
            let binders = binders_from(&line, n);
            let right = split_off(&mut line, n);
            Expression::Fructose(binders, right)
        },
        None => Expression::Galactose(line),
    }
}

/// Reads a line, whose start has just been read. There is no statement
/// where the line begins with the arrow.
fn parse_line(tokens: &Vec<Token>, pos: &mut usize) -> (r: Option<Statement>)
    requires
        *old(pos) <= tokens@.len(),
    ensures
        match r {
            Some(s) => line(tokens_view(tokens@), *old(pos) as int) == Some(
                Parsed { tree: s@, next: *final(pos) as int },
            ),
            None => line(tokens_view(tokens@), *old(pos) as int) is None,
        },
        *old(pos) <= *final(pos) <= tokens@.len(),
{
    let ghost views = tokens_view(tokens@);
    let ghost start = *pos as int;
    let mut items: Vec<Expression> = Vec::new();
    let mut arrow: Option<usize> = None;
    let mut open = true;
    assert(expressions_view(items@) =~= Seq::<ExpressionView>::empty());
    while open && *pos < tokens.len()
        invariant
            start == *old(pos),
            start <= *pos <= tokens@.len(),
            views == tokens_view(tokens@),
            open ==> line_items(views, start, Gathered { items: Seq::empty(), arrow: None }) == line_items(
                views,
                *pos as int,
                Gathered {
                    items: expressions_view(items@),
                    arrow: match arrow {
                        Some(n) => Some(n as nat),
                        None => None,
                    },
                },
            ),
            !open ==> line_items(views, start, Gathered { items: Seq::empty(), arrow: None }) == (Parsed {
                tree: Gathered {
                    items: expressions_view(items@),
                    arrow: match arrow {
                        Some(n) => Some(n as nat),
                        None => None,
                    },
                },
                next: *pos as int,
            }),
            arrow matches Some(n) ==> n <= items@.len(),
        decreases tokens@.len() - *pos + (if open { 1int } else { 0int }),
    {
        let ghost before = expressions_view(items@);
        assert(views[*pos as int] == tokens@[*pos as int]@);
        match &tokens[*pos] {
            Token::Identifier(name) => {
                if is_text(name, "\u{21a6}") {
                    if arrow.is_none() {
                        arrow = Some(items.len());
                    }
                    *pos += 1;
                } else if is_text(name, "(") {
                    *pos += 1;
                    proof {
                        lemma_paren(views, *pos as int);
                    }
                    let inner = parse_paren(tokens, pos);
                    items.push(inner);
                    assert(expressions_view(items@) =~= before.push(inner@));
                } else {
                    let item = Expression::Reference(None, name.clone());
                    items.push(item);
                    assert(expressions_view(items@) =~= before.push(item@));
                    *pos += 1;
                }
            },
            Token::String(text) => {
                let item = Expression::Literal(text.clone());
                items.push(item);
                assert(expressions_view(items@) =~= before.push(item@));
                *pos += 1;
            },
            Token::Number(n) => {
                let item = Expression::Number(*n);
                items.push(item);
                assert(expressions_view(items@) =~= before.push(item@));
                *pos += 1;
            },
            Token::LineEnd => {
                *pos += 1;
                open = false;
            },
            _ => {
                *pos += 1;
            },
        }
    }
    match arrow {
        Some(n) => {
            if n == 0 {
                None
            } else {
                let binders = binders_from(&items, n);
                let right = split_off(&mut items, n);
                Some(Statement::Closure(binders, right))
            }
        },
        None => Some(Statement::Call(items)),
    }
}

/// Reads a block, whose start has just been read.
fn parse_block(tokens: &Vec<Token>, pos: &mut usize) -> (r: Option<Statement>)
    requires
        *old(pos) <= tokens@.len(),
    ensures
        match r {
            Some(s) => block(tokens_view(tokens@), *old(pos) as int) == Some(
                Parsed { tree: s@, next: *final(pos) as int },
            ),
            None => block(tokens_view(tokens@), *old(pos) as int) is None,
        },
        *old(pos) <= *final(pos) <= tokens@.len(),
    decreases tokens@.len() - *old(pos),
{
    let ghost views = tokens_view(tokens@);
    let ghost start = *pos as int;
    let mut statements: Vec<Statement> = Vec::new();
    let mut open = true;
    assert(statements_view(statements@) =~= Seq::<StatementView>::empty());
    while open && *pos < tokens.len()
        invariant
            start == *old(pos),
            start <= *pos <= tokens@.len(),
            views == tokens_view(tokens@),
            open ==> block_items(views, start, Seq::empty()) == block_items(
                views,
                *pos as int,
                statements_view(statements@),
            ),
            !open ==> block_items(views, start, Seq::empty()) == Some(
                Parsed { tree: statements_view(statements@), next: *pos as int },
            ),
        decreases tokens@.len() - *pos + (if open { 1int } else { 0int }),
    {
        let ghost before = statements_view(statements@);
        assert(views[*pos as int] == tokens@[*pos as int]@);
        match &tokens[*pos] {
            Token::BlockStart => {
                let ghost at = *pos as int;
                *pos += 1;
                match parse_block(tokens, pos) {
                    Some(inner) => {
                        statements.push(inner);
                        assert(statements_view(statements@) =~= before.push(inner@));
                    },
                    None => {
                        assert(block_items(views, at, before) is None);
                        return None;
                    },
                }
            },
            Token::LineStart => {
                let ghost at = *pos as int;
                *pos += 1;
                match parse_line(tokens, pos) {
                    Some(inner) => {
                        statements.push(inner);
                        assert(statements_view(statements@) =~= before.push(inner@));
                    },
                    None => {
                        assert(block_items(views, at, before) is None);
                        return None;
                    },
                }
            },
            Token::BlockEnd => {
                *pos += 1;
                open = false;
            },
            _ => {
                *pos += 1;
            },
        }
    }
    Some(Statement::Block(statements))
}

/// Parses a program from its tokens, if it can be parsed: a line must not
/// begin with the arrow.
pub fn try_parse(tokens: &Vec<Token>) -> (r: Option<Statement>)
    ensures
        match r {
            Some(s) => parsed(tokens_view(tokens@)) == Some(s@),
            None => parsed(tokens_view(tokens@)) is None,
        },
{
    let mut pos: usize = 0;
    parse_block(tokens, &mut pos)
}

/// Parses a program from its tokens.
pub fn parse(tokens: &Vec<Token>) -> (r: Statement)
    requires
        parsed(tokens_view(tokens@)) is Some,
    ensures
        Some(r@) == parsed(tokens_view(tokens@)),
{
    match try_parse(tokens) {
        Some(s) => s,
        None => Statement::Block(Vec::new()),
    }
}

} // verus!
