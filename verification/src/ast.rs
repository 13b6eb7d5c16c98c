use vstd::prelude::*;

verus! {

/// A name in a binding position, with the number it is bound to once binders
/// have been numbered.
#[derive(Clone, PartialEq, Eq, Hash, Debug)]
pub struct Binder(pub Option<usize>, pub String);

/// What stands in a reference position.
#[derive(PartialEq, Eq, Debug)]
pub enum Expression {
    /// A name, with the number of the binder it refers to once it is bound.
    Reference(Option<usize>, String),
    /// An inline declaration in parentheses: binders, then a call.
    Fructose(Vec<Binder>, Vec<Expression>),
    /// A call in parentheses.
    Galactose(Vec<Expression>),
    /// A quoted string.
    Literal(String),
    /// A number.
    Number(u64),
}

/// A line of a program, or a block of lines.
#[derive(PartialEq, Eq, Debug)]
pub enum Statement {
    /// A declaration: binders, then the call that is its body.
    Closure(Vec<Binder>, Vec<Expression>),
    /// A call on a line of its own.
    Call(Vec<Expression>),
    /// An indented block.
    Block(Vec<Statement>),
}

/// Mathematical content of a [`Binder`].
pub struct BinderView {
    pub number: Option<usize>,
    pub name: Seq<char>,
}

/// Mathematical content of an [`Expression`].
pub enum ExpressionView {
    Reference(Option<usize>, Seq<char>),
    Fructose(Seq<BinderView>, Seq<ExpressionView>),
    Galactose(Seq<ExpressionView>),
    Literal(Seq<char>),
    Number(u64),
}

/// Mathematical content of a [`Statement`].
pub enum StatementView {
    Closure(Seq<BinderView>, Seq<ExpressionView>),
    Call(Seq<ExpressionView>),
    Block(Seq<StatementView>),
}

impl View for Binder {
    type V = BinderView;

    open spec fn view(&self) -> BinderView {
        BinderView { number: self.0, name: self.1@ }
    }
}

/// The views of a list of binders.
pub open spec fn binders_view(list: Seq<Binder>) -> Seq<BinderView> {
    Seq::new(list.len(), |i: int| list[i]@)
}

/// The view of an expression.
pub open spec fn expression_view(e: Expression) -> ExpressionView
    decreases e,
{
    match e {
        Expression::Reference(n, s) => ExpressionView::Reference(n, s@),
        Expression::Fructose(b, c) => ExpressionView::Fructose(binders_view(b@), expressions_view(c@)),
        Expression::Galactose(c) => ExpressionView::Galactose(expressions_view(c@)),
        Expression::Literal(s) => ExpressionView::Literal(s@),
        Expression::Number(n) => ExpressionView::Number(n),
    }
}

/// The views of a list of expressions.
pub open spec fn expressions_view(list: Seq<Expression>) -> Seq<ExpressionView>
    decreases list,
{
    Seq::new(
        list.len(),
        |i: int|
            if 0 <= i < list.len() {
                expression_view(list[i])
            } else {
                ExpressionView::Number(0)
            },
    )
}

/// The view of a statement.
pub open spec fn statement_view(s: Statement) -> StatementView
    decreases s,
{
    match s {
        Statement::Closure(b, c) => StatementView::Closure(binders_view(b@), expressions_view(c@)),
        Statement::Call(c) => StatementView::Call(expressions_view(c@)),
        Statement::Block(l) => StatementView::Block(statements_view(l@)),
    }
}

/// The views of a list of statements.
pub open spec fn statements_view(list: Seq<Statement>) -> Seq<StatementView>
    decreases list,
{
    Seq::new(
        list.len(),
        |i: int|
            if 0 <= i < list.len() {
                statement_view(list[i])
            } else {
                StatementView::Block(Seq::empty())
            },
    )
}

impl View for Expression {
    type V = ExpressionView;

    open spec fn view(&self) -> ExpressionView {
        expression_view(*self)
    }
}

impl View for Statement {
    type V = StatementView;

    open spec fn view(&self) -> StatementView {
        statement_view(*self)
    }
}

/// A copy of a binder.
pub fn copy_binder(binder: &Binder) -> (r: Binder)
    ensures
        r@ == binder@,
{
    Binder(binder.0, binder.1.clone())
}

/// A copy of a list of binders.
pub fn copy_binders(list: &Vec<Binder>) -> (r: Vec<Binder>)
    ensures
        binders_view(r@) == binders_view(list@),
{
    let mut out: Vec<Binder> = Vec::new();
    let mut i: usize = 0;
    while i < list.len()
        invariant
            i <= list.len(),
            out@.len() == i,
            forall|j: int| 0 <= j < i ==> out@[j]@ == list@[j]@,
        decreases list.len() - i,
    {
        out.push(copy_binder(&list[i]));
        i += 1;
    }
    assert(binders_view(out@) =~= binders_view(list@));
    out
}

/// A copy of an expression.
pub fn copy_expression(e: &Expression) -> (r: Expression)
    ensures
        r@ == e@,
    decreases *e,
{
    match e {
        Expression::Reference(n, s) => Expression::Reference(*n, s.clone()),
        Expression::Fructose(b, c) => Expression::Fructose(copy_binders(b), copy_expressions(c)),
        Expression::Galactose(c) => Expression::Galactose(copy_expressions(c)),
        Expression::Literal(s) => Expression::Literal(s.clone()),
        Expression::Number(n) => Expression::Number(*n),
    }
}

/// A copy of a list of expressions.
pub fn copy_expressions(list: &Vec<Expression>) -> (r: Vec<Expression>)
    ensures
        expressions_view(r@) == expressions_view(list@),
    decreases *list,
{
    let mut out: Vec<Expression> = Vec::new();
    let mut i: usize = 0;
    while i < list.len()
        invariant
            i <= list.len(),
            out@.len() == i,
            forall|j: int| 0 <= j < i ==> out@[j]@ == list@[j]@,
        decreases list.len() - i,
    {
        out.push(copy_expression(&list[i]));
        i += 1;
    }
    assert(expressions_view(out@) =~= expressions_view(list@));
    out
}

/// A copy of a statement.
pub fn copy_statement(s: &Statement) -> (r: Statement)
    ensures
        r@ == s@,
    decreases *s,
{
    match s {
        Statement::Closure(b, c) => Statement::Closure(copy_binders(b), copy_expressions(c)),
        Statement::Call(c) => Statement::Call(copy_expressions(c)),
        Statement::Block(l) => Statement::Block(copy_statements(l)),
    }
}

/// A copy of a list of statements.
pub fn copy_statements(list: &Vec<Statement>) -> (r: Vec<Statement>)
    ensures
        statements_view(r@) == statements_view(list@),
    decreases *list,
{
    let mut out: Vec<Statement> = Vec::new();
    let mut i: usize = 0;
    while i < list.len()
        invariant
            i <= list.len(),
            out@.len() == i,
            forall|j: int| 0 <= j < i ==> out@[j]@ == list@[j]@,
        decreases list.len() - i,
    {
        out.push(copy_statement(&list[i]));
        i += 1;
    }
    assert(statements_view(out@) =~= statements_view(list@));
    out
}

impl Clone for Expression {
    fn clone(&self) -> (r: Expression)
        ensures
            r@ == self@,
    {
        copy_expression(self)
    }
}

impl Clone for Statement {
    fn clone(&self) -> (r: Statement)
        ensures
            r@ == self@,
    {
        copy_statement(self)
    }
}

} // verus!
