use vstd::prelude::*;
use crate::ast::{
    binders_view, copy_binders, copy_expressions, copy_statement, expressions_view, statements_view, Binder,
    BinderView, Expression, ExpressionView, Statement, StatementView,
};

verus! {

/// `e` with `call` put in place of the first empty call that it holds, in
/// the order in which the parts of an expression are visited; `None` when it
/// holds no empty call.
pub open spec fn fill_expression(e: ExpressionView, call: Seq<ExpressionView>) -> Option<ExpressionView>
    decreases e, 0nat,
{
    match e {
        ExpressionView::Fructose(binders, body) => {
            if body.len() == 0 {
                Some(ExpressionView::Fructose(binders, call))
            } else {
                match fill_list(body, call, 0) {
                    Some(filled) => Some(ExpressionView::Fructose(binders, filled)),
                    None => None,
                }
            }
        },
        ExpressionView::Galactose(body) => {
            if body.len() == 0 {
                Some(ExpressionView::Galactose(call))
            } else {
                match fill_list(body, call, 0) {
                    Some(filled) => Some(ExpressionView::Galactose(filled)),
                    None => None,
                }
            }
        },
        _ => None,
    }
}

/// `list` with `call` put in place of the first empty call that its
/// expressions from `from` on hold; `None` when they hold none.
pub open spec fn fill_list(list: Seq<ExpressionView>, call: Seq<ExpressionView>, from: int) -> Option<
    Seq<ExpressionView>,
>
    decreases list, list.len() - from,
{
    if 0 <= from < list.len() {
        match fill_expression(list[from], call) {
            Some(filled) => Some(list.update(from, filled)),
            None => fill_list(list, call, from + 1),
        }
    } else {
        None
    }
}

fn fill(e: &mut Expression, call: &Vec<Expression>) -> (done: bool)
    ensures
        done == (fill_expression(old(e)@, expressions_view(call@)) is Some),
        done ==> Some(final(e)@) == fill_expression(old(e)@, expressions_view(call@)),
        !done ==> final(e)@ == old(e)@,
    decreases old(e)@,
{
    match e {
        Expression::Fructose(_, body) => {
            if body.len() == 0 {
                *body = copy_expressions(call);
                true
            } else {
                fill_in(body, call)
            }
        },
        Expression::Galactose(body) => {
            if body.len() == 0 {
                *body = copy_expressions(call);
                true
            } else {
                fill_in(body, call)
            }
        },
        _ => false,
    }
}

fn fill_in(list: &mut Vec<Expression>, call: &Vec<Expression>) -> (done: bool)
    ensures
        done == (fill_list(expressions_view(old(list)@), expressions_view(call@), 0) is Some),
        done ==> Some(expressions_view(final(list)@)) == fill_list(
            expressions_view(old(list)@),
            expressions_view(call@),
            0,
        ),
        !done ==> expressions_view(final(list)@) == expressions_view(old(list)@),
    decreases expressions_view(old(list)@),
{
    let ghost before = expressions_view(list@);
    let ghost wanted = expressions_view(call@);
    let mut i: usize = 0;
    while i < list.len()
        invariant
            i <= list.len(),
            expressions_view(list@) == before,
            before == expressions_view(old(list)@),
            wanted == expressions_view(call@),
            fill_list(before, wanted, 0) == fill_list(before, wanted, i as int),
        decreases list.len() - i,
    {
        let ghost prev = list@;
        assert(before[i as int] == prev[i as int]@);
        let done = fill(&mut list[i], call);
        assert(list@.len() == prev.len());
        assert(forall|j: int| 0 <= j < prev.len() && j != i ==> list@[j] == prev[j]);
        if done {
            assert(expressions_view(list@) =~= before.update(i as int, list@[i as int]@));
            return true;
        }
        assert(expressions_view(list@) =~= before);
        assert(fill_list(before, wanted, i as int) == fill_list(before, wanted, i + 1));
        i += 1;
    }
    false
}

/// What `merge` makes of `target`: `call` itself where `target` is empty,
/// else `target` with `call` in place of its first empty call; `None` when
/// there is no empty call to fill.
pub open spec fn merged(target: Seq<ExpressionView>, call: Seq<ExpressionView>) -> Option<Seq<ExpressionView>> {
    if target.len() == 0 {
        Some(call)
    } else {
        fill_list(target, call, 0)
    }
}

/// Completes the call `target` with `call`: an empty target becomes `call`,
/// and otherwise `call` fills the first empty call inside `target`.
pub fn merge(target: &mut Vec<Expression>, call: Vec<Expression>)
    requires
        merged(expressions_view(old(target)@), expressions_view(call@)) is Some,
    ensures
        Some(expressions_view(final(target)@)) == merged(
            expressions_view(old(target)@),
            expressions_view(call@),
        ),
{
    if target.len() == 0 {
        *target = call;
    } else {
        let done = fill_in(target, &call);
        assert(done);
    }
}

/// A closure that still waits for the calls that follow it.
pub struct Pending {
    pub binders: Seq<BinderView>,
    pub call: Seq<ExpressionView>,
}

/// Where `glucase` stands after some statements: the closures that are
/// complete, and the one that may still take calls.
pub struct Digest {
    pub done: Seq<StatementView>,
    pub pending: Option<Pending>,
}

/// Where `glucase` stands after the first `upto` statements; `None` when one
/// of them is a block, or a call that no closure precedes or that finds no
/// empty call to fill.
pub open spec fn digest(statements: Seq<StatementView>, upto: int) -> Option<Digest>
    decreases upto,
{
    if upto <= 0 {
        Some(Digest { done: Seq::empty(), pending: None })
    } else {
        match digest(statements, upto - 1) {
            None => None,
            Some(before) => {
                match statements[upto - 1] {
                    StatementView::Block(_) => None,
                    StatementView::Closure(binders, call) => Some(
                        Digest {
                            done: match before.pending {
                                Some(p) => before.done.push(StatementView::Closure(p.binders, p.call)),
                                None => before.done,
                            },
                            pending: Some(Pending { binders, call }),
                        },
                    ),
                    StatementView::Call(call) => {
                        match before.pending {
                            Some(p) => {
                                match merged(p.call, call) {
                                    Some(filled) => Some(
                                        Digest {
                                            done: before.done,
                                            pending: Some(Pending { binders: p.binders, call: filled }),
                                        },
                                    ),
                                    None => None,
                                }
                            },
                            None => None,
                        }
                    },
                }
            },
        }
    }
}

/// What `glucase` makes of `statements`: the closures, each completed by the
/// calls that follow it, up to but not including the last closure.
pub open spec fn glucased(statements: Seq<StatementView>) -> Option<Seq<StatementView>> {
    match digest(statements, statements.len() as int) {
        Some(d) => Some(d.done),
        None => None,
    }
}

/// A digest that does not exist after `failed` statements does not exist after more.
proof fn lemma_digest_fails(statements: Seq<StatementView>, failed: int, upto: int)
    requires
        digest(statements, failed) is None,
        failed <= upto,
    ensures
        digest(statements, upto) is None,
    decreases upto - failed,
{
    if failed < upto {
        lemma_digest_fails(statements, failed, upto - 1);
    }
}

/// Fills the empty call of each closure with the calls that follow it, if
/// that can be done: there must be no block among the statements, and each
/// call must follow a closure with an empty call left to fill.
pub fn try_glucase(statements: &[Statement]) -> (r: Option<Vec<Statement>>)
    ensures
        match r {
            Some(done) => glucased(statements_view(statements@)) == Some(statements_view(done@)),
            None => glucased(statements_view(statements@)) is None,
        },
{
    let ghost views = statements_view(statements@);
    let mut result: Vec<Statement> = Vec::new();
    let mut waiting = false;
    let mut binders: Vec<Binder> = Vec::new();
    let mut call: Vec<Expression> = Vec::new();
    let mut i: usize = 0;
    assert(statements_view(result@) =~= Seq::<StatementView>::empty());
    while i < statements.len()
        invariant
            i <= statements.len(),
            views == statements_view(statements@),
            digest(views, i as int) == Some(
                Digest {
                    done: statements_view(result@),
                    pending: if waiting {
                        Some(Pending { binders: binders_view(binders@), call: expressions_view(call@) })
                    } else {
                        None
                    },
                },
            ),
        decreases statements.len() - i,
    {
        assert(views[i as int] == statements@[i as int]@);
        match &statements[i] {
            Statement::Block(_) => {
                proof {
                    lemma_digest_fails(views, i + 1, views.len() as int);
                }
                return None;
            },
            Statement::Closure(a, b) => {
                if waiting {
                    let ghost before = statements_view(result@);
                    let mut b0: Vec<Binder> = Vec::new();
                    let mut c0: Vec<Expression> = Vec::new();
                    core::mem::swap(&mut binders, &mut b0);
                    core::mem::swap(&mut call, &mut c0);
                    let closure = Statement::Closure(b0, c0);
                    result.push(closure);
                    assert(statements_view(result@) =~= before.push(closure@));
                }
                binders = copy_binders(a);
                call = copy_expressions(b);
                waiting = true;
            },
            Statement::Call(a) => {
                if !waiting {
                    proof {
                        lemma_digest_fails(views, i + 1, views.len() as int);
                    }
                    return None;
                }
                if call.len() == 0 {
                    call = copy_expressions(a);
                } else if !fill_in(&mut call, a) {
                    proof {
                        lemma_digest_fails(views, i + 1, views.len() as int);
                    }
                    return None;
                }
            },
        }
        i += 1;
    }
    Some(result)
}

/// Whether `glucase` can digest the statements.
pub fn digestible(statements: &[Statement]) -> (r: bool)
    ensures
        r == (glucased(statements_view(statements@)) is Some),
{
    try_glucase(statements).is_some()
}

/// Fills the empty call of each closure with the calls on the lines that
/// follow it. A closure is handed out when the next one begins.
pub fn glucase(statements: &[Statement]) -> (r: Vec<Statement>)
    requires
        glucased(statements_view(statements@)) is Some,
    ensures
        Some(statements_view(r@)) == glucased(statements_view(statements@)),
{
    match try_glucase(statements) {
        Some(done) => done,
        None => Vec::new(),
    }
}

/// Applies `glucase` to the statements of a block; anything else is left alone.
pub fn glucase_wrap(block: &mut Statement)
    requires
        old(block)@ matches StatementView::Block(statements) ==> glucased(statements) is Some,
    ensures
        final(block)@ == match old(block)@ {
            StatementView::Block(statements) => StatementView::Block(glucased(statements).unwrap()),
            other => other,
        },
{
    match block {
        Statement::Block(statements) => {
            let digested = glucase(statements.as_slice());
            *statements = digested;
        },
        _ => {},
    }
}

/// A measure of an expression that inverting a galactose lowers: three for
/// each galactose and one for anything else.
pub open spec fn weight(e: ExpressionView) -> nat
    decreases e, 0nat,
{
    match e {
        ExpressionView::Galactose(body) => 3 + weight_list(body, 0),
        ExpressionView::Fructose(_, body) => 1 + weight_list(body, 0),
        _ => 1,
    }
}

/// The weights of the expressions of `list` from `from` on, added up.
pub open spec fn weight_list(list: Seq<ExpressionView>, from: int) -> nat
    decreases list, list.len() - from,
{
    if 0 <= from < list.len() {
        weight(list[from]) + weight_list(list, from + 1)
    } else {
        0
    }
}

/// The place of the first galactose of `list` at or after `from`.
pub open spec fn first_galactose(list: Seq<ExpressionView>, from: int) -> Option<int>
    decreases list.len() - from,
{
    if 0 <= from < list.len() {
        if list[from] is Galactose {
            Some(from)
        } else {
            first_galactose(list, from + 1)
        }
    } else {
        None
    }
}

/// The reference that stands for the binder numbered `id`.
pub open spec fn fresh_reference(id: int) -> ExpressionView {
    ExpressionView::Reference(Some(id as usize), Seq::empty())
}

/// The binder numbered `id`, which has no name.
pub open spec fn fresh_binder(id: int) -> BinderView {
    BinderView { number: Some(id as usize), name: Seq::empty() }
}

/// One inversion: the call inside the galactose at `at` comes first, and the
/// call around it becomes the body of a fructose that is its last argument,
/// with a reference to the fructose's binder where the galactose stood.
pub open spec fn inverted_once(list: Seq<ExpressionView>, at: int, id: int) -> Seq<ExpressionView> {
    let inner = match list[at] {
        ExpressionView::Galactose(body) => body,
        _ => Seq::empty(),
    };
    inner.push(ExpressionView::Fructose(seq![fresh_binder(id)], list.update(at, fresh_reference(id))))
}

pub proof fn lemma_weight_suffix(a: Seq<ExpressionView>, b: Seq<ExpressionView>, from: int)
    requires
        a.len() == b.len(),
        0 <= from,
        forall|k: int| from <= k < a.len() ==> a[k] == b[k],
    ensures
        weight_list(a, from) == weight_list(b, from),
    decreases a.len() - from,
{
    if from < a.len() {
        lemma_weight_suffix(a, b, from + 1);
    }
}

pub proof fn lemma_weight_update(list: Seq<ExpressionView>, at: int, e: ExpressionView, from: int)
    requires
        0 <= from <= at < list.len(),
    ensures
        weight_list(list.update(at, e), from) + weight(list[at]) == weight_list(list, from) + weight(e),
    decreases at - from,
{
    if from < at {
        lemma_weight_update(list, at, e, from + 1);
    } else {
        lemma_weight_suffix(list.update(at, e), list, at + 1);
    }
}

pub proof fn lemma_weight_push(list: Seq<ExpressionView>, e: ExpressionView, from: int)
    requires
        0 <= from <= list.len(),
    ensures
        weight_list(list.push(e), from) == weight_list(list, from) + weight(e),
    decreases list.len() - from,
{
    if from < list.len() {
        lemma_weight_push(list, e, from + 1);
    } else {
        assert(weight_list(list.push(e), from + 1) == 0);
    }
}

pub proof fn lemma_first_galactose(list: Seq<ExpressionView>, from: int)
    requires
        0 <= from,
    ensures
        first_galactose(list, from) matches Some(at) ==> from <= at < list.len() && list[at] is Galactose,
    decreases list.len() - from,
{
    if from < list.len() && !(list[from] is Galactose) {
        lemma_first_galactose(list, from + 1);
    }
}

/// One inversion lowers the weight by one.
pub proof fn lemma_inverted_once_weight(list: Seq<ExpressionView>, at: int, id: int)
    requires
        0 <= at < list.len(),
        list[at] is Galactose,
    ensures
        weight_list(inverted_once(list, at, id), 0) + 1 == weight_list(list, 0),
{
    let inner = list[at]->Galactose_0;
    let outer = list.update(at, fresh_reference(id));
    lemma_weight_update(list, at, fresh_reference(id), 0);
    lemma_weight_push(inner, ExpressionView::Fructose(seq![fresh_binder(id)], outer), 0);
}

/// What `galac_vec` makes of a call: inversions, one after the other, until
/// no galactose is left at the top of the call. The number that comes with it
/// is the next binder number that is free.
pub open spec fn inverted(list: Seq<ExpressionView>, id: int) -> (Seq<ExpressionView>, int)
    decreases weight_list(list, 0),
{
    match first_galactose(list, 0) {
        Some(at) => {
            if 0 <= at < list.len() && list[at] is Galactose {
                proof {
                    lemma_inverted_once_weight(list, at, id);
                }
                inverted(inverted_once(list, at, id), id + 1)
            } else {
                (list, id)
            }
        },
        None => (list, id),
    }
}

/// Inverting does not add weight, and binder numbers only go up.
pub proof fn lemma_inverted(list: Seq<ExpressionView>, id: int)
    ensures
        weight_list(inverted(list, id).0, 0) <= weight_list(list, 0),
        inverted(list, id).1 >= id,
    decreases weight_list(list, 0),
{
    lemma_first_galactose(list, 0);
    match first_galactose(list, 0) {
        Some(at) => {
            lemma_inverted_once_weight(list, at, id);
            lemma_inverted(inverted_once(list, at, id), id + 1);
        },
        None => {},
    }
}

/// Turns the galactoses at the top of a call inside out, one after the
/// other: the call inside comes first, and the call around it becomes a
/// fructose that is handed to it as its last argument.
pub fn galac_vec(exprs: &mut Vec<Expression>, binder_id: &mut usize)
    requires
        inverted(expressions_view(old(exprs)@), *old(binder_id) as int).1 <= usize::MAX,
    ensures
        expressions_view(final(exprs)@) == inverted(expressions_view(old(exprs)@), *old(binder_id) as int).0,
        *final(binder_id) == inverted(expressions_view(old(exprs)@), *old(binder_id) as int).1,
    decreases weight_list(expressions_view(old(exprs)@), 0),
{
    let ghost before = expressions_view(exprs@);
    let ghost id = *binder_id as int;
    let mut index: usize = 0;
    let mut found = false;
    while index < exprs.len() && !found
        invariant
            index <= exprs.len(),
            exprs@ == old(exprs)@,
            before == expressions_view(exprs@),
            first_galactose(before, 0) == first_galactose(before, index as int),
            found ==> index < exprs.len() && before[index as int] is Galactose,
        decreases exprs.len() - index + (if found { 0int } else { 1int }),
    {
        assert(before[index as int] == exprs@[index as int]@);
        if let Expression::Galactose(_) = &exprs[index] {
            found = true;
        } else {
            index += 1;
        }
    }
    if found {
        assert(before[index as int] == exprs@[index as int]@);
        assert(before[index as int] is Galactose);
        assert(first_galactose(before, 0) == Some(index as int));
        proof {
            lemma_inverted_once_weight(before, index as int, id);
            lemma_inverted(inverted_once(before, index as int, id), id + 1);
        }
        let mut temp = Expression::Reference(Some(*binder_id), String::default());
        core::mem::swap(&mut exprs[index], &mut temp);
        assert(expressions_view(exprs@) =~= before.update(index as int, fresh_reference(id)));
        let mut call = match temp {
            Expression::Galactose(c) => c,
            _ => Vec::new(),
        };
        core::mem::swap(exprs, &mut call);
        let binder = Binder(Some(*binder_id), String::default());
        let mut binders: Vec<Binder> = Vec::new();
        binders.push(binder);
        assert(binders_view(binders@) =~= seq![fresh_binder(id)]);
        let ghost inner = expressions_view(exprs@);
        let fructose = Expression::Fructose(binders, call);
        exprs.push(fructose);
        assert(expressions_view(exprs@) =~= inner.push(fructose@));
        assert(expressions_view(exprs@) == inverted_once(before, index as int, id));
        *binder_id += 1;
        galac_vec(exprs, binder_id)
    } else {
        assert(first_galactose(before, 0) is None);
    }
}

/// A tree out of which the fructoses have been lifted, the next binder
/// number that is free, and the closures that the fructoses have become.
pub struct Lift<T> {
    pub tree: T,
    pub next: int,
    pub closures: Seq<StatementView>,
}

/// `e` with each fructose replaced by a reference to a new closure that
/// holds its binders and its call. Fructoses inside a fructose are lifted
/// before the fructose itself, and binders are numbered from `id` on in that
/// order.
pub open spec fn lifted_expression(e: ExpressionView, id: int) -> Lift<ExpressionView>
    decreases e, 0nat,
{
    match e {
        ExpressionView::Fructose(binders, body) => {
            let inner = lifted_prefix(body, body.len() as int, id);
            Lift {
                tree: fresh_reference(inner.next),
                next: inner.next + 1,
                closures: inner.closures.push(
                    StatementView::Closure(seq![fresh_binder(inner.next)] + binders, inner.tree),
                ),
            }
        },
        ExpressionView::Galactose(body) => {
            let inner = lifted_prefix(body, body.len() as int, id);
            Lift { tree: ExpressionView::Galactose(inner.tree), next: inner.next, closures: inner.closures }
        },
        _ => Lift { tree: e, next: id, closures: Seq::empty() },
    }
}

/// The first `upto` expressions of `list`, lifted one after the other.
pub open spec fn lifted_prefix(list: Seq<ExpressionView>, upto: int, id: int) -> Lift<Seq<ExpressionView>>
    decreases list, upto,
{
    if 0 < upto <= list.len() {
        let before = lifted_prefix(list, upto - 1, id);
        let last = lifted_expression(list[upto - 1], before.next);
        Lift {
            tree: before.tree.push(last.tree),
            next: last.next,
            closures: before.closures + last.closures,
        }
    } else {
        Lift { tree: Seq::empty(), next: id, closures: Seq::empty() }
    }
}

/// `s` with the fructoses lifted out of its calls.
pub open spec fn lifted_statement(s: StatementView, id: int) -> Lift<StatementView>
    decreases s, 0nat,
{
    match s {
        StatementView::Closure(binders, call) => {
            let inner = lifted_prefix(call, call.len() as int, id);
            Lift { tree: StatementView::Closure(binders, inner.tree), next: inner.next, closures: inner.closures }
        },
        StatementView::Call(call) => {
            let inner = lifted_prefix(call, call.len() as int, id);
            Lift { tree: StatementView::Call(inner.tree), next: inner.next, closures: inner.closures }
        },
        StatementView::Block(statements) => {
            let inner = lifted_statements(statements, statements.len() as int, id);
            Lift { tree: StatementView::Block(inner.tree), next: inner.next, closures: inner.closures }
        },
    }
}

/// The first `upto` statements of `list`, lifted one after the other.
pub open spec fn lifted_statements(list: Seq<StatementView>, upto: int, id: int) -> Lift<Seq<StatementView>>
    decreases list, upto,
{
    if 0 < upto <= list.len() {
        let before = lifted_statements(list, upto - 1, id);
        let last = lifted_statement(list[upto - 1], before.next);
        Lift {
            tree: before.tree.push(last.tree),
            next: last.next,
            closures: before.closures + last.closures,
        }
    } else {
        Lift { tree: Seq::empty(), next: id, closures: Seq::empty() }
    }
}

/// Binder numbers only go up while fructoses are lifted.
pub proof fn lemma_lifted_expression(e: ExpressionView, id: int)
    ensures
        lifted_expression(e, id).next >= id,
    decreases e, 0nat,
{
    match e {
        ExpressionView::Fructose(_, body) => lemma_lifted_prefix(body, body.len() as int, body.len() as int, id),
        ExpressionView::Galactose(body) => lemma_lifted_prefix(body, body.len() as int, body.len() as int, id),
        _ => {},
    }
}

/// Binder numbers only go up along a call.
pub proof fn lemma_lifted_prefix(list: Seq<ExpressionView>, shorter: int, upto: int, id: int)
    requires
        0 <= shorter <= upto <= list.len(),
    ensures
        id <= lifted_prefix(list, shorter, id).next <= lifted_prefix(list, upto, id).next,
        lifted_prefix(list, upto, id).tree.len() == upto,
    decreases list, upto,
{
    if 0 < upto {
        if shorter < upto {
            lemma_lifted_prefix(list, shorter, upto - 1, id);
        } else {
            lemma_lifted_prefix(list, upto - 1, upto - 1, id);
        }
        lemma_lifted_expression(list[upto - 1], lifted_prefix(list, upto - 1, id).next);
    }
}

/// Binder numbers only go up in a statement.
pub proof fn lemma_lifted_statement(s: StatementView, id: int)
    ensures
        lifted_statement(s, id).next >= id,
    decreases s, 0nat,
{
    match s {
        StatementView::Closure(_, call) => lemma_lifted_prefix(call, call.len() as int, call.len() as int, id),
        StatementView::Call(call) => lemma_lifted_prefix(call, call.len() as int, call.len() as int, id),
        StatementView::Block(l) => lemma_lifted_statements(l, l.len() as int, l.len() as int, id),
    }
}

/// Binder numbers only go up along a block.
pub proof fn lemma_lifted_statements(list: Seq<StatementView>, shorter: int, upto: int, id: int)
    requires
        0 <= shorter <= upto <= list.len(),
    ensures
        id <= lifted_statements(list, shorter, id).next <= lifted_statements(list, upto, id).next,
        lifted_statements(list, upto, id).tree.len() == upto,
    decreases list, upto,
{
    if 0 < upto {
        if shorter < upto {
            lemma_lifted_statements(list, shorter, upto - 1, id);
        } else {
            lemma_lifted_statements(list, upto - 1, upto - 1, id);
        }
        lemma_lifted_statement(list[upto - 1], lifted_statements(list, upto - 1, id).next);
    }
}

/// Lifts the fructoses out of an expression.
fn lift_expression(e: &mut Expression, id: &mut usize, closures: &mut Vec<Statement>)
    requires
        lifted_expression(old(e)@, *old(id) as int).next <= usize::MAX,
    ensures
        final(e)@ == lifted_expression(old(e)@, *old(id) as int).tree,
        *final(id) == lifted_expression(old(e)@, *old(id) as int).next,
        statements_view(final(closures)@) == statements_view(old(closures)@) + lifted_expression(
            old(e)@,
            *old(id) as int,
        ).closures,
    decreases old(e)@,
{
    let ghost start = *id as int;
    let ghost lifted_before = statements_view(closures@);
    match e {
        Expression::Fructose(p, c) => {
            let ghost binders = binders_view(p@);
            let ghost body = expressions_view(c@);
            let ghost inner = lifted_prefix(body, body.len() as int, start);
            lift_list(c, id, closures);
            let mut procedure: Vec<Binder> = Vec::new();
            core::mem::swap(p, &mut procedure);
            let mut call: Vec<Expression> = Vec::new();
            core::mem::swap(c, &mut call);
            procedure.insert(0, Binder(Some(*id), String::default()));
            assert(binders_view(procedure@) =~= seq![fresh_binder(inner.next)] + binders);
            let ghost lifted_inner = statements_view(closures@);
            let closure = Statement::Closure(procedure, call);
            closures.push(closure);
            assert(statements_view(closures@) =~= lifted_inner.push(closure@));
            assert(lifted_before + inner.closures.push(closure@) =~= (lifted_before + inner.closures).push(
                closure@,
            ));
            *e = Expression::Reference(Some(*id), String::default());
            *id += 1;
        },
        Expression::Galactose(c) => {
            lift_list(c, id, closures);
        },
        _ => {
            assert(lifted_before + Seq::<StatementView>::empty() =~= lifted_before);
        },
    }
}

/// Lifts the fructoses out of the expressions of a call, first to last.
fn lift_list(list: &mut Vec<Expression>, id: &mut usize, closures: &mut Vec<Statement>)
    requires
        lifted_prefix(expressions_view(old(list)@), old(list)@.len() as int, *old(id) as int).next
            <= usize::MAX,
    ensures
        expressions_view(final(list)@) == lifted_prefix(
            expressions_view(old(list)@),
            old(list)@.len() as int,
            *old(id) as int,
        ).tree,
        *final(id) == lifted_prefix(
            expressions_view(old(list)@),
            old(list)@.len() as int,
            *old(id) as int,
        ).next,
        statements_view(final(closures)@) == statements_view(old(closures)@) + lifted_prefix(
            expressions_view(old(list)@),
            old(list)@.len() as int,
            *old(id) as int,
        ).closures,
    decreases expressions_view(old(list)@),
{
    let ghost before = expressions_view(list@);
    let ghost start = *id as int;
    let ghost lifted_before = statements_view(closures@);
    let n = list.len();
    let mut i: usize = 0;
    assert(lifted_before + lifted_prefix(before, 0, start).closures =~= lifted_before);
    assert(expressions_view(list@).subrange(0, 0) =~= lifted_prefix(before, 0, start).tree);
    while i < n
        invariant
            i <= n,
            n == list@.len(),
            n == before.len(),
            before == expressions_view(old(list)@),
            lifted_prefix(before, n as int, start).next <= usize::MAX,
            expressions_view(list@).subrange(0, i as int) == lifted_prefix(before, i as int, start).tree,
            forall|k: int| i <= k < n ==> list@[k]@ == before[k],
            *id == lifted_prefix(before, i as int, start).next,
            statements_view(closures@) == lifted_before + lifted_prefix(before, i as int, start).closures,
        decreases n - i,
    {
        let ghost prev = list@;
        let ghost done = expressions_view(list@).subrange(0, i as int);
        let ghost lifted_so_far = statements_view(closures@);
        proof {
            lemma_lifted_prefix(before, i + 1, n as int, start);
        }
        lift_expression(&mut list[i], id, closures);
        proof {
            let step = lifted_expression(before[i as int], lifted_prefix(before, i as int, start).next);
            assert(list@.len() == prev.len());
            assert(forall|k: int| 0 <= k < n && k != i ==> list@[k] == prev[k]);
            assert(expressions_view(list@).subrange(0, i + 1) =~= done.push(step.tree));
            assert(lifted_before + (lifted_prefix(before, i as int, start).closures + step.closures)
                =~= lifted_so_far + step.closures);
        }
        i += 1;
    }
    assert(expressions_view(list@).subrange(0, n as int) =~= expressions_view(list@));
}

/// Lifts the fructoses out of a statement.
fn lift_statement(s: &mut Statement, id: &mut usize, closures: &mut Vec<Statement>)
    requires
        lifted_statement(old(s)@, *old(id) as int).next <= usize::MAX,
    ensures
        final(s)@ == lifted_statement(old(s)@, *old(id) as int).tree,
        *final(id) == lifted_statement(old(s)@, *old(id) as int).next,
        statements_view(final(closures)@) == statements_view(old(closures)@) + lifted_statement(
            old(s)@,
            *old(id) as int,
        ).closures,
    decreases old(s)@,
{
    match s {
        Statement::Closure(_, call) => lift_list(call, id, closures),
        Statement::Call(call) => lift_list(call, id, closures),
        Statement::Block(statements) => lift_statements(statements, id, closures),
    }
}

/// Lifts the fructoses out of the statements of a block, first to last.
fn lift_statements(list: &mut Vec<Statement>, id: &mut usize, closures: &mut Vec<Statement>)
    requires
        lifted_statements(statements_view(old(list)@), old(list)@.len() as int, *old(id) as int).next
            <= usize::MAX,
    ensures
        statements_view(final(list)@) == lifted_statements(
            statements_view(old(list)@),
            old(list)@.len() as int,
            *old(id) as int,
        ).tree,
        *final(id) == lifted_statements(
            statements_view(old(list)@),
            old(list)@.len() as int,
            *old(id) as int,
        ).next,
        statements_view(final(closures)@) == statements_view(old(closures)@) + lifted_statements(
            statements_view(old(list)@),
            old(list)@.len() as int,
            *old(id) as int,
        ).closures,
    decreases statements_view(old(list)@),
{
    let ghost before = statements_view(list@);
    let ghost start = *id as int;
    let ghost lifted_before = statements_view(closures@);
    let n = list.len();
    let mut i: usize = 0;
    assert(lifted_before + lifted_statements(before, 0, start).closures =~= lifted_before);
    assert(statements_view(list@).subrange(0, 0) =~= lifted_statements(before, 0, start).tree);
    while i < n
        invariant
            i <= n,
            n == list@.len(),
            n == before.len(),
            before == statements_view(old(list)@),
            lifted_statements(before, n as int, start).next <= usize::MAX,
            statements_view(list@).subrange(0, i as int) == lifted_statements(before, i as int, start).tree,
            forall|k: int| i <= k < n ==> list@[k]@ == before[k],
            *id == lifted_statements(before, i as int, start).next,
            statements_view(closures@) == lifted_before + lifted_statements(before, i as int, start).closures,
        decreases n - i,
    {
        let ghost prev = list@;
        let ghost done = statements_view(list@).subrange(0, i as int);
        let ghost lifted_so_far = statements_view(closures@);
        proof {
            lemma_lifted_statements(before, i + 1, n as int, start);
        }
        lift_statement(&mut list[i], id, closures);
        proof {
            let step = lifted_statement(before[i as int], lifted_statements(before, i as int, start).next);
            assert(list@.len() == prev.len());
            assert(forall|k: int| 0 <= k < n && k != i ==> list@[k] == prev[k]);
            assert(statements_view(list@).subrange(0, i + 1) =~= done.push(step.tree));
            assert(lifted_before + (lifted_statements(before, i as int, start).closures + step.closures)
                =~= lifted_so_far + step.closures);
        }
        i += 1;
    }
    assert(statements_view(list@).subrange(0, n as int) =~= statements_view(list@));
}

/// What `fructase` makes of the statements of a block, with the next binder
/// number that is free: the statements with their fructoses lifted out,
/// followed by the closures that the fructoses have become.
pub open spec fn fructased(statements: Seq<StatementView>, id: int) -> (Seq<StatementView>, int) {
    let lifted = lifted_statements(statements, statements.len() as int, id);
    (lifted.tree + lifted.closures, lifted.next)
}

/// Turns every fructose of a block into a closure of its own, which is added
/// at the end of the block, and leaves a reference to the closure in its place.
pub fn fructase(block: &mut Statement, binder_id: &mut usize)
    requires
        old(block)@ is Block,
        fructased(old(block)@->Block_0, *old(binder_id) as int).1 <= usize::MAX,
    ensures
        final(block)@ == StatementView::Block(fructased(old(block)@->Block_0, *old(binder_id) as int).0),
        *final(binder_id) == fructased(old(block)@->Block_0, *old(binder_id) as int).1,
{
    let mut closures: Vec<Statement> = Vec::new();
    assert(statements_view(closures@) =~= Seq::<StatementView>::empty());
    match block {
        Statement::Block(statements) => {
            let ghost before = statements_view(statements@);
            let ghost lifted = lifted_statements(before, before.len() as int, *binder_id as int);
            lift_statements(statements, binder_id, &mut closures);
            assert(statements_view(closures@) =~= lifted.closures);
            let ghost tree = statements_view(statements@);
            statements.append(&mut closures);
            assert(statements_view(statements@) =~= tree + lifted.closures);
        },
        _ => {},
    }
}

/// No expression of a call weighs more than the call.
pub proof fn lemma_weight_element(list: Seq<ExpressionView>, at: int, from: int)
    requires
        0 <= from <= at < list.len(),
    ensures
        weight(list[at]) <= weight_list(list, from),
    decreases at - from,
{
    if from < at {
        lemma_weight_element(list, at, from + 1);
    }
}

/// `e` with the calls inside it turned inside out: the call of each fructose
/// and of each galactose is inverted, and then the expressions of the
/// inverted call are treated in turn. The number that comes with it is the
/// next binder number that is free.
pub open spec fn turned_expression(e: ExpressionView, id: int) -> (ExpressionView, int)
    decreases weight(e), 0nat,
{
    match e {
        ExpressionView::Fructose(binders, body) => {
            let first = inverted(body, id);
            proof {
                lemma_inverted(body, id);
            }
            let rest = turned_prefix(first.0, first.0.len() as int, first.1);
            (ExpressionView::Fructose(binders, rest.0), rest.1)
        },
        ExpressionView::Galactose(body) => {
            let first = inverted(body, id);
            proof {
                lemma_inverted(body, id);
            }
            let rest = turned_prefix(first.0, first.0.len() as int, first.1);
            (ExpressionView::Galactose(rest.0), rest.1)
        },
        _ => (e, id),
    }
}

/// The first `upto` expressions of `list`, turned one after the other.
pub open spec fn turned_prefix(list: Seq<ExpressionView>, upto: int, id: int) -> (Seq<ExpressionView>, int)
    decreases weight_list(list, 0), upto + 1,
{
    if 0 < upto <= list.len() {
        let before = turned_prefix(list, upto - 1, id);
        proof {
            lemma_weight_element(list, upto - 1, 0);
        }
        let last = turned_expression(list[upto - 1], before.1);
        (before.0.push(last.0), last.1)
    } else {
        (Seq::empty(), id)
    }
}

/// `s` with the calls inside it turned inside out. The call of a closure is
/// inverted itself; the call of a call statement is not, only what is inside it.
pub open spec fn turned_statement(s: StatementView, id: int) -> (StatementView, int)
    decreases s, 0nat,
{
    match s {
        StatementView::Closure(binders, call) => {
            let first = inverted(call, id);
            let rest = turned_prefix(first.0, first.0.len() as int, first.1);
            (StatementView::Closure(binders, rest.0), rest.1)
        },
        StatementView::Call(call) => {
            let rest = turned_prefix(call, call.len() as int, id);
            (StatementView::Call(rest.0), rest.1)
        },
        StatementView::Block(statements) => {
            let rest = turned_statements(statements, statements.len() as int, id);
            (StatementView::Block(rest.0), rest.1)
        },
    }
}

/// The first `upto` statements of `list`, turned one after the other.
pub open spec fn turned_statements(list: Seq<StatementView>, upto: int, id: int) -> (Seq<StatementView>, int)
    decreases list, upto,
{
    if 0 < upto <= list.len() {
        let before = turned_statements(list, upto - 1, id);
        let last = turned_statement(list[upto - 1], before.1);
        (before.0.push(last.0), last.1)
    } else {
        (Seq::empty(), id)
    }
}

/// Binder numbers only go up while an expression is turned.
pub proof fn lemma_turned_expression(e: ExpressionView, id: int)
    ensures
        turned_expression(e, id).1 >= id,
    decreases weight(e), 0nat,
{
    match e {
        ExpressionView::Fructose(_, body) => {
            let first = inverted(body, id);
            lemma_inverted(body, id);
            lemma_turned_prefix(first.0, first.0.len() as int, first.0.len() as int, first.1);
        },
        ExpressionView::Galactose(body) => {
            let first = inverted(body, id);
            lemma_inverted(body, id);
            lemma_turned_prefix(first.0, first.0.len() as int, first.0.len() as int, first.1);
        },
        _ => {},
    }
}

/// Binder numbers only go up along a call.
pub proof fn lemma_turned_prefix(list: Seq<ExpressionView>, shorter: int, upto: int, id: int)
    requires
        0 <= shorter <= upto <= list.len(),
    ensures
        id <= turned_prefix(list, shorter, id).1 <= turned_prefix(list, upto, id).1,
        turned_prefix(list, upto, id).0.len() == upto,
    decreases weight_list(list, 0), upto + 1,
{
    if 0 < upto {
        if shorter < upto {
            lemma_turned_prefix(list, shorter, upto - 1, id);
        } else {
            lemma_turned_prefix(list, upto - 1, upto - 1, id);
        }
        lemma_weight_element(list, upto - 1, 0);
        lemma_turned_expression(list[upto - 1], turned_prefix(list, upto - 1, id).1);
    }
}

/// Binder numbers only go up while a statement is turned.
pub proof fn lemma_turned_statement(s: StatementView, id: int)
    ensures
        turned_statement(s, id).1 >= id,
    decreases s, 0nat,
{
    match s {
        StatementView::Closure(_, call) => {
            let first = inverted(call, id);
            lemma_inverted(call, id);
            lemma_turned_prefix(first.0, first.0.len() as int, first.0.len() as int, first.1);
        },
        StatementView::Call(call) => lemma_turned_prefix(call, call.len() as int, call.len() as int, id),
        StatementView::Block(l) => lemma_turned_statements(l, l.len() as int, l.len() as int, id),
    }
}

/// Binder numbers only go up along a block.
pub proof fn lemma_turned_statements(list: Seq<StatementView>, shorter: int, upto: int, id: int)
    requires
        0 <= shorter <= upto <= list.len(),
    ensures
        id <= turned_statements(list, shorter, id).1 <= turned_statements(list, upto, id).1,
        turned_statements(list, upto, id).0.len() == upto,
    decreases list, upto,
{
    if 0 < upto {
        if shorter < upto {
            lemma_turned_statements(list, shorter, upto - 1, id);
        } else {
            lemma_turned_statements(list, upto - 1, upto - 1, id);
        }
        lemma_turned_statement(list[upto - 1], turned_statements(list, upto - 1, id).1);
    }
}

/// Turns the calls inside an expression inside out.
fn turn_expression(e: &mut Expression, id: &mut usize)
    requires
        turned_expression(old(e)@, *old(id) as int).1 <= usize::MAX,
    ensures
        final(e)@ == turned_expression(old(e)@, *old(id) as int).0,
        *final(id) == turned_expression(old(e)@, *old(id) as int).1,
    decreases weight(old(e)@), 0nat,
{
    let ghost start = *id as int;
    match e {
        Expression::Fructose(_, body) => {
            proof {
                let first = inverted(expressions_view(body@), start);
                lemma_inverted(expressions_view(body@), start);
                lemma_turned_prefix(first.0, first.0.len() as int, first.0.len() as int, first.1);
            }
            galac_vec(body, id);
            turn_list(body, id);
        },
        Expression::Galactose(body) => {
            proof {
                let first = inverted(expressions_view(body@), start);
                lemma_inverted(expressions_view(body@), start);
                lemma_turned_prefix(first.0, first.0.len() as int, first.0.len() as int, first.1);
            }
            galac_vec(body, id);
            turn_list(body, id);
        },
        _ => {},
    }
}

/// Turns the expressions of a call inside out, first to last.
fn turn_list(list: &mut Vec<Expression>, id: &mut usize)
    requires
        turned_prefix(expressions_view(old(list)@), old(list)@.len() as int, *old(id) as int).1 <= usize::MAX,
    ensures
        expressions_view(final(list)@) == turned_prefix(
            expressions_view(old(list)@),
            old(list)@.len() as int,
            *old(id) as int,
        ).0,
        *final(id) == turned_prefix(
            expressions_view(old(list)@),
            old(list)@.len() as int,
            *old(id) as int,
        ).1,
    decreases weight_list(expressions_view(old(list)@), 0), 1nat,
{
    let ghost before = expressions_view(list@);
    let ghost start = *id as int;
    let n = list.len();
    let mut i: usize = 0;
    assert(expressions_view(list@).subrange(0, 0) =~= turned_prefix(before, 0, start).0);
    while i < n
        invariant
            i <= n,
            n == list@.len(),
            n == before.len(),
            before == expressions_view(old(list)@),
            turned_prefix(before, n as int, start).1 <= usize::MAX,
            expressions_view(list@).subrange(0, i as int) == turned_prefix(before, i as int, start).0,
            forall|k: int| i <= k < n ==> list@[k]@ == before[k],
            *id == turned_prefix(before, i as int, start).1,
        decreases n - i,
    {
        let ghost prev = list@;
        let ghost done = expressions_view(list@).subrange(0, i as int);
        proof {
            lemma_turned_prefix(before, i + 1, n as int, start);
            lemma_weight_element(before, i as int, 0);
        }
        turn_expression(&mut list[i], id);
        proof {
            let step = turned_expression(before[i as int], turned_prefix(before, i as int, start).1);
            assert(list@.len() == prev.len());
            assert(forall|k: int| 0 <= k < n && k != i ==> list@[k] == prev[k]);
            assert(expressions_view(list@).subrange(0, i + 1) =~= done.push(step.0));
        }
        i += 1;
    }
    assert(expressions_view(list@).subrange(0, n as int) =~= expressions_view(list@));
}

/// Turns the calls inside a statement inside out.
fn turn_statement(s: &mut Statement, id: &mut usize)
    requires
        turned_statement(old(s)@, *old(id) as int).1 <= usize::MAX,
    ensures
        final(s)@ == turned_statement(old(s)@, *old(id) as int).0,
        *final(id) == turned_statement(old(s)@, *old(id) as int).1,
    decreases old(s)@,
{
    let ghost start = *id as int;
    match s {
        Statement::Closure(_, call) => {
            proof {
                let first = inverted(expressions_view(call@), start);
                lemma_inverted(expressions_view(call@), start);
                lemma_turned_prefix(first.0, first.0.len() as int, first.0.len() as int, first.1);
            }
            galac_vec(call, id);
            turn_list(call, id);
        },
        Statement::Call(call) => turn_list(call, id),
        Statement::Block(statements) => turn_statements(statements, id),
    }
}

/// Turns the statements of a block inside out, first to last.
fn turn_statements(list: &mut Vec<Statement>, id: &mut usize)
    requires
        turned_statements(statements_view(old(list)@), old(list)@.len() as int, *old(id) as int).1
            <= usize::MAX,
    ensures
        statements_view(final(list)@) == turned_statements(
            statements_view(old(list)@),
            old(list)@.len() as int,
            *old(id) as int,
        ).0,
        *final(id) == turned_statements(
            statements_view(old(list)@),
            old(list)@.len() as int,
            *old(id) as int,
        ).1,
    decreases statements_view(old(list)@),
{
    let ghost before = statements_view(list@);
    let ghost start = *id as int;
    let n = list.len();
    let mut i: usize = 0;
    assert(statements_view(list@).subrange(0, 0) =~= turned_statements(before, 0, start).0);
    while i < n
        invariant
            i <= n,
            n == list@.len(),
            n == before.len(),
            before == statements_view(old(list)@),
            turned_statements(before, n as int, start).1 <= usize::MAX,
            statements_view(list@).subrange(0, i as int) == turned_statements(before, i as int, start).0,
            forall|k: int| i <= k < n ==> list@[k]@ == before[k],
            *id == turned_statements(before, i as int, start).1,
        decreases n - i,
    {
        let ghost prev = list@;
        let ghost done = statements_view(list@).subrange(0, i as int);
        proof {
            lemma_turned_statements(before, i + 1, n as int, start);
        }
        turn_statement(&mut list[i], id);
        proof {
            let step = turned_statement(before[i as int], turned_statements(before, i as int, start).1);
            assert(list@.len() == prev.len());
            assert(forall|k: int| 0 <= k < n && k != i ==> list@[k] == prev[k]);
            assert(statements_view(list@).subrange(0, i + 1) =~= done.push(step.0));
        }
        i += 1;
    }
    assert(statements_view(list@).subrange(0, n as int) =~= statements_view(list@));
}

/// Turns every galactose of a block inside out: the call in parentheses
/// comes first, and the call around it is handed to it as a fructose.
pub fn galactase(block: &mut Statement, binder_id: &mut usize)
    requires
        turned_statement(old(block)@, *old(binder_id) as int).1 <= usize::MAX,
    ensures
        final(block)@ == turned_statement(old(block)@, *old(binder_id) as int).0,
        *final(binder_id) == turned_statement(old(block)@, *old(binder_id) as int).1,
{
    turn_statement(block, binder_id);
}

/// The names bound so far, each with the number of its binder, in the order
/// in which the binders were met.
pub type Bindings = Seq<(Seq<char>, usize)>;

/// The number that `name` is bound to: that of the binder of this name that
/// was met last.
pub open spec fn lookup(bindings: Bindings, name: Seq<char>) -> Option<usize>
    decreases bindings.len(),
{
    if bindings.len() == 0 {
        None
    } else if bindings.last().0 == name {
        Some(bindings.last().1)
    } else {
        lookup(bindings.drop_last(), name)
    }
}

/// A tree whose binders are numbered and whose references are bound, the
/// next binder number that is free, and the names bound so far.
pub struct Bound<T> {
    pub tree: T,
    pub next: int,
    pub bindings: Bindings,
}

/// The first `upto` binders of `list`, numbered from `id` on and entered
/// into the bindings.
pub open spec fn bound_binders(list: Seq<BinderView>, upto: int, id: int, bindings: Bindings) -> Bound<
    Seq<BinderView>,
>
    decreases upto,
{
    if 0 < upto <= list.len() {
        let before = bound_binders(list, upto - 1, id, bindings);
        Bound {
            tree: before.tree.push(
                BinderView { number: Some(before.next as usize), name: list[upto - 1].name },
            ),
            next: before.next + 1,
            bindings: before.bindings.push((list[upto - 1].name, before.next as usize)),
        }
    } else {
        Bound { tree: Seq::empty(), next: id, bindings }
    }
}

/// `e` with its binders numbered and each reference bound to the binder of
/// its name that was met last, if any. Binders are met in reading order: the
/// binders of a fructose before its call.
pub open spec fn bound_expression(e: ExpressionView, id: int, bindings: Bindings) -> Bound<ExpressionView>
    decreases e, 0nat,
{
    match e {
        ExpressionView::Reference(_, name) => Bound {
            tree: ExpressionView::Reference(lookup(bindings, name), name),
            next: id,
            bindings,
        },
        ExpressionView::Fructose(binders, body) => {
            let head = bound_binders(binders, binders.len() as int, id, bindings);
            let rest = bound_prefix(body, body.len() as int, head.next, head.bindings);
            Bound { tree: ExpressionView::Fructose(head.tree, rest.tree), next: rest.next, bindings: rest.bindings }
        },
        ExpressionView::Galactose(body) => {
            let rest = bound_prefix(body, body.len() as int, id, bindings);
            Bound { tree: ExpressionView::Galactose(rest.tree), next: rest.next, bindings: rest.bindings }
        },
        _ => Bound { tree: e, next: id, bindings },
    }
}

/// The first `upto` expressions of `list`, bound one after the other.
pub open spec fn bound_prefix(list: Seq<ExpressionView>, upto: int, id: int, bindings: Bindings) -> Bound<
    Seq<ExpressionView>,
>
    decreases list, upto,
{
    if 0 < upto <= list.len() {
        let before = bound_prefix(list, upto - 1, id, bindings);
        let last = bound_expression(list[upto - 1], before.next, before.bindings);
        Bound { tree: before.tree.push(last.tree), next: last.next, bindings: last.bindings }
    } else {
        Bound { tree: Seq::empty(), next: id, bindings }
    }
}

/// `s` with its binders numbered and its references bound.
pub open spec fn bound_statement(s: StatementView, id: int, bindings: Bindings) -> Bound<StatementView>
    decreases s, 0nat,
{
    match s {
        StatementView::Closure(binders, call) => {
            let head = bound_binders(binders, binders.len() as int, id, bindings);
            let rest = bound_prefix(call, call.len() as int, head.next, head.bindings);
            Bound { tree: StatementView::Closure(head.tree, rest.tree), next: rest.next, bindings: rest.bindings }
        },
        StatementView::Call(call) => {
            let rest = bound_prefix(call, call.len() as int, id, bindings);
            Bound { tree: StatementView::Call(rest.tree), next: rest.next, bindings: rest.bindings }
        },
        StatementView::Block(statements) => {
            let rest = bound_statements(statements, statements.len() as int, id, bindings);
            Bound { tree: StatementView::Block(rest.tree), next: rest.next, bindings: rest.bindings }
        },
    }
}

/// The first `upto` statements of `list`, bound one after the other.
pub open spec fn bound_statements(list: Seq<StatementView>, upto: int, id: int, bindings: Bindings) -> Bound<
    Seq<StatementView>,
>
    decreases list, upto,
{
    if 0 < upto <= list.len() {
        let before = bound_statements(list, upto - 1, id, bindings);
        let last = bound_statement(list[upto - 1], before.next, before.bindings);
        Bound { tree: before.tree.push(last.tree), next: last.next, bindings: last.bindings }
    } else {
        Bound { tree: Seq::empty(), next: id, bindings }
    }
}

/// The closures and calls of `s` in reading order, with the blocks taken away.
pub open spec fn flattened(s: StatementView) -> Seq<StatementView>
    decreases s, 0nat,
{
    match s {
        StatementView::Block(statements) => flattened_prefix(statements, statements.len() as int),
        _ => seq![s],
    }
}

/// The closures and calls of the first `upto` statements of `list`.
pub open spec fn flattened_prefix(list: Seq<StatementView>, upto: int) -> Seq<StatementView>
    decreases list, upto,
{
    if 0 < upto <= list.len() {
        flattened_prefix(list, upto - 1) + flattened(list[upto - 1])
    } else {
        Seq::empty()
    }
}

/// Binder numbers only go up along a list of binders.
pub proof fn lemma_bound_binders(list: Seq<BinderView>, shorter: int, upto: int, id: int, bindings: Bindings)
    requires
        0 <= shorter <= upto <= list.len(),
    ensures
        id <= bound_binders(list, shorter, id, bindings).next <= bound_binders(list, upto, id, bindings).next,
        bound_binders(list, upto, id, bindings).tree.len() == upto,
    decreases upto,
{
    if 0 < upto {
        if shorter < upto {
            lemma_bound_binders(list, shorter, upto - 1, id, bindings);
        } else {
            lemma_bound_binders(list, upto - 1, upto - 1, id, bindings);
        }
    }
}

/// Binder numbers only go up while an expression is bound.
pub proof fn lemma_bound_expression(e: ExpressionView, id: int, bindings: Bindings)
    ensures
        bound_expression(e, id, bindings).next >= id,
    decreases e, 0nat,
{
    match e {
        ExpressionView::Fructose(binders, body) => {
            lemma_bound_binders(binders, binders.len() as int, binders.len() as int, id, bindings);
            let head = bound_binders(binders, binders.len() as int, id, bindings);
            lemma_bound_prefix(body, body.len() as int, body.len() as int, head.next, head.bindings);
        },
        ExpressionView::Galactose(body) => lemma_bound_prefix(
            body,
            body.len() as int,
            body.len() as int,
            id,
            bindings,
        ),
        _ => {},
    }
}

/// Binder numbers only go up along a call.
pub proof fn lemma_bound_prefix(list: Seq<ExpressionView>, shorter: int, upto: int, id: int, bindings: Bindings)
    requires
        0 <= shorter <= upto <= list.len(),
    ensures
        id <= bound_prefix(list, shorter, id, bindings).next <= bound_prefix(list, upto, id, bindings).next,
        bound_prefix(list, upto, id, bindings).tree.len() == upto,
    decreases list, upto,
{
    if 0 < upto {
        if shorter < upto {
            lemma_bound_prefix(list, shorter, upto - 1, id, bindings);
        } else {
            lemma_bound_prefix(list, upto - 1, upto - 1, id, bindings);
        }
        let before = bound_prefix(list, upto - 1, id, bindings);
        lemma_bound_expression(list[upto - 1], before.next, before.bindings);
    }
}

/// Binder numbers only go up while a statement is bound.
pub proof fn lemma_bound_statement(s: StatementView, id: int, bindings: Bindings)
    ensures
        bound_statement(s, id, bindings).next >= id,
    decreases s, 0nat,
{
    match s {
        StatementView::Closure(binders, call) => {
            lemma_bound_binders(binders, binders.len() as int, binders.len() as int, id, bindings);
            let head = bound_binders(binders, binders.len() as int, id, bindings);
            lemma_bound_prefix(call, call.len() as int, call.len() as int, head.next, head.bindings);
        },
        StatementView::Call(call) => lemma_bound_prefix(call, call.len() as int, call.len() as int, id, bindings),
        StatementView::Block(l) => lemma_bound_statements(l, l.len() as int, l.len() as int, id, bindings),
    }
}

/// Binder numbers only go up along a block.
pub proof fn lemma_bound_statements(list: Seq<StatementView>, shorter: int, upto: int, id: int, bindings: Bindings)
    requires
        0 <= shorter <= upto <= list.len(),
    ensures
        id <= bound_statements(list, shorter, id, bindings).next <= bound_statements(
            list,
            upto,
            id,
            bindings,
        ).next,
        bound_statements(list, upto, id, bindings).tree.len() == upto,
    decreases list, upto,
{
    if 0 < upto {
        if shorter < upto {
            lemma_bound_statements(list, shorter, upto - 1, id, bindings);
        } else {
            lemma_bound_statements(list, upto - 1, upto - 1, id, bindings);
        }
        let before = bound_statements(list, upto - 1, id, bindings);
        lemma_bound_statement(list[upto - 1], before.next, before.bindings);
    }
}

/// The names and numbers that a list of bindings holds.
pub open spec fn bindings_view(list: Seq<(String, usize)>) -> Bindings {
    Seq::new(list.len(), |i: int| (list[i].0@, list[i].1))
}

/// The number that `name` is bound to, if any.
fn find(bindings: &Vec<(String, usize)>, name: &String) -> (r: Option<usize>)
    ensures
        r == lookup(bindings_view(bindings@), name@),
{
    let ghost all = bindings_view(bindings@);
    let mut i: usize = bindings.len();
    assert(all.take(i as int) =~= all);
    while i > 0
        invariant
            i <= bindings.len(),
            all == bindings_view(bindings@),
            lookup(all, name@) == lookup(all.take(i as int), name@),
        decreases i,
    {
        assert(all.take(i as int).last() == all[i - 1]);
        assert(all.take(i as int).drop_last() =~= all.take(i - 1));
        if bindings[i - 1].0 == *name {
            return Some(bindings[i - 1].1);
        }
        i -= 1;
    }
    None
}

/// Numbers the binders of a list and enters them into the bindings.
fn bind_binders(list: &mut Vec<Binder>, id: &mut usize, bindings: &mut Vec<(String, usize)>)
    requires
        bound_binders(
            binders_view(old(list)@),
            old(list)@.len() as int,
            *old(id) as int,
            bindings_view(old(bindings)@),
        ).next <= usize::MAX,
    ensures
        binders_view(final(list)@) == bound_binders(
            binders_view(old(list)@),
            old(list)@.len() as int,
            *old(id) as int,
            bindings_view(old(bindings)@),
        ).tree,
        *final(id) == bound_binders(
            binders_view(old(list)@),
            old(list)@.len() as int,
            *old(id) as int,
            bindings_view(old(bindings)@),
        ).next,
        bindings_view(final(bindings)@) == bound_binders(
            binders_view(old(list)@),
            old(list)@.len() as int,
            *old(id) as int,
            bindings_view(old(bindings)@),
        ).bindings,
{
    let ghost before = binders_view(list@);
    let ghost start = *id as int;
    let ghost names = bindings_view(bindings@);
    let n = list.len();
    let mut i: usize = 0;
    assert(binders_view(list@).subrange(0, 0) =~= bound_binders(before, 0, start, names).tree);
    while i < n
        invariant
            i <= n,
            n == list@.len(),
            n == before.len(),
            bound_binders(before, n as int, start, names).next <= usize::MAX,
            binders_view(list@).subrange(0, i as int) == bound_binders(before, i as int, start, names).tree,
            forall|k: int| i <= k < n ==> list@[k]@ == before[k],
            *id == bound_binders(before, i as int, start, names).next,
            bindings_view(bindings@) == bound_binders(before, i as int, start, names).bindings,
        decreases n - i,
    {
        let ghost prev = list@;
        let ghost done = binders_view(list@).subrange(0, i as int);
        let ghost entered = bindings_view(bindings@);
        proof {
            lemma_bound_binders(before, i + 1, n as int, start, names);
        }
        list[i].0 = Some(*id);
        let name = list[i].1.clone();
        bindings.push((name, *id));
        proof {
            assert(list@.len() == prev.len());
            assert(forall|k: int| 0 <= k < n && k != i ==> list@[k] == prev[k]);
            assert(binders_view(list@).subrange(0, i + 1) =~= done.push(
                BinderView { number: Some(*id), name: before[i as int].name },
            ));
            assert(bindings_view(bindings@) =~= entered.push((before[i as int].name, *id)));
        }
        *id += 1;
        i += 1;
    }
    assert(binders_view(list@).subrange(0, n as int) =~= binders_view(list@));
}

/// Numbers the binders of an expression and binds its references.
fn bind_expression(e: &mut Expression, id: &mut usize, bindings: &mut Vec<(String, usize)>)
    requires
        bound_expression(old(e)@, *old(id) as int, bindings_view(old(bindings)@)).next <= usize::MAX,
    ensures
        final(e)@ == bound_expression(old(e)@, *old(id) as int, bindings_view(old(bindings)@)).tree,
        *final(id) == bound_expression(old(e)@, *old(id) as int, bindings_view(old(bindings)@)).next,
        bindings_view(final(bindings)@) == bound_expression(
            old(e)@,
            *old(id) as int,
            bindings_view(old(bindings)@),
        ).bindings,
    decreases old(e)@,
{
    let ghost start = *id as int;
    let ghost names = bindings_view(bindings@);
    match e {
        Expression::Reference(number, name) => {
            *number = find(bindings, name);
        },
        Expression::Fructose(binders, body) => {
            proof {
                let b = binders_view(binders@);
                let c = expressions_view(body@);
                lemma_bound_binders(b, b.len() as int, b.len() as int, start, names);
                let head = bound_binders(b, b.len() as int, start, names);
                lemma_bound_prefix(c, c.len() as int, c.len() as int, head.next, head.bindings);
            }
            bind_binders(binders, id, bindings);
            bind_list(body, id, bindings);
        },
        Expression::Galactose(body) => {
            bind_list(body, id, bindings);
        },
        _ => {},
    }
}

/// Numbers the binders and binds the references of a call, first to last.
fn bind_list(list: &mut Vec<Expression>, id: &mut usize, bindings: &mut Vec<(String, usize)>)
    requires
        bound_prefix(
            expressions_view(old(list)@),
            old(list)@.len() as int,
            *old(id) as int,
            bindings_view(old(bindings)@),
        ).next <= usize::MAX,
    ensures
        expressions_view(final(list)@) == bound_prefix(
            expressions_view(old(list)@),
            old(list)@.len() as int,
            *old(id) as int,
            bindings_view(old(bindings)@),
        ).tree,
        *final(id) == bound_prefix(
            expressions_view(old(list)@),
            old(list)@.len() as int,
            *old(id) as int,
            bindings_view(old(bindings)@),
        ).next,
        bindings_view(final(bindings)@) == bound_prefix(
            expressions_view(old(list)@),
            old(list)@.len() as int,
            *old(id) as int,
            bindings_view(old(bindings)@),
        ).bindings,
    decreases expressions_view(old(list)@),
{
    let ghost before = expressions_view(list@);
    let ghost start = *id as int;
    let ghost names = bindings_view(bindings@);
    let n = list.len();
    let mut i: usize = 0;
    assert(expressions_view(list@).subrange(0, 0) =~= bound_prefix(before, 0, start, names).tree);
    while i < n
        invariant
            i <= n,
            n == list@.len(),
            n == before.len(),
            before == expressions_view(old(list)@),
            bound_prefix(before, n as int, start, names).next <= usize::MAX,
            expressions_view(list@).subrange(0, i as int) == bound_prefix(before, i as int, start, names).tree,
            forall|k: int| i <= k < n ==> list@[k]@ == before[k],
            *id == bound_prefix(before, i as int, start, names).next,
            bindings_view(bindings@) == bound_prefix(before, i as int, start, names).bindings,
        decreases n - i,
    {
        let ghost prev = list@;
        let ghost done = expressions_view(list@).subrange(0, i as int);
        proof {
            lemma_bound_prefix(before, i + 1, n as int, start, names);
        }
        bind_expression(&mut list[i], id, bindings);
        proof {
            let so_far = bound_prefix(before, i as int, start, names);
            let step = bound_expression(before[i as int], so_far.next, so_far.bindings);
            assert(list@.len() == prev.len());
            assert(forall|k: int| 0 <= k < n && k != i ==> list@[k] == prev[k]);
            assert(expressions_view(list@).subrange(0, i + 1) =~= done.push(step.tree));
        }
        i += 1;
    }
    assert(expressions_view(list@).subrange(0, n as int) =~= expressions_view(list@));
}

/// Numbers the binders of a statement and binds its references.
fn bind_statement(s: &mut Statement, id: &mut usize, bindings: &mut Vec<(String, usize)>)
    requires
        bound_statement(old(s)@, *old(id) as int, bindings_view(old(bindings)@)).next <= usize::MAX,
    ensures
        final(s)@ == bound_statement(old(s)@, *old(id) as int, bindings_view(old(bindings)@)).tree,
        *final(id) == bound_statement(old(s)@, *old(id) as int, bindings_view(old(bindings)@)).next,
        bindings_view(final(bindings)@) == bound_statement(
            old(s)@,
            *old(id) as int,
            bindings_view(old(bindings)@),
        ).bindings,
    decreases old(s)@,
{
    let ghost start = *id as int;
    let ghost names = bindings_view(bindings@);
    match s {
        Statement::Closure(binders, call) => {
            proof {
                let b = binders_view(binders@);
                let c = expressions_view(call@);
                lemma_bound_binders(b, b.len() as int, b.len() as int, start, names);
                let head = bound_binders(b, b.len() as int, start, names);
                lemma_bound_prefix(c, c.len() as int, c.len() as int, head.next, head.bindings);
            }
            bind_binders(binders, id, bindings);
            bind_list(call, id, bindings);
        },
        Statement::Call(call) => bind_list(call, id, bindings),
        Statement::Block(statements) => bind_statements(statements, id, bindings),
    }
}

/// Numbers the binders and binds the references of a block, first to last.
fn bind_statements(list: &mut Vec<Statement>, id: &mut usize, bindings: &mut Vec<(String, usize)>)
    requires
        bound_statements(
            statements_view(old(list)@),
            old(list)@.len() as int,
            *old(id) as int,
            bindings_view(old(bindings)@),
        ).next <= usize::MAX,
    ensures
        statements_view(final(list)@) == bound_statements(
            statements_view(old(list)@),
            old(list)@.len() as int,
            *old(id) as int,
            bindings_view(old(bindings)@),
        ).tree,
        *final(id) == bound_statements(
            statements_view(old(list)@),
            old(list)@.len() as int,
            *old(id) as int,
            bindings_view(old(bindings)@),
        ).next,
        bindings_view(final(bindings)@) == bound_statements(
            statements_view(old(list)@),
            old(list)@.len() as int,
            *old(id) as int,
            bindings_view(old(bindings)@),
        ).bindings,
    decreases statements_view(old(list)@),
{
    let ghost before = statements_view(list@);
    let ghost start = *id as int;
    let ghost names = bindings_view(bindings@);
    let n = list.len();
    let mut i: usize = 0;
    assert(statements_view(list@).subrange(0, 0) =~= bound_statements(before, 0, start, names).tree);
    while i < n
        invariant
            i <= n,
            n == list@.len(),
            n == before.len(),
            before == statements_view(old(list)@),
            bound_statements(before, n as int, start, names).next <= usize::MAX,
            statements_view(list@).subrange(0, i as int) == bound_statements(
                before,
                i as int,
                start,
                names,
            ).tree,
            forall|k: int| i <= k < n ==> list@[k]@ == before[k],
            *id == bound_statements(before, i as int, start, names).next,
            bindings_view(bindings@) == bound_statements(before, i as int, start, names).bindings,
        decreases n - i,
    {
        let ghost prev = list@;
        let ghost done = statements_view(list@).subrange(0, i as int);
        proof {
            lemma_bound_statements(before, i + 1, n as int, start, names);
        }
        bind_statement(&mut list[i], id, bindings);
        proof {
            let so_far = bound_statements(before, i as int, start, names);
            let step = bound_statement(before[i as int], so_far.next, so_far.bindings);
            assert(list@.len() == prev.len());
            assert(forall|k: int| 0 <= k < n && k != i ==> list@[k] == prev[k]);
            assert(statements_view(list@).subrange(0, i + 1) =~= done.push(step.tree));
        }
        i += 1;
    }
    assert(statements_view(list@).subrange(0, n as int) =~= statements_view(list@));
}

/// Adds the closures and calls of `s` to `out`, in reading order.
fn flatten_into(s: &Statement, out: &mut Vec<Statement>)
    ensures
        statements_view(final(out)@) == statements_view(old(out)@) + flattened(s@),
    decreases *s,
{
    let ghost start = statements_view(out@);
    match s {
        Statement::Block(statements) => {
            assert(s@ == StatementView::Block(statements_view(statements@)));
            flatten_list(statements, out)
        },
        _ => {
            let copy = copy_statement(s);
            out.push(copy);
            assert(statements_view(out@) =~= start + seq![s@]);
        },
    }
}

/// Adds the closures and calls of the statements of `list` to `out`.
fn flatten_list(list: &Vec<Statement>, out: &mut Vec<Statement>)
    ensures
        statements_view(final(out)@) == statements_view(old(out)@) + flattened_prefix(
            statements_view(list@),
            list@.len() as int,
        ),
    decreases *list,
{
    let ghost start = statements_view(out@);
    let ghost views = statements_view(list@);
    let mut i: usize = 0;
    assert(start + flattened_prefix(views, 0) =~= start);
    while i < list.len()
        invariant
            i <= list.len(),
            views == statements_view(list@),
            statements_view(out@) == start + flattened_prefix(views, i as int),
        decreases list.len() - i,
    {
        let ghost so_far = statements_view(out@);
        assert(views[i as int] == list@[i as int]@);
        flatten_into(&list[i], out);
        assert(start + flattened_prefix(views, i + 1) =~= so_far + flattened(views[i as int]));
        i += 1;
    }
}

/// What `bind` makes of a tree: its closures and calls in one block, with
/// the binders numbered from zero and each reference bound to the binder of
/// its name that was met last. With it comes the number of binders.
pub open spec fn bound(block: StatementView) -> (StatementView, int) {
    let b = bound_statement(block, 0, Seq::empty());
    (StatementView::Block(flattened(b.tree)), b.next)
}

/// Numbers the binders from zero, binds each reference to the binder of its
/// name that comes last before it, and takes the blocks away. Returns the
/// number of binders.
pub fn bind(block: &mut Statement) -> (count: usize)
    requires
        bound(old(block)@).1 <= usize::MAX,
    ensures
        final(block)@ == bound(old(block)@).0,
        count == bound(old(block)@).1,
{
    let mut count: usize = 0;
    let mut bindings: Vec<(String, usize)> = Vec::new();
    assert(bindings_view(bindings@) =~= Seq::empty());
    bind_statement(block, &mut count, &mut bindings);
    let mut flat: Vec<Statement> = Vec::new();
    assert(statements_view(flat@) =~= Seq::<StatementView>::empty());
    flatten_into(block, &mut flat);
    assert(statements_view(flat@) =~= flattened(block@));
    *block = Statement::Block(flat);
    count
}

/// What `desugar` makes of a tree; `None` where a call finds no closure
/// before it or no empty call to fill.
pub open spec fn desugared(block: StatementView) -> Option<(StatementView, int)> {
    let flat = bound(block);
    match glucased(flat.0->Block_0) {
        Some(digested) => {
            let turned = turned_statement(StatementView::Block(digested), flat.1);
            let lifted = fructased(turned.0->Block_0, turned.1);
            Some((StatementView::Block(lifted.0), lifted.1))
        },
        None => None,
    }
}

/// Takes the sugar out of a parsed program: binds the names, completes the
/// closures with the calls that follow them, turns the calls in parentheses
/// inside out and makes closures of the inline declarations.
pub fn desugar(block: &mut Statement)
    requires
        desugared(old(block)@) matches Some(done) && done.1 <= usize::MAX,
    ensures
        Some(final(block)@) == match desugared(old(block)@) {
            Some(done) => Some(done.0),
            None => None,
        },
{
    proof {
        let flat = bound(block@);
        let b = bound_statement(block@, 0, Seq::empty());
        lemma_bound_statement(block@, 0, Seq::empty());
        let digested = glucased(flat.0->Block_0).unwrap();
        let turned = turned_statement(StatementView::Block(digested), flat.1);
        lemma_turned_statement(StatementView::Block(digested), flat.1);
        let l = turned.0->Block_0;
        lemma_lifted_statements(l, l.len() as int, l.len() as int, turned.1);
    }
    let mut binder_count = bind(block);
    glucase_wrap(block);
    galactase(block, &mut binder_count);
    fructase(block, &mut binder_count);
}

} // verus!
