use vstd::prelude::*;
use vstd::string::StringExecFns;
use crate::mir::{declarations_view, DeclarationView, Expression};
use crate::module::{texts, Module, ModuleView};

verus! {

/// What a call of a running program can hold.
#[derive(PartialEq, Eq, Debug)]
pub enum Value {
    /// An imported procedure, by its name.
    Builtin(String),
    /// A declaration, by its place among the declarations, with the values
    /// of the symbols that it captures.
    Closure(usize, Vec<Value>),
    /// A string.
    String(String),
    /// A number.
    Number(u64),
}

/// Mathematical content of a [`Value`].
pub enum ValueView {
    Builtin(Seq<char>),
    Closure(usize, Seq<ValueView>),
    String(Seq<char>),
    Number(u64),
}

/// The view of a value.
pub open spec fn value_view(v: Value) -> ValueView
    decreases v,
{
    match v {
        Value::Builtin(name) => ValueView::Builtin(name@),
        Value::Closure(at, captured) => ValueView::Closure(at, values_view(captured@)),
        Value::String(text) => ValueView::String(text@),
        Value::Number(n) => ValueView::Number(n),
    }
}

/// The views of a list of values.
pub open spec fn values_view(list: Seq<Value>) -> Seq<ValueView>
    decreases list,
{
    Seq::new(
        list.len(),
        |i: int|
            if 0 <= i < list.len() {
                value_view(list[i])
            } else {
                ValueView::Number(0)
            },
    )
}

impl View for Value {
    type V = ValueView;

    open spec fn view(&self) -> ValueView {
        value_view(*self)
    }
}

/// A copy of a value.
pub fn copy_value(v: &Value) -> (r: Value)
    ensures
        r@ == v@,
    decreases *v,
{
    match v {
        Value::Builtin(name) => Value::Builtin(name.clone()),
        Value::Closure(at, captured) => Value::Closure(*at, copy_values(captured)),
        Value::String(text) => Value::String(text.clone()),
        Value::Number(n) => Value::Number(*n),
    }
}

/// A copy of a list of values.
pub fn copy_values(list: &Vec<Value>) -> (r: Vec<Value>)
    ensures
        values_view(r@) == values_view(list@),
    decreases *list,
{
    let mut out: Vec<Value> = Vec::new();
    let mut i: usize = 0;
    while i < list.len()
        invariant
            i <= list.len(),
            out@.len() == i,
            forall|j: int| 0 <= j < i ==> out@[j]@ == list@[j]@,
        decreases list.len() - i,
    {
        out.push(copy_value(&list[i]));
        i += 1;
    }
    assert(values_view(out@) =~= values_view(list@));
    out
}

impl Clone for Value {
    fn clone(&self) -> (r: Value)
        ensures
            r@ == self@,
    {
        copy_value(self)
    }
}

/// Why a program cannot go on.
#[derive(Clone, Copy, PartialEq, Eq, Structural, Debug)]
pub enum Fault {
    /// The procedure called is imported under a name that is not built in.
    UnknownBuiltin,
    /// A built-in procedure is called with the wrong number of arguments.
    BadArity,
    /// What is called is a string or a number.
    NotCallable,
    /// The call of a declaration names a symbol that has no value, a
    /// constant that does not exist, or the declaration itself does not exist.
    Unresolved,
    /// A difference below zero, a sum or product too large, or a division by zero.
    Arithmetic,
}

/// What a step of a program comes to.
#[derive(PartialEq, Eq, Debug)]
pub enum Step {
    /// There is nothing to call, or a built-in procedure was handed
    /// something other than it works on: the program has come to rest.
    Stop,
    /// The call was made and a new call stands in its place.
    Continue,
    /// The call was made, and asks for this text to be printed.
    Print(String),
    /// The call was made, and ends the program with this code.
    Exit(u64),
    /// The call cannot be made.
    Fault(Fault),
}

/// Mathematical content of a [`Step`].
pub enum StepView {
    Stop,
    Continue,
    Print(Seq<char>),
    Exit(u64),
    Fault(Fault),
}

impl View for Step {
    type V = StepView;

    open spec fn view(&self) -> StepView {
        match self {
            Step::Stop => StepView::Stop,
            Step::Continue => StepView::Continue,
            Step::Print(text) => StepView::Print(text@),
            Step::Exit(code) => StepView::Exit(*code),
            Step::Fault(fault) => StepView::Fault(*fault),
        }
    }
}

/// The value paired with the first of the first `upto` symbols that is
/// `symbol`, where symbols and values are paired in order.
pub open spec fn paired(symbols: Seq<usize>, values: Seq<ValueView>, symbol: usize, upto: int) -> Option<ValueView>
    decreases upto,
{
    if upto <= 0 || upto > symbols.len() || upto > values.len() {
        None
    } else {
        match paired(symbols, values, symbol, upto - 1) {
            Some(v) => Some(v),
            None => if symbols[upto - 1] == symbol {
                Some(values[upto - 1])
            } else {
                None
            },
        }
    }
}

/// The lesser of two lengths.
pub open spec fn shorter(a: nat, b: nat) -> int {
    if a <= b {
        a as int
    } else {
        b as int
    }
}

/// The value that `symbol` has at hand in the closure that is being
/// called: that of the parameter of this name, else what was captured
/// under this name.
pub open spec fn at_hand(m: ModuleView, call: Seq<ValueView>, symbol: usize) -> Option<ValueView> {
    if call.len() > 0 {
        match call[0] {
            ValueView::Closure(at, captured) => {
                if at < m.declarations.len() {
                    let decl = m.declarations[at as int];
                    match paired(decl.procedure, call, symbol, shorter(decl.procedure.len(), call.len())) {
                        Some(v) => Some(v),
                        None => paired(decl.closure, captured, symbol, shorter(decl.closure.len(), captured.len())),
                    }
                } else {
                    None
                }
            },
            _ => None,
        }
    } else {
        None
    }
}

/// The values of the first `upto` of the `symbols`, each resolved with the
/// given depth; `None` where one of them has none.
pub open spec fn captured_values(
    m: ModuleView,
    call: Seq<ValueView>,
    symbols: Seq<usize>,
    upto: int,
    depth: nat,
) -> Option<Seq<ValueView>>
    decreases depth, upto + 1,
{
    if upto <= 0 {
        Some(Seq::empty())
    } else {
        match (
            captured_values(m, call, symbols, upto - 1, depth),
            resolved_within(m, call, symbols[upto - 1], depth),
        ) {
            (Some(values), Some(v)) => Some(values.push(v)),
            _ => None,
        }
    }
}

/// The value of `symbol` in the closure that is being called: what is at
/// hand under this name, else, where the symbol names a declaration, the
/// closure of this declaration over the values of what it captures, which
/// are resolved in the same way. Closures are made inside closures at most
/// `depth` deep.
pub open spec fn resolved_within(m: ModuleView, call: Seq<ValueView>, symbol: usize, depth: nat) -> Option<
    ValueView,
>
    decreases depth, 0int,
{
    if call.len() > 0 && call[0] is Closure && call[0]->Closure_0 < m.declarations.len() {
        match at_hand(m, call, symbol) {
            Some(v) => Some(v),
            None => match m.find(symbol) {
                Some(at) => {
                    if depth == 0 {
                        None
                    } else {
                        let wanted = m.declarations[at].closure;
                        match captured_values(m, call, wanted, wanted.len() as int, (depth - 1) as nat) {
                            Some(values) => Some(ValueView::Closure(at as usize, values)),
                            None => None,
                        }
                    }
                },
                None => None,
            },
        }
    } else {
        None
    }
}

/// The value of `symbol` in the closure that is being called. No chain of
/// declarations that capture each other is longer than there are
/// declarations, unless it runs in a circle.
pub open spec fn resolved(m: ModuleView, call: Seq<ValueView>, symbol: usize) -> Option<ValueView> {
    resolved_within(m, call, symbol, m.declarations.len())
}

/// The value that the argument `e` of a tail call stands for.
pub open spec fn argument(m: ModuleView, call: Seq<ValueView>, e: Expression) -> Option<ValueView> {
    match e {
        Expression::Symbol(s) => resolved(m, call, s),
        Expression::Import(i) => if i < m.imports.len() {
            Some(ValueView::Builtin(m.imports[i as int]))
        } else {
            None
        },
        Expression::Literal(i) => if i < m.strings.len() {
            Some(ValueView::String(m.strings[i as int]))
        } else {
            None
        },
        Expression::Number(i) => if i < m.numbers.len() {
            Some(ValueView::Number(m.numbers[i as int]))
        } else {
            None
        },
    }
}

/// The values of the first `upto` arguments of a tail call.
pub open spec fn arguments(m: ModuleView, call: Seq<ValueView>, tail: Seq<Expression>, upto: int) -> Option<
    Seq<ValueView>,
>
    decreases upto,
{
    if upto <= 0 {
        Some(Seq::empty())
    } else {
        match (arguments(m, call, tail, upto - 1), argument(m, call, tail[upto - 1])) {
            (Some(values), Some(v)) => Some(values.push(v)),
            _ => None,
        }
    }
}

/// What the built-in procedure `name` makes of `call`, whose first value
/// is the procedure itself: the call that comes next, and what the step
/// comes to.
pub open spec fn built_in(name: Seq<char>, call: Seq<ValueView>) -> (Seq<ValueView>, StepView) {
    if name == "print"@ {
        if call.len() != 3 {
            (call, StepView::Fault(Fault::BadArity))
        } else {
            match call[1] {
                ValueView::String(text) => (seq![call[2]], StepView::Print(text)),
                _ => (call, StepView::Stop),
            }
        }
    } else if name == "exit"@ {
        if call.len() != 2 {
            (call, StepView::Fault(Fault::BadArity))
        } else {
            match call[1] {
                ValueView::Number(code) => (Seq::empty(), StepView::Exit(code)),
                _ => (call, StepView::Stop),
            }
        }
    } else if name == "isZero"@ {
        if call.len() != 4 {
            (call, StepView::Fault(Fault::BadArity))
        } else {
            match call[1] {
                ValueView::Number(n) => (
                    seq![if n == 0 {
                        call[2]
                    } else {
                        call[3]
                    }],
                    StepView::Continue,
                ),
                _ => (call, StepView::Stop),
            }
        }
    } else if name == "sub"@ || name == "add"@ || name == "divmod"@ || name == "mul"@ {
        if call.len() != 4 {
            (call, StepView::Fault(Fault::BadArity))
        } else {
            match (call[1], call[2]) {
                (ValueView::Number(a), ValueView::Number(b)) => {
                    if name == "sub"@ {
                        if a < b {
                            (call, StepView::Fault(Fault::Arithmetic))
                        } else {
                            (seq![call[3], ValueView::Number((a - b) as u64)], StepView::Continue)
                        }
                    } else if name == "add"@ {
                        if a + b > u64::MAX {
                            (call, StepView::Fault(Fault::Arithmetic))
                        } else {
                            (seq![call[3], ValueView::Number((a + b) as u64)], StepView::Continue)
                        }
                    } else if name == "divmod"@ {
                        if b == 0 {
                            (call, StepView::Fault(Fault::Arithmetic))
                        } else {
                            (
                                seq![call[3], ValueView::Number(a / b), ValueView::Number(a % b)],
                                StepView::Continue,
                            )
                        }
                    } else {
                        if a * b > u64::MAX {
                            (call, StepView::Fault(Fault::Arithmetic))
                        } else {
                            (seq![call[3], ValueView::Number((a * b) as u64)], StepView::Continue)
                        }
                    }
                },
                _ => (call, StepView::Stop),
            }
        }
    } else {
        (call, StepView::Fault(Fault::UnknownBuiltin))
    }
}

/// One step of a program: the call that comes next, and what the step
/// comes to. A built-in procedure does its work; a closure is replaced by
/// the tail call of its declaration, with each argument resolved.
pub open spec fn stepped(m: ModuleView, call: Seq<ValueView>) -> (Seq<ValueView>, StepView) {
    if call.len() == 0 {
        (call, StepView::Stop)
    } else {
        match call[0] {
            ValueView::Builtin(name) => built_in(name, call),
            ValueView::Closure(at, _) => {
                if at < m.declarations.len() {
                    let tail = m.declarations[at as int].call;
                    match arguments(m, call, tail, tail.len() as int) {
                        Some(next) => (next, StepView::Continue),
                        None => (call, StepView::Fault(Fault::Unresolved)),
                    }
                } else {
                    (call, StepView::Fault(Fault::Unresolved))
                }
            },
            _ => (call, StepView::Fault(Fault::NotCallable)),
        }
    }
}

/// A program that is being run: the module, and the call that is made next.
pub struct State<'module> {
    pub module: &'module Module,
    pub call: Vec<Value>,
}

/// Runs the declarations of a module.
pub struct Interpeter<'module> {
    pub module: &'module Module,
}

/// Whether `name` is the text `text`.
fn is_text(name: &String, text: &str) -> (r: bool)
    ensures
        r == (name@ == text@),
{
    let other = String::from_str(text);
    *name == other
}

/// The value paired with the first symbol that is `symbol`.
fn pair_of(symbols: &Vec<usize>, values: &Vec<Value>, symbol: usize) -> (r: Option<Value>)
    ensures
        match r {
            Some(v) => paired(
                symbols@,
                values_view(values@),
                symbol,
                shorter(symbols@.len(), values@.len()),
            ) == Some(v@),
            None => paired(symbols@, values_view(values@), symbol, shorter(symbols@.len(), values@.len()))
                is None,
        },
{
    let n = if symbols.len() <= values.len() {
        symbols.len()
    } else {
        values.len()
    };
    let ghost views = values_view(values@);
    let mut i: usize = 0;
    while i < n
        invariant
            i <= n,
            n == shorter(symbols@.len(), values@.len()),
            views == values_view(values@),
            paired(symbols@, views, symbol, i as int) is None,
        decreases n - i,
    {
        if symbols[i] == symbol {
            let found = copy_value(&values[i]);
            proof {
                assert(views[i as int] == values@[i as int]@);
                lemma_paired_stays(symbols@, views, symbol, i + 1, n as int);
            }
            return Some(found);
        }
        i += 1;
    }
    None
}

/// A value that was found stays the value when more pairs are looked at.
proof fn lemma_paired_stays(symbols: Seq<usize>, values: Seq<ValueView>, symbol: usize, found: int, upto: int)
    requires
        paired(symbols, values, symbol, found) is Some,
        found <= upto <= symbols.len(),
        upto <= values.len(),
    ensures
        paired(symbols, values, symbol, upto) == paired(symbols, values, symbol, found),
    decreases upto - found,
{
    if found < upto {
        lemma_paired_stays(symbols, values, symbol, found, upto - 1);
    }
}

/// Values that cannot be had for some symbols cannot be had for more.
proof fn lemma_captured_fails(
    m: ModuleView,
    call: Seq<ValueView>,
    symbols: Seq<usize>,
    failed: int,
    upto: int,
    depth: nat,
)
    requires
        captured_values(m, call, symbols, failed, depth) is None,
        failed <= upto,
    ensures
        captured_values(m, call, symbols, upto, depth) is None,
    decreases upto - failed,
{
    if failed < upto {
        lemma_captured_fails(m, call, symbols, failed, upto - 1, depth);
    }
}

/// Arguments that cannot be had for some expressions cannot be had for more.
proof fn lemma_arguments_fail(m: ModuleView, call: Seq<ValueView>, tail: Seq<Expression>, failed: int, upto: int)
    requires
        arguments(m, call, tail, failed) is None,
        failed <= upto,
    ensures
        arguments(m, call, tail, upto) is None,
    decreases upto - failed,
{
    if failed < upto {
        lemma_arguments_fail(m, call, tail, failed, upto - 1);
    }
}

impl<'module> State<'module> {
    /// The value that `symbol` has at hand in the closure that is being called.
    fn lookup(&self, symbol: usize) -> (r: Option<Value>)
        ensures
            match r {
                Some(v) => at_hand(self.module@, values_view(self.call@), symbol) == Some(v@),
                None => at_hand(self.module@, values_view(self.call@), symbol) is None,
            },
    {
        if self.call.len() == 0 {
            return None;
        }
        assert(values_view(self.call@)[0] == self.call@[0]@);
        match &self.call[0] {
            Value::Closure(at, captured) => {
                if *at >= self.module.declarations.len() {
                    return None;
                }
                let decl = &self.module.declarations[*at];
                assert(self.module@.declarations[*at as int] == decl@);
                match pair_of(&decl.procedure, &self.call, symbol) {
                    Some(v) => Some(v),
                    None => pair_of(&decl.closure, captured, symbol),
                }
            },
            _ => None,
        }
    }

    /// The value of `symbol` in the closure that is being called.
    pub fn resolve(&self, symbol: usize) -> (r: Option<Value>)
        ensures
            match r {
                Some(v) => resolved(self.module@, values_view(self.call@), symbol) == Some(v@),
                None => resolved(self.module@, values_view(self.call@), symbol) is None,
            },
    {
        self.resolve_within(symbol, self.module.declarations.len())
    }

    /// The value of `symbol`, with closures inside closures at most `depth` deep.
    fn resolve_within(&self, symbol: usize, depth: usize) -> (r: Option<Value>)
        ensures
            match r {
                Some(v) => resolved_within(self.module@, values_view(self.call@), symbol, depth as nat) == Some(
                    v@,
                ),
                None => resolved_within(self.module@, values_view(self.call@), symbol, depth as nat) is None,
            },
        decreases depth,
    {
        let ghost m = self.module@;
        let ghost call = values_view(self.call@);
        if self.call.len() == 0 {
            return None;
        }
        assert(call[0] == self.call@[0]@);
        match &self.call[0] {
            Value::Closure(at, _) => {
                if *at >= self.module.declarations.len() {
                    return None;
                }
            },
            _ => {
                return None;
            },
        }
        match self.lookup(symbol) {
            Some(v) => Some(v),
            None => {
                let mut found: Option<usize> = None;
                let mut d: usize = 0;
                while d < self.module.declarations.len() && found.is_none()
                    invariant
                        d <= self.module.declarations@.len(),
                        m == self.module@,
                        match found {
                            Some(at) => m.find(symbol) == Some(at as int) && at < m.declarations.len(),
                            None => crate::mir::find_upto(m.declarations, symbol, d as int) is None,
                        },
                    decreases self.module.declarations@.len() - d + (if found is None { 1int } else { 0int }),
                {
                    let decl = &self.module.declarations[d];
                    assert(m.declarations[d as int] == decl@);
                    if decl.procedure.len() > 0 && decl.procedure[0] == symbol {
                        proof {
                            crate::mir::lemma_find_stays(
                                m.declarations,
                                symbol,
                                d + 1,
                                m.declarations.len() as int,
                            );
                        }
                        found = Some(d);
                    } else {
                        d += 1;
                    }
                }
                match found {
                    Some(at) => {
                        if depth == 0 {
                            return None;
                        }
                        let decl = &self.module.declarations[at];
                        assert(m.declarations[at as int] == decl@);
                        let ghost wanted = decl@.closure;
                        let mut values: Vec<Value> = Vec::new();
                        let mut k: usize = 0;
                        assert(values_view(values@) =~= Seq::<ValueView>::empty());
                        while k < decl.closure.len()
                            invariant
                                k <= decl.closure.len(),
                                depth > 0,
                                wanted == decl.closure@,
                                wanted == m.declarations[at as int].closure,
                                m == self.module@,
                                call == values_view(self.call@),
                                call.len() > 0 && call[0] is Closure && call[0]->Closure_0 < m.declarations.len(),
                                at_hand(m, call, symbol) is None,
                                m.find(symbol) == Some(at as int),
                                captured_values(m, call, wanted, k as int, (depth - 1) as nat) == Some(
                                    values_view(values@),
                                ),
                            decreases decl.closure.len() - k,
                        {
                            let ghost before = values_view(values@);
                            match self.resolve_within(decl.closure[k], depth - 1) {
                                Some(v) => {
                                    values.push(v);
                                    assert(values_view(values@) =~= before.push(v@));
                                },
                                None => {
                                    proof {
                                        assert(captured_values(m, call, wanted, k + 1, (depth - 1) as nat) is None);
                                        lemma_captured_fails(
                                            m,
                                            call,
                                            wanted,
                                            k + 1,
                                            wanted.len() as int,
                                            (depth - 1) as nat,
                                        );
                                    }
                                    return None;
                                },
                            }
                            k += 1;
                        }
                        Some(Value::Closure(at, values))
                    },
                    None => None,
                }
            },
        }
    }

    /// The value that the argument `e` of a tail call stands for.
    fn argument(&self, e: Expression) -> (r: Option<Value>)
        ensures
            match r {
                Some(v) => argument(self.module@, values_view(self.call@), e) == Some(v@),
                None => argument(self.module@, values_view(self.call@), e) is None,
            },
    {
        match e {
            Expression::Symbol(s) => self.resolve(s),
            Expression::Import(i) => {
                if i < self.module.imports.len() {
                    assert(self.module@.imports[i as int] == self.module.imports@[i as int]@);
                    Some(Value::Builtin(self.module.imports[i].clone()))
                } else {
                    None
                }
            },
            Expression::Literal(i) => {
                if i < self.module.strings.len() {
                    assert(self.module@.strings[i as int] == self.module.strings@[i as int]@);
                    Some(Value::String(self.module.strings[i].clone()))
                } else {
                    None
                }
            },
            Expression::Number(i) => {
                if i < self.module.numbers.len() {
                    Some(Value::Number(self.module.numbers[i]))
                } else {
                    None
                }
            },
        }
    }

    /// Makes the call of a built-in procedure.
    fn call_builtin(&mut self, name: &String) -> (r: Step)
        requires
            old(self).call@.len() > 0,
        ensures
            final(self).module == old(self).module,
            (values_view(final(self).call@), r@) == built_in(name@, values_view(old(self).call@)),
    {
        let ghost call = values_view(self.call@);
        assert(forall|i: int| 0 <= i < self.call@.len() ==> call[i] == self.call@[i]@);
        let n = self.call.len();
        if is_text(name, "print") {
            if n != 3 {
                return Step::Fault(Fault::BadArity);
            }
            match &self.call[1] {
                Value::String(text) => {
                    let text = text.clone();
                    let next = copy_value(&self.call[2]);
                    self.call = vec![next];
                    assert(values_view(self.call@) =~= seq![call[2]]);
                    Step::Print(text)
                },
                _ => Step::Stop,
            }
        } else if is_text(name, "exit") {
            if n != 2 {
                return Step::Fault(Fault::BadArity);
            }
            match &self.call[1] {
                Value::Number(code) => {
                    let code = *code;
                    self.call = Vec::new();
                    assert(values_view(self.call@) =~= Seq::<ValueView>::empty());
                    Step::Exit(code)
                },
                _ => Step::Stop,
            }
        } else if is_text(name, "isZero") {
            if n != 4 {
                return Step::Fault(Fault::BadArity);
            }
            match &self.call[1] {
                Value::Number(n) => {
                    let next = if *n == 0 {
                        copy_value(&self.call[2])
                    } else {
                        copy_value(&self.call[3])
                    };
                    self.call = vec![next];
                    assert(values_view(self.call@) =~= seq![next@]);
                    Step::Continue
                },
                _ => Step::Stop,
            }
        } else {
            let sub = is_text(name, "sub");
            let add = is_text(name, "add");
            let divmod = is_text(name, "divmod");
            let mul = is_text(name, "mul");
            if !(sub || add || divmod || mul) {
                return Step::Fault(Fault::UnknownBuiltin);
            }
            if n != 4 {
                return Step::Fault(Fault::BadArity);
            }
            let a = match &self.call[1] {
                Value::Number(a) => *a,
                _ => {
                    return Step::Stop;
                },
            };
            let b = match &self.call[2] {
                Value::Number(b) => *b,
                _ => {
                    return Step::Stop;
                },
            };
            let next = copy_value(&self.call[3]);
            if sub {
                if a < b {
                    return Step::Fault(Fault::Arithmetic);
                }
                let difference = a - b;
                self.call = vec![next, Value::Number(difference)];
                assert(values_view(self.call@) =~= seq![call[3], ValueView::Number((a - b) as u64)]);
            } else if add {
                if a > u64::MAX - b {
                    return Step::Fault(Fault::Arithmetic);
                }
                let sum = a + b;
                self.call = vec![next, Value::Number(sum)];
                assert(values_view(self.call@) =~= seq![call[3], ValueView::Number((a + b) as u64)]);
            } else if divmod {
                if b == 0 {
                    return Step::Fault(Fault::Arithmetic);
                }
                let quotient = a / b;
                let remainder = a % b;
                self.call = vec![next, Value::Number(quotient), Value::Number(remainder)];
                assert(values_view(self.call@) =~= seq![
                    call[3],
                    ValueView::Number(a / b),
                    ValueView::Number(a % b),
                ]);
            } else {
                match a.checked_mul(b) {
                    Some(product) => {
                        self.call = vec![next, Value::Number(product)];
                        assert(values_view(self.call@) =~= seq![call[3], ValueView::Number((a * b) as u64)]);
                    },
                    None => {
                        return Step::Fault(Fault::Arithmetic);
                    },
                }
            }
            Step::Continue
        }
    }

    /// Makes the call that is next, and says what the step comes to.
    pub fn step(&mut self) -> (r: Step)
        ensures
            final(self).module == old(self).module,
            (values_view(final(self).call@), r@) == stepped(old(self).module@, values_view(old(self).call@)),
    {
        let ghost m = self.module@;
        let ghost call = values_view(self.call@);
        if self.call.len() == 0 {
            return Step::Stop;
        }
        assert(call[0] == self.call@[0]@);
        match &self.call[0] {
            Value::Builtin(name) => {
                let name = name.clone();
                self.call_builtin(&name)
            },
            Value::Closure(at, _) => {
                if *at >= self.module.declarations.len() {
                    return Step::Fault(Fault::Unresolved);
                }
                let decl = &self.module.declarations[*at];
                assert(m.declarations[*at as int] == decl@);
                let ghost tail = decl@.call;
                let mut next: Vec<Value> = Vec::new();
                let mut k: usize = 0;
                assert(values_view(next@) =~= Seq::<ValueView>::empty());
                while k < decl.call.len()
                    invariant
                        k <= decl.call.len(),
                        tail == decl.call@,
                        *self == *old(self),
                        m == self.module@,
                        call == values_view(self.call@),
                        call.len() > 0,
                        call[0] is Closure,
                        call[0]->Closure_0 < m.declarations.len(),
                        tail == m.declarations[call[0]->Closure_0 as int].call,
                        arguments(m, call, tail, k as int) == Some(values_view(next@)),
                    decreases decl.call.len() - k,
                {
                    let ghost before = values_view(next@);
                    match self.argument(decl.call[k]) {
                        Some(v) => {
                            next.push(v);
                            assert(values_view(next@) =~= before.push(v@));
                        },
                        None => {
                            proof {
                                assert(arguments(m, call, tail, k + 1) is None);
                                lemma_arguments_fail(m, call, tail, k + 1, tail.len() as int);
                            }
                            return Step::Fault(Fault::Unresolved);
                        },
                    }
                    k += 1;
                }
                self.call = next;
                Step::Continue
            },
            _ => Step::Fault(Fault::NotCallable),
        }
    }
}

/// The place of the first of the symbols that has the text `name`.
pub open spec fn named_symbol(m: ModuleView, name: Seq<char>) -> Option<int> {
    crate::module::place(m.symbols, name)
}

/// The call with which a program begins: the closure of the declaration
/// named `name`, which captures nothing, and the arguments. There is none
/// where no symbol has this text or the symbol names no declaration.
pub open spec fn begun(m: ModuleView, name: Seq<char>, arguments: Seq<ValueView>) -> Option<Seq<ValueView>> {
    match named_symbol(m, name) {
        Some(symbol) => {
            if symbol < m.names.len() && m.names[symbol] {
                match m.find(symbol as usize) {
                    Some(at) => Some(seq![ValueView::Closure(at as usize, Seq::empty())] + arguments),
                    None => None,
                }
            } else {
                None
            }
        },
        None => None,
    }
}

impl<'module> Interpeter<'module> {
    /// An interpreter for the declarations of `module`.
    pub fn new(module: &'module Module) -> (r: Interpeter<'module>)
        ensures
            r.module == module,
    {
        Interpeter { module }
    }

    /// The program that calls the declaration named `name` with the
    /// `arguments`; `None` where no symbol has this text or the symbol names
    /// no declaration.
    pub fn begin(&self, name: &str, arguments: &Vec<Value>) -> (r: Option<State<'module>>)
        ensures
            match r {
                Some(state) => state.module == self.module && begun(self.module@, name@, values_view(arguments@))
                    == Some(values_view(state.call@)),
                None => begun(self.module@, name@, values_view(arguments@)) is None,
            },
    {
        let ghost m = self.module@;
        let wanted = String::from_str(name);
        let mut found: Option<usize> = None;
        let mut i: usize = 0;
        while i < self.module.symbols.len() && found.is_none()
            invariant
                i <= self.module.symbols@.len(),
                m == self.module@,
                wanted@ == name@,
                match found {
                    Some(at) => named_symbol(m, name@) == Some(at as int),
                    None => crate::module::place_upto(m.symbols, name@, i as int) is None,
                },
            decreases self.module.symbols@.len() - i + (if found is None { 1int } else { 0int }),
        {
            assert(m.symbols[i as int] == self.module.symbols@[i as int]@);
            if self.module.symbols[i] == wanted {
                proof {
                    crate::module::lemma_place_stays(m.symbols, name@, i + 1, m.symbols.len() as int);
                }
                found = Some(i);
            } else {
                i += 1;
            }
        }
        let symbol = match found {
            Some(symbol) => symbol,
            None => {
                return None;
            },
        };
        if !self.module.is_name(symbol) {
            return None;
        }
        let mut at: Option<usize> = None;
        let mut d: usize = 0;
        while d < self.module.declarations.len() && at.is_none()
            invariant
                d <= self.module.declarations@.len(),
                m == self.module@,
                match at {
                    Some(place) => m.find(symbol) == Some(place as int),
                    None => crate::mir::find_upto(m.declarations, symbol, d as int) is None,
                },
            decreases self.module.declarations@.len() - d + (if at is None { 1int } else { 0int }),
        {
            let decl = &self.module.declarations[d];
            assert(m.declarations[d as int] == decl@);
            if decl.procedure.len() > 0 && decl.procedure[0] == symbol {
                proof {
                    crate::mir::lemma_find_stays(m.declarations, symbol, d + 1, m.declarations.len() as int);
                }
                at = Some(d);
            } else {
                d += 1;
            }
        }
        match at {
            Some(place) => {
                let mut call: Vec<Value> = Vec::new();
                let closure = Value::Closure(place, Vec::new());
                assert(closure@ == ValueView::Closure(place, Seq::empty())) by {
                    assert(values_view(Seq::<Value>::empty()) =~= Seq::<ValueView>::empty());
                }
                call.push(closure);
                let ghost head = values_view(call@);
                assert(head =~= seq![ValueView::Closure(place, Seq::empty())]);
                let mut k: usize = 0;
                assert(head + values_view(arguments@).take(0) =~= head);
                while k < arguments.len()
                    invariant
                        k <= arguments.len(),
                        values_view(call@) == head + values_view(arguments@).take(k as int),
                    decreases arguments.len() - k,
                {
                    let ghost before = values_view(call@);
                    let v = copy_value(&arguments[k]);
                    call.push(v);
                    assert(values_view(call@) =~= before.push(v@));
                    assert(values_view(arguments@)[k as int] == arguments@[k as int]@);
                    assert(head + values_view(arguments@).take(k + 1) =~= before.push(v@));
                    k += 1;
                }
                assert(values_view(arguments@).take(arguments@.len() as int) =~= values_view(arguments@));
                Some(State { module: self.module, call })
            },
            None => None,
        }
    }
}

} // verus!
