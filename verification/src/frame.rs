use vstd::prelude::*;
use crate::mir::{
    declarations_view, find_upto, lemma_find_stays, Declaration, DeclarationView, Expression,
};
use crate::planner::{on_course, planned, run, runs, PlanError};
use crate::satisfy::satisfies;
use crate::sink::Sink;
use crate::state::{Allocation, State, StateView};
use crate::transition::Transition;
use crate::value::Value;

verus! {

/// Where the code of each declaration and of each import begins.
#[derive(Clone, PartialEq, Eq, Hash, Debug)]
pub struct Layout {
    pub declarations: Vec<usize>,
    pub imports: Vec<usize>,
}

/// Where the constants lie: the closures of the declarations, the
/// trampolines of the imports and the strings.
#[derive(Clone, PartialEq, Eq, Hash, Debug)]
pub struct RomLayout {
    pub closures: Vec<usize>,
    pub imports: Vec<usize>,
    pub strings: Vec<usize>,
}

/// What a declaration is compiled against: all declarations, the pool of
/// numbers, and the two layouts.
pub struct Context<'a> {
    pub declarations: &'a Vec<Declaration>,
    pub numbers: &'a Vec<u64>,
    pub code: &'a Layout,
    pub rom: &'a RomLayout,
}

/// Mathematical content of a [`Context`].
pub struct ContextView {
    pub declarations: Seq<DeclarationView>,
    pub numbers: Seq<u64>,
    /// Where the code of each declaration lies.
    pub code: Seq<usize>,
    /// Where the code of each import lies.
    pub intrinsics: Seq<usize>,
    /// Where the closure of each declaration lies among the constants.
    pub closures: Seq<usize>,
    /// Where the trampoline of each import lies among the constants.
    pub imports: Seq<usize>,
    /// Where each string lies among the constants.
    pub strings: Seq<usize>,
}

impl<'a> View for Context<'a> {
    type V = ContextView;

    open spec fn view(&self) -> ContextView {
        ContextView {
            declarations: declarations_view(self.declarations@),
            numbers: self.numbers@,
            code: self.code.declarations@,
            intrinsics: self.code.imports@,
            closures: self.rom.closures@,
            imports: self.rom.imports@,
            strings: self.rom.strings@,
        }
    }
}

/// The slots of the closure of the declaration at `at`: the address of its
/// code, then the symbols that it captures.
pub open spec fn closure_slots(ctx: ContextView, at: int) -> Seq<Value> {
    seq![Value::Literal(ctx.code[at] as u64)] + Seq::new(
        ctx.declarations[at].closure.len(),
        |k: int| Value::Symbol(ctx.declarations[at].closure[k]),
    )
}

impl ContextView {
    /// The place of the declaration named `symbol`.
    pub open spec fn find(self, symbol: usize) -> Option<int> {
        find_upto(self.declarations, symbol, self.declarations.len() as int)
    }

    /// A closure can be made for `symbol`: it names a declaration whose code
    /// has an address.
    pub open spec fn has_closure(self, symbol: usize) -> bool {
        self.find(symbol) matches Some(at) && at < self.code.len()
    }
}

/// The state on entry to `decl`: its name and parameters in the registers,
/// and, if it captures anything, its closure as the one allocation, with
/// register 0 pointing to it.
pub open spec fn initial_view(ctx: ContextView, decl: DeclarationView) -> StateView {
    let symbols = Seq::new(
        16,
        |i: int|
            if i < decl.procedure.len() {
                Value::Symbol(decl.procedure[i])
            } else {
                Value::Unspecified
            },
    );
    if decl.closure.len() > 0 {
        StateView {
            registers: symbols.update(0, Value::Reference { index: 0, offset: 0 }),
            flags: Seq::new(7, |i: int| Value::Unspecified),
            allocations: seq![closure_slots(ctx, ctx.find(decl.procedure[0]).unwrap())],
        }
    } else {
        StateView {
            registers: symbols,
            flags: Seq::new(7, |i: int| Value::Unspecified),
            allocations: Seq::empty(),
        }
    }
}

/// Whether the argument `e` of a tail call can be turned into a goal, given
/// the symbols that are `available`.
pub open spec fn argument_ok(ctx: ContextView, available: Set<usize>, e: Expression) -> bool {
    match e {
        Expression::Literal(i) => i < ctx.strings.len(),
        Expression::Number(n) => n < ctx.numbers.len(),
        Expression::Import(i) => i < ctx.imports.len(),
        Expression::Symbol(s) => available.contains(s) || ctx.has_closure(s),
    }
}

/// The goal for the first `upto` arguments of a tail call: register `i`
/// holds argument `i`. Constants become literals, symbols that are at hand
/// stay symbols, and any other symbol names a declaration, whose closure is
/// to be made as a new allocation.
pub open spec fn goal_upto(ctx: ContextView, available: Set<usize>, call: Seq<Expression>, upto: int) -> StateView
    decreases upto,
{
    if upto <= 0 {
        StateView {
            registers: Seq::new(16, |i: int| Value::Unspecified),
            flags: Seq::new(7, |i: int| Value::Unspecified),
            allocations: Seq::empty(),
        }
    } else {
        let before = goal_upto(ctx, available, call, upto - 1);
        match call[upto - 1] {
            Expression::Literal(i) => StateView {
                registers: before.registers.update(upto - 1, Value::Literal(ctx.strings[i as int] as u64)),
                ..before
            },
            Expression::Number(n) => StateView {
                registers: before.registers.update(upto - 1, Value::Literal(ctx.numbers[n as int])),
                ..before
            },
            Expression::Import(i) => StateView {
                registers: before.registers.update(upto - 1, Value::Literal(ctx.imports[i as int] as u64)),
                ..before
            },
            Expression::Symbol(s) => {
                if available.contains(s) {
                    StateView { registers: before.registers.update(upto - 1, Value::Symbol(s)), ..before }
                } else {
                    StateView {
                        registers: before.registers.update(
                            upto - 1,
                            Value::Reference { index: before.allocations.len() as usize, offset: 0 },
                        ),
                        flags: before.flags,
                        allocations: before.allocations.push(closure_slots(ctx, ctx.find(s).unwrap())),
                    }
                }
            },
        }
    }
}

/// A declaration that can be compiled: name, parameters and arguments fit
/// the registers, and every constant and closure that it asks for exists.
pub open spec fn compilable(ctx: ContextView, decl: DeclarationView) -> bool {
    &&& decl.procedure.len() <= 16
    &&& decl.call.len() <= 16
    &&& decl.closure.len() > 0 ==> decl.procedure.len() > 0 && ctx.has_closure(decl.procedure[0])
    &&& forall|i: int|
        0 <= i < decl.call.len() ==> argument_ok(
            ctx,
            initial_view(ctx, decl).symbols(),
            #[trigger] decl.call[i],
        )
}

impl<'a> Context<'a> {
    /// The place of the declaration named `symbol`, if there is one.
    pub fn find_decl(&self, symbol: usize) -> (r: Option<usize>)
        ensures
            match r {
                Some(at) => self@.find(symbol) == Some(at as int) && at < self.declarations@.len(),
                None => self@.find(symbol) is None,
            },
    {
        let mut i: usize = 0;
        while i < self.declarations.len()
            invariant
                i <= self.declarations.len(),
                find_upto(self@.declarations, symbol, i as int) is None,
            decreases self.declarations.len() - i,
        {
            let decl = &self.declarations[i];
            assert(self@.declarations[i as int] == decl@);
            if decl.procedure.len() > 0 && decl.procedure[0] == symbol {
                proof {
                    lemma_find_stays(self@.declarations, symbol, i + 1, self.declarations.len() as int);
                }
                return Some(i);
            }
            i += 1;
        }
        None
    }

    /// The slots of the closure of the declaration named `symbol`.
    pub fn closure_val(&self, symbol: usize) -> (r: Vec<Value>)
        requires
            self@.has_closure(symbol),
        ensures
            r@ == closure_slots(self@, self@.find(symbol).unwrap()),
    {
        let at = match self.find_decl(symbol) {
            Some(at) => at,
            None => 0,
        };
        let decl = &self.declarations[at];
        assert(self@.declarations[at as int] == decl@);
        let mut slots: Vec<Value> = Vec::new();
        slots.push(Value::Literal(self.code.declarations[at] as u64));
        let ghost head = slots@;
        let mut k: usize = 0;
        while k < decl.closure.len()
            invariant
                k <= decl.closure.len(),
                slots@ == head + Seq::new(k as nat, |j: int| Value::Symbol(decl.closure@[j])),
            decreases decl.closure.len() - k,
        {
            slots.push(Value::Symbol(decl.closure[k]));
            assert(slots@ =~= head + Seq::new((k + 1) as nat, |j: int| Value::Symbol(decl.closure@[j])));
            k += 1;
        }
        assert(slots@ =~= closure_slots(self@, at as int));
        slots
    }

    /// The state on entry to `decl`.
    pub fn initial_state(&self, decl: &Declaration) -> (r: State)
        requires
            decl@.procedure.len() <= 16,
            decl@.closure.len() > 0 ==> decl@.procedure.len() > 0 && self@.has_closure(decl@.procedure[0]),
        ensures
            r@ == initial_view(self@, decl@),
    {
        let mut initial = State::default();
        let mut i: usize = 0;
        while i < decl.procedure.len()
            invariant
                i <= decl.procedure.len(),
                decl.procedure.len() <= 16,
                initial@.flags == Seq::new(7, |j: int| Value::Unspecified),
                initial@.allocations == Seq::<Seq<Value>>::empty(),
                initial@.registers == Seq::new(
                    16,
                    |j: int|
                        if j < i {
                            Value::Symbol(decl@.procedure[j])
                        } else {
                            Value::Unspecified
                        },
                ),
            decreases decl.procedure.len() - i,
        {
            initial.registers[i] = Value::Symbol(decl.procedure[i]);
            assert(initial@.registers =~= Seq::new(
                16,
                |j: int|
                    if j < i + 1 {
                        Value::Symbol(decl@.procedure[j])
                    } else {
                        Value::Unspecified
                    },
            ));
            assert(initial@.allocations =~= Seq::<Seq<Value>>::empty());
            i += 1;
        }
        let ghost symbols = initial@.registers;
        assert(symbols =~= Seq::new(
            16,
            |j: int|
                if j < decl@.procedure.len() {
                    Value::Symbol(decl@.procedure[j])
                } else {
                    Value::Unspecified
                },
        ));
        if decl.closure.len() > 0 {
            let slots = self.closure_val(decl.procedure[0]);
            initial.allocations.push(Allocation(slots));
            initial.registers[0] = Value::Reference { index: 0, offset: 0 };
            assert(initial@.registers =~= symbols.update(0, Value::Reference { index: 0, offset: 0 }));
            assert(initial@.allocations =~= seq![
                closure_slots(self@, self@.find(decl@.procedure[0]).unwrap()),
            ]);
        }
        initial
    }

    /// Whether a closure can be made for `symbol`.
    pub fn has_closure(&self, symbol: usize) -> (r: bool)
        ensures
            r == self@.has_closure(symbol),
    {
        match self.find_decl(symbol) {
            Some(at) => at < self.code.declarations.len(),
            None => false,
        }
    }

    /// Whether argument `e` of a tail call can be turned into a goal, given
    /// the symbols that are `available`.
    fn is_argument_ok(&self, available: &Vec<usize>, e: Expression) -> (r: bool)
        ensures
            r == argument_ok(self@, available@.to_set(), e),
    {
        match e {
            Expression::Literal(i) => i < self.rom.strings.len(),
            Expression::Number(n) => n < self.numbers.len(),
            Expression::Import(i) => i < self.rom.imports.len(),
            Expression::Symbol(s) => holds(available, s) || self.has_closure(s),
        }
    }

    /// Whether `decl` can be compiled against this context.
    pub fn is_compilable(&self, decl: &Declaration) -> (r: bool)
        ensures
            r == compilable(self@, decl@),
    {
        if decl.procedure.len() > 16 || decl.call.len() > 16 {
            return false;
        }
        if decl.closure.len() > 0 && (decl.procedure.len() == 0 || !self.has_closure(decl.procedure[0])) {
            return false;
        }
        let initial = self.initial_state(decl);
        let available = initial.symbols();
        let mut i: usize = 0;
        while i < decl.call.len()
            invariant
                i <= decl.call.len(),
                available@.to_set() == initial_view(self@, decl@).symbols(),
                forall|k: int|
                    0 <= k < i ==> argument_ok(self@, initial_view(self@, decl@).symbols(), #[trigger] decl@.call[k]),
            decreases decl.call.len() - i,
        {
            if !self.is_argument_ok(&available, decl.call[i]) {
                assert(!argument_ok(self@, initial_view(self@, decl@).symbols(), decl@.call[i as int]));
                return false;
            }
            i += 1;
        }
        true
    }

    /// The goal of the tail call of `decl`, given the symbols at hand on entry.
    pub fn goal_state(&self, decl: &Declaration, available: &Vec<usize>) -> (r: State)
        requires
            decl@.call.len() <= 16,
            forall|i: int|
                0 <= i < decl@.call.len() ==> argument_ok(self@, available@.to_set(), #[trigger] decl@.call[i]),
        ensures
            r@ == goal_upto(self@, available@.to_set(), decl@.call, decl@.call.len() as int),
    {
        let ghost ctx = self@;
        let ghost at_hand = available@.to_set();
        let mut goal = State::default();
        let mut i: usize = 0;
        assert(goal@.registers =~= goal_upto(ctx, at_hand, decl@.call, 0).registers);
        assert(goal@.flags =~= goal_upto(ctx, at_hand, decl@.call, 0).flags);
        assert(goal@.allocations =~= goal_upto(ctx, at_hand, decl@.call, 0).allocations);
        while i < decl.call.len()
            invariant
                i <= decl.call.len(),
                decl.call.len() <= 16,
                ctx == self@,
                at_hand == available@.to_set(),
                forall|k: int| 0 <= k < decl@.call.len() ==> argument_ok(ctx, at_hand, #[trigger] decl@.call[k]),
                goal@ == goal_upto(ctx, at_hand, decl@.call, i as int),
            decreases decl.call.len() - i,
        {
            let ghost before = goal@;
            assert(argument_ok(ctx, at_hand, decl@.call[i as int]));
            proof {
                goal.lemma_view_wf();
            }
            let value = match decl.call[i] {
                Expression::Literal(j) => Value::Literal(self.rom.strings[j] as u64),
                Expression::Number(n) => Value::Literal(self.numbers[n]),
                Expression::Import(j) => Value::Literal(self.rom.imports[j] as u64),
                Expression::Symbol(s) => {
                    if holds(available, s) {
                        Value::Symbol(s)
                    } else {
                        let index = goal.allocations.len();
                        let slots = self.closure_val(s);
                        goal.allocations.push(Allocation(slots));
                        assert(goal@.allocations =~= before.allocations.push(
                            closure_slots(ctx, ctx.find(s).unwrap()),
                        ));
                        Value::Reference { index, offset: 0 }
                    }
                },
            };
            goal.registers[i] = value;
            assert(goal@.registers =~= before.registers.update(i as int, value));
            assert(goal@.flags =~= before.flags);
            assert(goal@.allocations =~= goal_upto(ctx, at_hand, decl@.call, i + 1).allocations);
            i += 1;
        }
        goal
    }
}

/// Whether `list` holds `x`.
fn holds(list: &Vec<usize>, x: usize) -> (r: bool)
    ensures
        r == list@.to_set().contains(x),
{
    let mut i: usize = 0;
    while i < list.len()
        invariant
            i <= list.len(),
            forall|j: int| 0 <= j < i ==> list@[j] != x,
        decreases list.len() - i,
    {
        if list[i] == x {
            assert(list@.contains(x));
            return true;
        }
        i += 1;
    }
    assert(!list@.contains(x));
    false
}

/// The code of a tail call: the code of each transition of the plan in
/// turn, then the jump to the closure in register 0.
pub open spec fn plan_code(plan: Seq<Transition>) -> Seq<u8>
    decreases plan.len(),
{
    if plan.len() == 0 {
        seq![0xFFu8, 0x20u8]
    } else {
        plan.first().encoding() + plan_code(plan.drop_first())
    }
}

/// Upper bound on the number of bytes of the code of a plan.
pub open spec fn plan_room(plan: Seq<Transition>) -> nat {
    19 * plan.len() + 2
}

/// Each transition of `plan` from `from` on can be written as code.
pub open spec fn all_encodable(plan: Seq<Transition>) -> bool {
    forall|i: int| 0 <= i < plan.len() ==> (#[trigger] plan[i]).encodable()
}

/// Writes the code of a tail call: the transitions of `plan`, then the jump
/// to the closure that register 0 points to.
pub fn assemble_plan<A: Sink>(plan: &Vec<Transition>, sink: &mut A)
    requires
        all_encodable(plan@),
        old(sink).position() + plan_room(plan@) <= usize::MAX,
    ensures
        final(sink).took(old(sink), plan_code(plan@)),
{
    let ghost start = *sink;
    let mut i: usize = 0;
    let ghost mut done: Seq<u8> = Seq::empty();
    proof {
        sink.lemma_took_nothing();
        assert(plan@.subrange(0, plan@.len() as int) =~= plan@);
    }
    while i < plan.len()
        invariant
            i <= plan.len(),
            all_encodable(plan@),
            start.position() + plan_room(plan@) <= usize::MAX,
            sink.took(&start, done),
            done.len() <= 19 * i,
            done + plan_code(plan@.subrange(i as int, plan@.len() as int)) == plan_code(plan@),
        decreases plan.len() - i,
    {
        let ghost middle = *sink;
        let t = plan[i];
        proof {
            t.lemma_encoding_len();
            sink.lemma_took_position(&start, done);
            assert(plan@[i as int].encodable());
        }
        t.assemble(sink);
        proof {
            let rest = plan@.subrange(i as int, plan@.len() as int);
            sink.lemma_took_more(&middle, &start, done, t.encoding());
            assert(rest.first() == t);
            assert(rest.drop_first() =~= plan@.subrange(i + 1, plan@.len() as int));
            assert((done + t.encoding()) + plan_code(rest.drop_first()) =~= done + (t.encoding() + plan_code(
                rest.drop_first(),
            )));
            done = done + t.encoding();
        }
        i += 1;
    }
    let ghost middle = *sink;
    proof {
        sink.lemma_took_position(&start, done);
    }
    let jump: [u8; 2] = [0xFF, 0x20];
    sink.extend(jump.as_slice());
    proof {
        sink.lemma_took_more(&middle, &start, done, jump@);
        assert(jump@ =~= seq![0xFFu8, 0x20u8]);
        assert(plan@.subrange(plan@.len() as int, plan@.len() as int).len() == 0);
    }
}

/// The goal of the tail call of `decl`.
pub open spec fn goal_view(ctx: ContextView, decl: DeclarationView) -> StateView {
    goal_upto(ctx, initial_view(ctx, decl).symbols(), decl.call, decl.call.len() as int)
}

/// What holds of a goal while it is put together: registers that have no
/// argument yet are unspecified, references only stand in registers, and
/// each allocation has a register that points to it.
spec fn goal_shape(g: StateView, upto: int) -> bool {
    &&& g.registers.len() == 16
    &&& g.flags == Seq::new(7, |i: int| Value::Unspecified)
    &&& g.allocations.len() <= upto
    &&& forall|r: int| 0 <= r < 16 ==> g.in_range(#[trigger] g.registers[r])
    &&& forall|a: int, k: int|
        0 <= a < g.allocations.len() && 0 <= k < g.allocations[a].len() ==> !(
        #[trigger] g.allocations[a][k] is Reference)
    &&& forall|a: int| 0 <= a < g.allocations.len() ==> #[trigger] g.register_refers(a)
}

proof fn lemma_goal_shape(ctx: ContextView, available: Set<usize>, call: Seq<Expression>, upto: int)
    requires
        0 <= upto <= call.len(),
        call.len() <= 16,
    ensures
        goal_shape(goal_upto(ctx, available, call, upto), upto),
    decreases upto,
{
    let g = goal_upto(ctx, available, call, upto);
    if upto > 0 {
        lemma_goal_shape(ctx, available, call, upto - 1);
        let before = goal_upto(ctx, available, call, upto - 1);
        assert forall|r: int| 0 <= r < 16 implies g.in_range(#[trigger] g.registers[r]) by {
            if r != upto - 1 {
                assert(before.in_range(before.registers[r]));
            }
        }
        assert forall|a: int, k: int|
            0 <= a < g.allocations.len() && 0 <= k < g.allocations[a].len() implies !(
        #[trigger] g.allocations[a][k] is Reference) by {
            if a < before.allocations.len() {
                assert(g.allocations[a] == before.allocations[a]);
                assert(!(before.allocations[a][k] is Reference));
            }
        }
        assert forall|a: int| 0 <= a < g.allocations.len() implies #[trigger] g.register_refers(a) by {
            if a < before.allocations.len() {
                assert(before.register_refers(a));
                let r = choose|r: int|
                    0 <= r < before.registers.len() && crate::state::refers_to(
                        #[trigger] before.registers[r],
                        a,
                    );
                assert(before.in_range(before.registers[upto - 1]));
                assert(r != upto - 1) by {
                    lemma_goal_rest(ctx, available, call, upto - 1, upto - 1);
                }
                assert(crate::state::refers_to(g.registers[r], a));
            } else {
                assert(crate::state::refers_to(g.registers[upto - 1], a));
            }
        }
    } else {
        assert(g.registers.len() == 16);
    }
}

/// Registers that have no argument yet are unspecified.
proof fn lemma_goal_rest(ctx: ContextView, available: Set<usize>, call: Seq<Expression>, upto: int, r: int)
    requires
        0 <= upto <= r < 16,
    ensures
        goal_upto(ctx, available, call, upto).registers.len() == 16,
        goal_upto(ctx, available, call, upto).registers[r] == Value::Unspecified,
    decreases upto,
{
    if upto > 0 {
        lemma_goal_rest(ctx, available, call, upto - 1, r);
        lemma_goal_rest(ctx, available, call, upto - 1, upto - 1);
    }
}

/// The goal of a tail call with at most sixteen arguments is a valid state.
pub proof fn lemma_goal_valid(ctx: ContextView, available: Set<usize>, call: Seq<Expression>)
    requires
        call.len() <= 16,
    ensures
        goal_upto(ctx, available, call, call.len() as int).valid(),
{
    let g = goal_upto(ctx, available, call, call.len() as int);
    lemma_goal_shape(ctx, available, call, call.len() as int);
    assert forall|a: int, k: int|
        0 <= a < g.allocations.len() && 0 <= k < g.allocations[a].len() implies g.in_range(
        #[trigger] g.allocations[a][k],
    ) by {
        assert(!(g.allocations[a][k] is Reference));
    }
    assert forall|i: int| 0 <= i < g.allocations.len() implies #[trigger] g.referenced(i) by {
        assert(g.register_refers(i));
    }
    assert forall|f: int| 0 <= f < g.flags.len() implies crate::state::flag_content(#[trigger] g.flags[f]) by {}
}

/// The state on entry to a declaration is a valid state.
pub proof fn lemma_initial_valid(ctx: ContextView, decl: DeclarationView)
    requires
        decl.procedure.len() <= 16,
    ensures
        initial_view(ctx, decl).valid(),
{
    let s = initial_view(ctx, decl);
    assert forall|r: int| 0 <= r < s.registers.len() implies s.in_range(#[trigger] s.registers[r]) by {}
    assert forall|a: int, k: int|
        0 <= a < s.allocations.len() && 0 <= k < s.allocations[a].len() implies s.in_range(
        #[trigger] s.allocations[a][k],
    ) by {}
    assert forall|i: int| 0 <= i < s.allocations.len() implies #[trigger] s.referenced(i) by {
        assert(crate::state::refers_to(s.registers[0], 0));
        assert(s.register_refers(0));
    }
    assert forall|f: int| 0 <= f < s.flags.len() implies crate::state::flag_content(#[trigger] s.flags[f]) by {}
}

/// The transitions of a plan that runs can all be written as code.
pub proof fn lemma_runs_encodable(s: StateView, plan: Seq<Transition>)
    requires
        runs(s, plan),
    ensures
        all_encodable(plan),
    decreases plan.len(),
{
    if plan.len() > 0 {
        lemma_runs_encodable(s, plan.drop_last());
        assert forall|i: int| 0 <= i < plan.len() implies (#[trigger] plan[i]).encodable() by {
            if i < plan.len() - 1 {
                assert(plan.drop_last()[i] == plan[i]);
            }
        }
    }
}

impl<'a> Context<'a> {
    /// Plans the tail call of `decl`: the transitions that lead from the
    /// state on entry to one that satisfies the goal of the call.
    pub fn plan_decl(&self, decl: &Declaration) -> (r: Result<Vec<Transition>, PlanError>)
        requires
            compilable(self@, decl@),
        ensures
            match r {
                Ok(plan) => planned(initial_view(self@, decl@), goal_view(self@, decl@)) == Ok::<
                    Seq<Transition>,
                    PlanError,
                >(plan@),
                Err(e) => planned(initial_view(self@, decl@), goal_view(self@, decl@)) == Err::<
                    Seq<Transition>,
                    PlanError,
                >(e),
            },
            r matches Ok(plan) ==> all_encodable(plan@) && runs(initial_view(self@, decl@), plan@)
                && on_course(initial_view(self@, decl@), plan@, goal_view(self@, decl@)) && satisfies(
                run(initial_view(self@, decl@), plan@),
                goal_view(self@, decl@),
            ),
    {
        let initial = self.initial_state(decl);
        let available = initial.symbols();
        let goal = self.goal_state(decl, &available);
        proof {
            lemma_initial_valid(self@, decl@);
            lemma_goal_valid(self@, available@.to_set(), decl@.call);
        }
        let r = initial.transition_to(&goal);
        proof {
            if r is Ok {
                lemma_runs_encodable(initial@, r->Ok_0@);
            }
        }
        r
    }
}

} // verus!
