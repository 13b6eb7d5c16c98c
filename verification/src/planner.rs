use vstd::prelude::*;
use pathfinding::directed::astar::astar;
use crate::generate::useful;
use crate::heuristic::heuristic;
use crate::normal::{lemma_normal_order, lemma_normalized_valid, normalized};
use crate::satisfy::{basic_match, satisfies};
use crate::state::{State, StateView};
use crate::transition::{lemma_after_keeps_references, lemma_after_wf, Transition};

verus! {

/// Why no sequence of transitions was found.
#[derive(Clone, Copy, PartialEq, Eq, Structural, Debug)]
pub enum PlanError {
    /// The goal asks for a symbol that the initial state does not hold.
    Unreachable,
    /// The goal holds an allocation too large for an `Alloc` to make.
    Oversize,
    /// The search ended without a path that the transitions reproduce.
    NoPath,
}

/// The views of the states of a path.
pub open spec fn path_views(path: Seq<State>) -> Seq<StateView> {
    Seq::new(path.len(), |i: int| path[i]@)
}

/// The path that the A* search of `pathfinding::directed::astar::astar` finds
/// from `start` towards `goal`, where the successors of a state are given by
/// `successor_list` with the limit `limit`, the estimate by `heuristic` and
/// the end by `satisfies`. The states of the search are in normal form, so
/// that states that differ only in the order of the allocations that their
/// registers reach are one state to the search.
pub uninterp spec fn astar_path(start: StateView, goal: StateView, limit: usize) -> Option<Seq<StateView>>;

/// The most allocations that a state of the search from `start` to `goal`
/// may hold: as many as the two states hold together.
pub open spec fn allocation_limit(start: StateView, goal: StateView) -> usize {
    if start.allocations.len() + goal.allocations.len() <= usize::MAX {
        (start.allocations.len() + goal.allocations.len()) as usize
    } else {
        usize::MAX
    }
}

/// Whether transition `t` leads out of state `s` to a state worth searching:
/// a valid state that still holds the symbols of `goal` and has no more
/// than `limit` allocations.
pub open spec fn leads_on(t: Transition, s: StateView, goal: StateView, limit: usize) -> bool {
    &&& t.encodable()
    &&& t.applies_to(s)
    &&& s.allocations.len() < usize::MAX
    &&& t.after(s).allocations.len() <= limit
    &&& t.after(s).valid()
    &&& t.after(s).reachable(goal)
}

/// The states that follow `s` by one of its first `upto` useful transitions,
/// each with the cost of the transition.
pub open spec fn successor_list(s: StateView, goal: StateView, limit: usize, upto: int) -> Seq<
    (StateView, nat),
>
    decreases upto,
{
    if upto <= 0 {
        Seq::empty()
    } else {
        let rest = successor_list(s, goal, limit, upto - 1);
        let t = useful(s, goal)[upto - 1];
        if leads_on(t, s, goal, limit) {
            rest.push((normalized(t.after(s)), t.cost_of()))
        } else {
            rest
        }
    }
}

/// The views and costs of a list of successors.
pub open spec fn successor_views(list: Seq<(State, u128)>) -> Seq<(StateView, nat)> {
    Seq::new(list.len(), |i: int| (list[i].0@, list[i].1 as nat))
}

/// The state that the transitions of `plan`, carried out in order, lead to.
pub open spec fn run(s: StateView, plan: Seq<Transition>) -> StateView
    decreases plan.len(),
{
    if plan.len() == 0 {
        s
    } else {
        plan.last().after(run(s, plan.drop_last()))
    }
}

/// Each transition of `plan` can be written as code and applies to the state
/// that the transitions before it lead to, which has room for one more
/// allocation.
pub open spec fn runs(s: StateView, plan: Seq<Transition>) -> bool
    decreases plan.len(),
{
    if plan.len() == 0 {
        true
    } else {
        &&& runs(s, plan.drop_last())
        &&& plan.last().encodable()
        &&& plan.last().applies_to(run(s, plan.drop_last()))
        &&& run(s, plan.drop_last()).allocations.len() < usize::MAX
    }
}

/// Every state on the way of `plan` from `s`, the first and the last
/// included, is valid and holds the symbols that `goal` asks for.
pub open spec fn on_course(s: StateView, plan: Seq<Transition>, goal: StateView) -> bool {
    forall|i: int|
        0 <= i <= plan.len() ==> (#[trigger] run(s, plan.take(i))).valid() && run(s, plan.take(i)).reachable(
            goal,
        )
}

/// The sum of the costs of the transitions of `plan`.
pub open spec fn total_cost(plan: Seq<Transition>) -> nat
    decreases plan.len(),
{
    if plan.len() == 0 {
        0
    } else {
        total_cost(plan.drop_last()) + plan.last().cost_of()
    }
}

/// Whether transition `t` leads from `from` to a state whose normal form is `to`.
pub open spec fn links(t: Transition, from: StateView, to: StateView) -> bool {
    t.encodable() && t.applies_to(from) && from.allocations.len() < usize::MAX && normalized(t.after(from))
        == to
}

/// The cheapest of the first `upto` useful transitions of `from` that lead
/// to `to`; the first of them where several cost the same.
pub open spec fn best_step(from: StateView, to: StateView, goal: StateView, upto: int) -> Option<Transition>
    decreases upto,
{
    if upto <= 0 {
        None
    } else {
        let rest = best_step(from, to, goal, upto - 1);
        let t = useful(from, goal)[upto - 1];
        if links(t, from, to) && (rest matches Some(b) ==> t.cost_of() < b.cost_of()) {
            Some(t)
        } else {
            rest
        }
    }
}

/// The transitions that reproduce the first `upto` steps of `path`, if every
/// one of these steps starts from a valid state and can be reproduced.
pub open spec fn steps(path: Seq<StateView>, goal: StateView, upto: int) -> Option<Seq<Transition>>
    decreases upto,
{
    if upto <= 0 {
        Some(Seq::empty())
    } else {
        match steps(path, goal, upto - 1) {
            Some(before) => {
                if path[upto - 1].valid() {
                    match best_step(
                        path[upto - 1],
                        path[upto],
                        goal,
                        useful(path[upto - 1], goal).len() as int,
                    ) {
                        Some(t) => Some(before.push(t)),
                        None => None,
                    }
                } else {
                    None
                }
            },
            None => None,
        }
    }
}

/// The views of the states of a path that a search found, if it found one.
pub open spec fn found_views(found: Option<Vec<State>>) -> Option<Seq<StateView>> {
    match found {
        Some(path) => Some(path_views(path@)),
        None => None,
    }
}

/// Steps that cannot be reproduced stay so however far the path goes on.
proof fn lemma_steps_fail(path: Seq<StateView>, goal: StateView, failed: int, upto: int)
    requires
        steps(path, goal, failed) is None,
        failed <= upto,
    ensures
        steps(path, goal, upto) is None,
    decreases upto - failed,
{
    if failed < upto {
        lemma_steps_fail(path, goal, failed, upto - 1);
    }
}

/// The plan that a found path stands for: its steps, provided the path
/// starts at the normal form of `start`, every step can be reproduced, and
/// the steps, walked from `start`, pass only through valid states that hold
/// the symbols of `goal` and lead to a state that satisfies `goal`.
pub open spec fn plan_of(start: StateView, goal: StateView, found: Option<Seq<StateView>>) -> Result<
    Seq<Transition>,
    PlanError,
> {
    match found {
        None => Err(PlanError::NoPath),
        Some(path) => {
            if path.len() == 0 || path[0] != normalized(start) {
                Err(PlanError::NoPath)
            } else {
                match steps(path, goal, path.len() - 1) {
                    Some(plan) => if runs(start, plan) && on_course(start, plan, goal) && satisfies(
                        run(start, plan),
                        goal,
                    ) {
                        Ok(plan)
                    } else {
                        Err(PlanError::NoPath)
                    },
                    None => Err(PlanError::NoPath),
                }
            }
        },
    }
}

/// A plan that runs runs up to any of its transitions.
pub proof fn lemma_runs_prefix(s: StateView, plan: Seq<Transition>, upto: int)
    requires
        runs(s, plan),
        0 <= upto <= plan.len(),
    ensures
        runs(s, plan.take(upto)),
    decreases plan.len() - upto,
{
    if upto < plan.len() {
        lemma_runs_prefix(s, plan, upto + 1);
        assert(plan.take(upto + 1).drop_last() =~= plan.take(upto));
    } else {
        assert(plan.take(upto) =~= plan);
    }
}

/// The flags of `s` already hold what the flags of `goal` ask for. No
/// transition changes a flag.
pub open spec fn flags_met(s: StateView, goal: StateView) -> bool {
    forall|f: int| 0 <= f < 7 ==> basic_match(#[trigger] s.flags[f], goal.flags[f])
}

/// What planning from `start` to `goal` comes to.
pub open spec fn planned(start: StateView, goal: StateView) -> Result<Seq<Transition>, PlanError> {
    if !start.reachable(goal) {
        Err(PlanError::Unreachable)
    } else if !goal.allocatable() {
        Err(PlanError::Oversize)
    } else if !flags_met(start, goal) {
        Err(PlanError::NoPath)
    } else {
        plan_of(start, goal, astar_path(normalized(start), goal, allocation_limit(start, goal)))
    }
}

/// Planning is a function of the two states: two plans for the same states
/// are the same plan, and so cost the same.
pub proof fn lemma_replanning(start: StateView, goal: StateView, first: Seq<Transition>, second: Seq<Transition>)
    requires
        planned(start, goal) == Ok::<Seq<Transition>, PlanError>(first),
        planned(start, goal) == Ok::<Seq<Transition>, PlanError>(second),
    ensures
        first == second,
        total_cost(first) == total_cost(second),
{
}

/// The states that follow `node` by one useful transition and are worth
/// searching, each in normal form and with the cost of the transition. None
/// of them has more than `limit` allocations, which keeps the states that a
/// search can come to finite in number.
pub fn successors(node: &State, goal: &State, limit: usize) -> (r: Vec<(State, u128)>)
    requires
        node@.valid(),
    ensures
        successor_views(r@) == successor_list(node@, goal@, limit, useful(node@, goal@).len() as int),
        forall|i: int|
            0 <= i < r@.len() ==> (#[trigger] r@[i]).0@.valid() && r@[i].0@.allocations.len() <= limit,
{
    let candidates = node.useful_transitions(goal);
    let ghost s = node@;
    let ghost g = goal@;
    let mut out: Vec<(State, u128)> = Vec::new();
    let mut i: usize = 0;
    assert(successor_views(out@) =~= successor_list(s, g, limit, 0));
    while i < candidates.len()
        invariant
            i <= candidates.len(),
            s == node@,
            g == goal@,
            s.valid(),
            candidates@ == useful(s, g),
            successor_views(out@) == successor_list(s, g, limit, i as int),
            forall|k: int|
                0 <= k < out@.len() ==> (#[trigger] out@[k]).0@.valid() && out@[k].0@.allocations.len() <= limit,
        decreases candidates.len() - i,
    {
        let t = candidates[i];
        let ghost before = out@;
        if t.is_encodable() && t.applies(node) && node.allocations.len() < usize::MAX {
            let mut next = node.duplicate();
            t.apply(&mut next);
            if next.allocations.len() <= limit && next.is_valid() && next.reachable(goal) {
                let cost = t.cost();
                proof {
                    next.lemma_view_wf();
                    lemma_normalized_valid(next@);
                    lemma_normal_order(next@);
                }
                let normal = next.normalize();
                out.push((normal, cost as u128));
                assert(successor_views(out@) =~= successor_views(before).push(
                    (normalized(t.after(s)), t.cost_of()),
                ));
            }
        }
        i += 1;
    }
    out
}

/// The heuristic distance from `node` to `goal`, as the search counts it.
pub fn estimate(node: &State, goal: &State) -> (r: u128)
    requires
        goal@.allocatable(),
    ensures
        r == heuristic(node@, goal@),
{
    node.min_distance(goal) as u128
}

/// `pathfinding::directed::astar::astar` from `start`, with `successors` for
/// the steps, `estimate` for the heuristic and `State::satisfies` for the end.
/// The contract only gives the path a name: what the search returns is a
/// function of the two states and the limit.
///
/// The search ends, since it can come to finitely many states only. A
/// state other than `start` has at most `limit` allocations, each as long
/// as one of `start` or of `goal`, and a slot holds only what a transition
/// can put there: nothing, a symbol or a literal of `start`, a literal of
/// `goal`, or a reference at the offset of a reference of `start` or at
/// offset zero. The search takes a state up again only at a lower cost than
/// before, and no useful transition is free. Costs are summed in 128
/// bits, where neither a sum of transition costs nor an estimate added to it
/// can overflow. The three closures call verified functions on valid
/// states, which return.
#[verifier::external_body]
fn search(start: &State, goal: &State, limit: usize) -> (found: Option<Vec<State>>)
    requires
        start@.valid(),
        goal@.valid(),
        goal@.allocatable(),
    ensures
        match found {
            Some(path) => astar_path(start@, goal@, limit) == Some(path_views(path@)),
            None => astar_path(start@, goal@, limit) == None::<Seq<StateView>>,
        },
{
    astar(start, |n| successors(n, goal, limit), |n| estimate(n, goal), |n| n.satisfies(goal)).map(
        |found| found.0,
    )
}

impl State {
    /// The cheapest useful transition that leads from this state to `to`.
    fn best_transition(&self, to: &State, goal: &State) -> (r: Option<Transition>)
        requires
            self@.valid(),
        ensures
            r == best_step(self@, to@, goal@, useful(self@, goal@).len() as int),
            r matches Some(t) ==> links(t, self@, to@),
    {
        let candidates = self.useful_transitions(goal);
        let ghost s = self@;
        let mut best: Option<Transition> = None;
        let mut least: usize = 0;
        let mut i: usize = 0;
        while i < candidates.len()
            invariant
                i <= candidates.len(),
                s == self@,
                s.valid(),
                candidates@ == useful(s, goal@),
                best == best_step(s, to@, goal@, i as int),
                best matches Some(t) ==> links(t, s, to@) && least == t.cost_of(),
            decreases candidates.len() - i,
        {
            let t = candidates[i];
            if t.is_encodable() && t.applies(self) && self.allocations.len() < usize::MAX {
                let mut next = self.duplicate();
                proof {
                    self.lemma_view_wf();
                    lemma_after_keeps_references(s, t);
                }
                t.apply(&mut next);
                if next.normalize().same(to) {
                    let cost = t.cost();
                    if best.is_none() || cost < least {
                        best = Some(t);
                        least = cost;
                    }
                }
            }
            i += 1;
        }
        best
    }

    /// Whether the flags already hold what the flags of `goal` ask for.
    fn flags_meet(&self, goal: &State) -> (r: bool)
        ensures
            r == flags_met(self@, goal@),
    {
        let mut f: usize = 0;
        while f < 7
            invariant
                f <= 7,
                forall|q: int| 0 <= q < f ==> basic_match(#[trigger] self@.flags[q], goal@.flags[q]),
            decreases 7 - f,
        {
            let met = match goal.flags[f] {
                crate::value::Value::Unspecified => true,
                crate::value::Value::Reference { offset, .. } => {
                    match self.flags[f] {
                        crate::value::Value::Reference { offset: o, .. } => o == offset,
                        _ => false,
                    }
                },
                wanted => self.flags[f] == wanted,
            };
            if !met {
                assert(!basic_match(self@.flags[f as int], goal@.flags[f as int]));
                return false;
            }
            f += 1;
        }
        true
    }

    /// The most allocations that a state of the search towards `goal` may hold.
    fn allocation_limit(&self, goal: &State) -> (r: usize)
        ensures
            r == allocation_limit(self@, goal@),
    {
        let ours: usize = self.allocations.len();
        let theirs: usize = goal.allocations.len();
        if ours <= usize::MAX - theirs {
            ours + theirs
        } else {
            usize::MAX
        }
    }

    /// Whether an `Alloc` can make each allocation of the state.
    fn is_allocatable(&self) -> (r: bool)
        ensures
            r == self@.allocatable(),
    {
        let n = self.allocations.len();
        let mut a: usize = 0;
        while a < n
            invariant
                n == self.allocations.len(),
                a <= n,
                forall|b: int| 0 <= b < a ==> (#[trigger] self@.allocations[b]).len() <= 0xffff_ffff,
            decreases n - a,
        {
            if self.allocations[a].len() > 0xffff_ffff {
                assert(self@.allocations[a as int].len() > 0xffff_ffff);
                return false;
            }
            a += 1;
        }
        true
    }
}

/// Turns the path that a search found into the transitions that walk it:
/// for each step the cheapest useful transition that leads from the one state
/// to the next. The transitions are then walked from `start`. A path that
/// does not start at the normal form of `start`, has a step that no
/// transition reproduces, leads `start` through a state that is not valid
/// or has lost a symbol of `goal`, or does not end in a state that satisfies
/// `goal`, gives `NoPath`.
pub fn plan_from_path(start: &State, goal: &State, found: Option<Vec<State>>) -> (r: Result<
    Vec<Transition>,
    PlanError,
>)
    requires
        start@.valid(),
        goal@.valid(),
    ensures
        match r {
            Ok(plan) => plan_of(start@, goal@, found_views(found)) == Ok::<Seq<Transition>, PlanError>(
                plan@,
            ),
            Err(e) => plan_of(start@, goal@, found_views(found)) == Err::<Seq<Transition>, PlanError>(e),
        },
        r matches Ok(plan) ==> runs(start@, plan@) && on_course(start@, plan@, goal@) && satisfies(
            run(start@, plan@),
            goal@,
        ),
{
    let ghost given = found_views(found);
    let path = match found {
        Some(path) => path,
        None => {
            return Err(PlanError::NoPath);
        },
    };
    let ghost views = path_views(path@);
    assert(given == Some(views));
    if path.len() == 0 {
        return Err(PlanError::NoPath);
    }
    let origin = start.normalize();
    if !path[0].same(&origin) {
        return Err(PlanError::NoPath);
    }
    let last = path.len() - 1;
    let mut out: Vec<Transition> = Vec::new();
    let mut k: usize = 0;
    while k < last
        invariant
            k <= last,
            last == path.len() - 1,
            views == path_views(path@),
            given == Some(views),
            given == found_views(found),
            views.len() == last + 1,
            views[0] == normalized(start@),
            steps(views, goal@, k as int) == Some(out@),
        decreases last - k,
    {
        let from = &path[k];
        let to = &path[k + 1];
        assert(from@ == views[k as int]);
        assert(to@ == views[k + 1]);
        if !from.is_valid() {
            proof {
                assert(steps(views, goal@, k + 1) is None);
                lemma_steps_fail(views, goal@, k + 1, last as int);
            }
            return Err(PlanError::NoPath);
        }
        match from.best_transition(to, goal) {
            Some(t) => {
                out.push(t);
            },
            None => {
                proof {
                    assert(steps(views, goal@, k + 1) is None);
                    lemma_steps_fail(views, goal@, k + 1, last as int);
                }
                return Err(PlanError::NoPath);
            },
        }
        k += 1;
    }
    let mut state = start.duplicate();
    let mut i: usize = 0;
    proof {
        start.lemma_view_wf();
        assert(out@.take(0) =~= Seq::<Transition>::empty());
    }
    while i < out.len()
        invariant
            i <= out.len(),
            given == Some(views),
            given == found_views(found),
            views.len() == last + 1,
            views[0] == normalized(start@),
            steps(views, goal@, last as int) == Some(out@),
            state@ == run(start@, out@.take(i as int)),
            runs(start@, out@.take(i as int)),
            state@.wf(),
            state@.references_in_range(),
            state@.flags_boolean(),
            forall|j: int|
                0 <= j < i ==> (#[trigger] run(start@, out@.take(j))).valid() && run(
                    start@,
                    out@.take(j),
                ).reachable(goal@),
        decreases out.len() - i,
    {
        if !(state.is_valid() && state.reachable(goal)) {
            assert(!on_course(start@, out@, goal@)) by {
                assert(!(run(start@, out@.take(i as int)).valid() && run(start@, out@.take(i as int)).reachable(
                    goal@,
                )));
            }
            return Err(PlanError::NoPath);
        }
        let t = out[i];
        proof {
            assert(out@.take(i + 1).drop_last() =~= out@.take(i as int));
            assert(out@.take(i + 1).last() == t);
        }
        if !(t.is_encodable() && state.allocations.len() < usize::MAX && t.applies(&state)) {
            proof {
                if runs(start@, out@) {
                    lemma_runs_prefix(start@, out@, i + 1);
                }
            }
            return Err(PlanError::NoPath);
        }
        proof {
            lemma_after_keeps_references(state@, t);
            lemma_after_wf(state@, t);
        }
        t.apply(&mut state);
        i += 1;
    }
    assert(out@.take(out@.len() as int) =~= out@);
    if !(state.is_valid() && state.reachable(goal)) {
        assert(!on_course(start@, out@, goal@)) by {
            assert(!(run(start@, out@.take(out@.len() as int)).valid() && run(
                start@,
                out@.take(out@.len() as int),
            ).reachable(goal@)));
        }
        return Err(PlanError::NoPath);
    }
    assert(on_course(start@, out@, goal@));
    if !state.satisfies(goal) {
        return Err(PlanError::NoPath);
    }
    Ok(out)
}

impl State {
    /// Plans a sequence of transitions that leads from this state to one
    /// that satisfies `goal`: the one that an A* search finds. The estimate
    /// that guides the search can exceed the true distance, so the sequence
    /// need not be the cheapest there is.
    ///
    /// The goal is `Unreachable` when it asks for a symbol that this state
    /// lacks, and `Oversize` when it holds an allocation of more than
    /// 2^32 - 1 slots. Where the flags do not already hold what the goal
    /// asks of them there is `NoPath`, since no transition changes a flag.
    /// The search looks at no state with more allocations than this state
    /// and the goal hold together, and gives `NoPath` where it finds none
    /// that satisfies the goal. Any plan that is returned has been walked:
    /// each of its transitions applies in turn, every state on the way is
    /// valid and holds the symbols of the goal, and the last of them
    /// satisfies the goal.
    pub fn transition_to(&self, goal: &State) -> (r: Result<Vec<Transition>, PlanError>)
        requires
            self@.valid(),
            goal@.valid(),
        ensures
            match r {
                Ok(plan) => planned(self@, goal@) == Ok::<Seq<Transition>, PlanError>(plan@),
                Err(e) => planned(self@, goal@) == Err::<Seq<Transition>, PlanError>(e),
            },
            !self@.reachable(goal@) ==> r == Err::<Vec<Transition>, PlanError>(PlanError::Unreachable),
            r matches Ok(plan) ==> self@.reachable(goal@) && runs(self@, plan@) && on_course(
                self@,
                plan@,
                goal@,
            ) && satisfies(run(self@, plan@), goal@),
    {
        if !self.reachable(goal) {
            return Err(PlanError::Unreachable);
        }
        if !goal.is_allocatable() {
            return Err(PlanError::Oversize);
        }
        if !self.flags_meet(goal) {
            return Err(PlanError::NoPath);
        }
        proof {
            self.lemma_view_wf();
            lemma_normalized_valid(self@);
        }
        let origin = self.normalize();
        let limit = self.allocation_limit(goal);
        let found = search(&origin, goal, limit);
        plan_from_path(self, goal, found)
    }
}

} // verus!
