use olus::planner::PlanError;
use olus::state::{Allocation, Register, State};
use olus::transition::Transition;
use olus::value::Value;

fn total(path: &[Transition]) -> usize {
    path.iter().map(|t| t.cost()).sum::<usize>()
}

/// Walks `path` from `initial` and returns every state on the way.
fn walk(initial: &State, path: &[Transition]) -> Vec<State> {
    let mut states = vec![initial.clone()];
    for ts in path {
        let mut next = states.last().unwrap().clone();
        assert!(ts.applies(&next));
        ts.apply(&mut next);
        states.push(next);
    }
    states
}

/// Provided a known best path, test that the heuristic never overestimates.
fn test_admisability(initial: &State, goal: &State, path: &[Transition]) {
    let states = walk(initial, path);
    assert!(states.last().unwrap().satisfies(goal));

    let mut overall_admisable = true;
    for start in 0..states.len() {
        for end in start..states.len() {
            let heuristic = states[start].min_distance(&states[end]);
            let distance = path
                .iter()
                .skip(start)
                .take(end - start)
                .map(|t| t.cost())
                .sum::<usize>();
            let admisable = heuristic <= distance;
            println!("{} - {}: {:7} {:7} {:5}", start, end, heuristic, distance, admisable);
            overall_admisable &= admisable;
        }

        // Goal as target
        let heuristic = states[start].min_distance(goal);
        let distance = path.iter().skip(start).map(|t| t.cost()).sum::<usize>();
        let admisable = heuristic <= distance;
        println!("{} - G: {:7} {:7} {:5}", start, heuristic, distance, admisable);
        overall_admisable &= admisable;
    }
    assert!(overall_admisable);
}

/// Take a state and its neighbours: no step may lower the estimate by more
/// than it costs.
fn test_consistency(initial: &State, goal: &State) {
    let mindist = initial.min_distance(goal);
    let mut overal_consistent = true;
    for ts in initial.useful_transitions(goal) {
        let mut neighbor = initial.clone();
        ts.apply(&mut neighbor);
        let cost = ts.cost();
        let dist = neighbor.min_distance(goal);
        let consistent = (cost as u128 + dist as u128) >= mindist as u128;
        println!(" {:5} {:7} {:7}: {:?}", consistent, ts.cost(), dist, ts);
        overal_consistent &= consistent;
    }
    assert!(overal_consistent);
}

#[test]
fn test_min_distance() {
    let mut initial = State::default();
    initial.registers[0] = Value::Symbol(5);
    let mut goal = State::default();
    goal.registers[0] = Value::Literal(3);
    goal.registers[1] = Value::Reference { index: 0, offset: 0 };
    goal.allocations.push(Allocation(vec![Value::Symbol(5)]));
    let optimal_path = vec![
        Transition::Alloc { dest: Register(1), size: 1 },
        Transition::Write { dest: Register(1), offset: 0, source: Register(0) },
        Transition::Assign { dest: Register(0), value: 3 },
    ];
    let optimal_cost = optimal_path.iter().map(|t| t.cost()).sum::<usize>();
    test_admisability(&initial, &goal, &optimal_path);
    let _path = initial.transition_to(&goal).unwrap();
    let path_cost = optimal_path.iter().map(|t| t.cost()).sum::<usize>();
    assert_eq!(optimal_cost, path_cost);
}

#[test]
fn test_basic() {
    let mut initial = State::default();
    initial.registers[0] = Value::Symbol(1);
    initial.registers[1] = Value::Symbol(2);
    initial.registers[2] = Value::Symbol(3);
    let mut goal = State::default();
    goal.registers[0] = Value::Reference { index: 0, offset: 0 };
    goal.registers[1] = Value::Symbol(3);
    goal.registers[2] = Value::Literal(3);
    goal.allocations.push(Allocation(vec![Value::Symbol(1), Value::Symbol(2)]));

    let path = initial.transition_to(&goal).unwrap();
    test_admisability(&initial, &goal, &path);
    test_consistency(&initial, &goal);
}

#[test]
fn test_basic2() {
    let mut initial = State::default();
    initial.registers[0] = Value::Symbol(0);
    initial.registers[1] = Value::Symbol(1);
    initial.registers[2] = Value::Symbol(2);
    initial.registers[3] = Value::Symbol(3);
    initial.registers[4] = Value::Symbol(4);

    let mut goal = State::default();
    goal.registers[0] = Value::Literal(0x0000000000100058);
    goal.registers[1] = Value::Symbol(1);
    goal.registers[2] = Value::Symbol(2);
    goal.registers[3] = Value::Reference { index: 0, offset: 0 };
    goal.allocations.push(Allocation(vec![
        Value::Literal(0x0000000000100058),
        Value::Symbol(3),
        Value::Symbol(4),
    ]));

    let path = initial.transition_to(&goal).unwrap();
    let states = walk(&initial, &path);
    assert!(states.last().unwrap().satisfies(&goal));
    assert!(states.iter().all(|state| state.is_valid() && state.reachable(&goal)));
    assert_eq!(total(&path), 390066);

    // The estimate is no lower bound here: from the start it is more than
    // the plan costs, so the plan cannot be held against it step by step.
    assert_eq!(initial.min_distance(&goal), 410066);
    assert!(initial.min_distance(&goal) > total(&path));
    // Nor is the plan the cheapest way: to bring the old r3 to safety with a
    // swap, and to load the literal last, is one byte shorter.
    let by_hand = vec![
        Transition::Swap { dest: Register(0), source: Register(3) },
        Transition::Alloc { dest: Register(3), size: 3 },
        Transition::Write { dest: Register(3), offset: 1, source: Register(0) },
        Transition::Write { dest: Register(3), offset: 2, source: Register(4) },
        Transition::Assign { dest: Register(0), value: 0x100058 },
        Transition::Write { dest: Register(3), offset: 0, source: Register(0) },
    ];
    assert!(walk(&initial, &by_hand).last().unwrap().satisfies(&goal));
    assert_eq!(total(&by_hand), 380069);

    // The estimate is not consistent here either: the literal is wanted in
    // a register and in the closure, and to load it takes more off the
    // estimate than it costs. Every other step keeps to the estimate.
    let mut loaded = initial.clone();
    let load = Transition::Assign { dest: Register(0), value: 0x100058 };
    load.apply(&mut loaded);
    assert_eq!(load.cost(), 50003);
    assert_eq!(loaded.min_distance(&goal), 310060);
    for ts in initial.useful_transitions(&goal) {
        let mut neighbor = initial.clone();
        ts.apply(&mut neighbor);
        let through = ts.cost() as u128 + neighbor.min_distance(&goal) as u128;
        let loads = matches!(ts, Transition::Assign { value: 0x100058, .. });
        assert!(through >= 410066 || loads, "{:?}", ts);
    }
}

#[test]
fn closure_construction_with_code_pointer() {
    let mut initial = State::default();
    for i in 0..=4 {
        initial.registers[i] = Value::Symbol(i);
    }
    let mut goal = State::default();
    goal.registers[0] = Value::Literal(0x0000000000100058);
    goal.registers[1] = Value::Symbol(1);
    goal.registers[2] = Value::Symbol(2);
    goal.registers[3] = Value::Reference { index: 0, offset: 0 };
    goal.allocations.push(Allocation(vec![
        Value::Literal(0x0000000000100058),
        Value::Symbol(3),
        Value::Symbol(4),
    ]));

    // One way to get there: allocate beside the arguments, fill the closure
    // from r0, r3 and r4, and only then move the reference into r3.
    let by_hand = vec![
        Transition::Assign { dest: Register(0), value: 0x100058 },
        Transition::Alloc { dest: Register(5), size: 3 },
        Transition::Write { dest: Register(5), offset: 0, source: Register(0) },
        Transition::Write { dest: Register(5), offset: 1, source: Register(3) },
        Transition::Write { dest: Register(5), offset: 2, source: Register(4) },
        Transition::Copy { dest: Register(3), source: Register(5) },
    ];
    assert!(walk(&initial, &by_hand).last().unwrap().satisfies(&goal));
    assert_eq!(total(&by_hand), 390066);

    let path = initial.transition_to(&goal).unwrap();
    assert!(walk(&initial, &path).last().unwrap().satisfies(&goal));
    assert_eq!(total(&path), total(&by_hand));
}

#[test]
fn a_goal_that_no_transition_makes_has_no_path() {
    // No `Alloc` makes an allocation without slots, so nothing leads on
    // from the start and the search ends at once.
    let initial = State::default();
    let mut goal = State::default();
    goal.registers[0] = Value::Reference { index: 0, offset: 0 };
    goal.allocations.push(Allocation(vec![]));
    assert!(goal.is_valid());
    assert!(olus::planner::successors(&initial, &goal, 1).is_empty());
    assert_eq!(initial.transition_to(&goal), Err(PlanError::NoPath));
}

#[test]
fn the_search_stays_within_its_allocations() {
    let mut state = State::default();
    state.registers[0] = Value::Reference { index: 0, offset: 0 };
    state.allocations.push(Allocation(vec![Value::Unspecified]));
    let mut goal = State::default();
    goal.registers[1] = Value::Reference { index: 0, offset: 0 };
    goal.allocations.push(Allocation(vec![Value::Unspecified]));

    // With room for one allocation only, no successor allocates beside it.
    let narrow = olus::planner::successors(&state, &goal, 1);
    assert!(!narrow.is_empty());
    assert!(narrow.iter().all(|(node, _)| node.allocations.len() <= 1));
    // With room for two, some do, and the others are there as before.
    let wide = olus::planner::successors(&state, &goal, 2);
    assert!(wide.iter().any(|(node, _)| node.allocations.len() == 2));
    assert!(wide.iter().all(|(node, _)| node.allocations.len() <= 2));
    assert!(narrow.iter().all(|step| wide.contains(step)));
    assert!(wide.len() > narrow.len());
    // With room for none, only what drops the allocation is left.
    let none = olus::planner::successors(&state, &goal, 0);
    assert!(none.iter().all(|(node, _)| node.allocations.is_empty()));
}

#[test]
fn identity_needs_no_transition() {
    let mut initial = State::default();
    initial.registers[0] = Value::Symbol(1);
    initial.registers[1] = Value::Symbol(2);
    let goal = initial.clone();
    let path = initial.transition_to(&goal).unwrap();
    assert_eq!(path, vec![]);
    assert_eq!(total(&path), 0);
}

#[test]
fn swap_of_two_registers() {
    let mut initial = State::default();
    initial.registers[0] = Value::Symbol(1);
    initial.registers[1] = Value::Symbol(2);
    let mut goal = State::default();
    goal.registers[0] = Value::Symbol(2);
    goal.registers[1] = Value::Symbol(1);
    let path = initial.transition_to(&goal).unwrap();
    assert_eq!(path.len(), 1);
    assert_eq!(total(&path), Transition::Swap { dest: Register(0), source: Register(1) }.cost());
    assert!(walk(&initial, &path).last().unwrap().satisfies(&goal));
    match path[0] {
        Transition::Swap { dest, source } => {
            assert_eq!((dest.0.min(source.0), dest.0.max(source.0)), (0, 1));
        }
        other => panic!("expected a swap, got {:?}", other),
    }
}

#[test]
fn load_literal_and_capture() {
    let mut initial = State::default();
    initial.registers[0] = Value::Symbol(5);
    let mut goal = State::default();
    goal.registers[0] = Value::Literal(3);
    goal.registers[1] = Value::Reference { index: 0, offset: 0 };
    goal.allocations.push(Allocation(vec![Value::Symbol(5)]));
    let expected = vec![
        Transition::Alloc { dest: Register(1), size: 1 },
        Transition::Write { dest: Register(1), offset: 0, source: Register(0) },
        Transition::Assign { dest: Register(0), value: 3 },
    ];
    let path = initial.transition_to(&goal).unwrap();
    assert_eq!(total(&path), total(&expected));
    assert!(walk(&initial, &path).last().unwrap().satisfies(&goal));
    assert!(walk(&initial, &expected).last().unwrap().satisfies(&goal));
}

#[test]
fn four_argument_shuffle() {
    let mut initial = State::default();
    let mut goal = State::default();
    for i in 0..=3 {
        initial.registers[i] = Value::Symbol(i);
        goal.registers[i] = Value::Symbol(3 - i);
    }
    let expected = vec![
        Transition::Swap { dest: Register(0), source: Register(3) },
        Transition::Swap { dest: Register(1), source: Register(2) },
    ];
    let path = initial.transition_to(&goal).unwrap();
    assert_eq!(path.len(), 2);
    assert_eq!(total(&path), total(&expected));
    assert!(walk(&initial, &path).last().unwrap().satisfies(&goal));
}

#[test]
fn unreachable_goal_is_reported() {
    let mut initial = State::default();
    initial.registers[0] = Value::Symbol(1);
    let mut goal = State::default();
    goal.registers[0] = Value::Symbol(7);
    assert!(!initial.reachable(&goal));
    assert_eq!(initial.transition_to(&goal), Err(PlanError::Unreachable));
    assert_eq!(initial.min_distance(&goal), usize::max_value());
}

#[test]
fn goal_flags_that_differ_give_no_path() {
    let initial = State::default();
    let mut goal = State::default();
    goal.flags[0] = Value::Literal(1);
    assert_eq!(initial.transition_to(&goal), Err(PlanError::NoPath));
}

#[test]
fn planning_twice_costs_the_same() {
    let mut initial = State::default();
    initial.registers[0] = Value::Symbol(5);
    let mut goal = State::default();
    goal.registers[0] = Value::Literal(3);
    goal.registers[1] = Value::Reference { index: 0, offset: 0 };
    goal.allocations.push(Allocation(vec![Value::Symbol(5)]));
    let first = initial.transition_to(&goal).unwrap();
    let second = initial.transition_to(&goal).unwrap();
    assert_eq!(first, second);
    assert_eq!(total(&first), total(&second));
}

#[test]
fn useful_transitions_for_a_small_state() {
    let mut state = State::default();
    state.registers[0] = Value::Symbol(1);
    state.registers[2] = Value::Reference { index: 0, offset: 0 };
    state.allocations.push(Allocation(vec![Value::Unspecified, Value::Literal(4)]));
    let mut goal = State::default();
    goal.registers[0] = Value::Literal(4);
    goal.registers[1] = Value::Literal(4);
    goal.registers[3] = Value::Reference { index: 0, offset: 0 };
    goal.registers[4] = Value::Reference { index: 1, offset: 0 };
    goal.allocations.push(Allocation(vec![Value::Literal(9)]));
    goal.allocations.push(Allocation(vec![Value::Literal(9)]));

    let all = state.useful_transitions(&goal);
    // Two literals to each register; two specified registers, each copied to
    // the fifteen others and swapped once; through the reference, a read of
    // the one specified slot into each register and a write of each
    // specified register into each slot; one size to each register; one drop.
    assert_eq!(all.len(), 2 * 16 + (2 * 15 + 1) + (16 + 2 * 2) + 16 + 1);
    assert_eq!(all[0], Transition::Assign { dest: Register(0), value: 4 });
    assert_eq!(all[16], Transition::Assign { dest: Register(0), value: 9 });
    assert_eq!(all[32], Transition::Copy { dest: Register(1), source: Register(0) });
    assert_eq!(all[33], Transition::Copy { dest: Register(2), source: Register(0) });
    assert_eq!(all[34], Transition::Swap { dest: Register(2), source: Register(0) });
    assert_eq!(*all.last().unwrap(), Transition::Drop { dest: Register(2) });
    assert!(all.contains(&Transition::Read { dest: Register(7), source: Register(2), offset: 1 }));
    assert!(!all.contains(&Transition::Read { dest: Register(7), source: Register(2), offset: 0 }));
    assert!(all.contains(&Transition::Write { dest: Register(2), offset: 0, source: Register(0) }));
    assert!(all.contains(&Transition::Write { dest: Register(2), offset: 1, source: Register(2) }));
    assert!(all.contains(&Transition::Alloc { dest: Register(15), size: 1 }));
    assert!(all.iter().all(|t| t.is_encodable() && t.applies(&state)));
}

#[test]
fn register_set_costs() {
    let mut state = State::default();
    state.registers[0] = Value::Symbol(1);
    state.registers[2] = Value::Reference { index: 0, offset: 0 };
    state.allocations.push(Allocation(vec![Value::Symbol(2), Value::Literal(4), Value::Literal(1 << 40)]));
    let at = |n| Some(Register(n));
    assert_eq!(state.register_set_cost(at(5), Value::Unspecified), 0);
    // In place, elsewhere in a register, or anywhere.
    assert_eq!(state.register_set_cost(at(0), Value::Symbol(1)), 0);
    assert_eq!(state.register_set_cost(at(5), Value::Symbol(1)), 20006);
    assert_eq!(state.register_set_cost(at(9), Value::Symbol(1)), 20006);
    assert_eq!(state.register_set_cost(None, Value::Symbol(1)), 0);
    // Only in an allocation: a read.
    assert_eq!(state.register_set_cost(at(5), Value::Symbol(2)), 50006);
    // A small literal is loaded, which is cheaper than the read; a large
    // one is read where an allocation holds it.
    assert_eq!(state.register_set_cost(at(5), Value::Literal(4)), 50003);
    assert_eq!(state.register_set_cost(at(5), Value::Literal(0)), 20003);
    assert_eq!(state.register_set_cost(at(9), Value::Literal(0)), 30003);
    assert_eq!(state.register_set_cost(at(5), Value::Literal(1 << 40)), 50006);
    assert_eq!(state.register_set_cost(at(5), Value::Literal(7 << 40)), 100003);
    // References are taken to be at hand.
    assert_eq!(state.register_set_cost(at(5), Value::Reference { index: 0, offset: 0 }), 0);
    assert_eq!(state.register_set_cost(at(2), Value::Reference { index: 3, offset: 0 }), 0);
    // A symbol that is nowhere cannot be had.
    assert_eq!(state.register_set_cost(at(5), Value::Symbol(3)), usize::max_value());
}

#[test]
fn heuristic_adds_registers_and_allocations() {
    let mut initial = State::default();
    initial.registers[0] = Value::Symbol(5);
    let mut goal = State::default();
    goal.registers[0] = Value::Literal(3);
    goal.registers[1] = Value::Reference { index: 0, offset: 0 };
    goal.allocations.push(Allocation(vec![Value::Symbol(5)]));
    // A load, an allocation and a write.
    assert_eq!(initial.min_distance(&goal), 50003 + 160024 + 50012);
    assert_eq!(goal.min_distance(&goal), 0);
    // An allocation of the right size only needs the write.
    let mut halfway = initial.clone();
    halfway.registers[1] = Value::Reference { index: 0, offset: 0 };
    halfway.allocations.push(Allocation(vec![Value::Unspecified]));
    assert_eq!(halfway.min_distance(&goal), 50003 + 50012);
}

#[test]
fn successors_are_valid_and_keep_the_goal_in_reach() {
    let mut state = State::default();
    state.registers[0] = Value::Symbol(1);
    state.registers[1] = Value::Reference { index: 0, offset: 0 };
    state.allocations.push(Allocation(vec![Value::Symbol(2)]));
    let mut goal = State::default();
    goal.registers[3] = Value::Symbol(2);
    let next = olus::planner::successors(&state, &goal, 2);
    assert!(!next.is_empty());
    for (node, cost) in &next {
        assert!(node.is_valid());
        assert!(node.reachable(&goal));
        assert!(*cost > 0);
    }
    // Dropping the allocation would lose the symbol, and overwriting the
    // only reference to it would orphan it.
    assert!(next.iter().all(|(node, _)| node.allocations.len() >= 1));
    assert!(next.iter().all(|(node, _)| node.registers[1] != Value::Literal(0)));
    assert_eq!(olus::planner::estimate(&state, &goal), 50006);
}

#[test]
fn a_path_is_walked_before_it_is_believed() {
    let mut start = State::default();
    start.registers[0] = Value::Symbol(1);
    let mut goal = State::default();
    goal.registers[1] = Value::Symbol(1);
    let mut end = start.clone();
    end.registers[1] = Value::Symbol(1);

    let plan = olus::planner::plan_from_path(&start, &goal, Some(vec![start.clone(), end.clone()]));
    assert_eq!(plan, Ok(vec![Transition::Copy { dest: Register(1), source: Register(0) }]));
    // The path has to begin at the start, end at the goal, and take steps
    // that one transition can take.
    assert_eq!(olus::planner::plan_from_path(&start, &goal, None), Err(PlanError::NoPath));
    assert_eq!(olus::planner::plan_from_path(&start, &goal, Some(vec![])), Err(PlanError::NoPath));
    assert_eq!(
        olus::planner::plan_from_path(&start, &goal, Some(vec![end.clone()])),
        Err(PlanError::NoPath)
    );
    assert_eq!(
        olus::planner::plan_from_path(&start, &goal, Some(vec![start.clone()])),
        Err(PlanError::NoPath)
    );
    let mut far = end.clone();
    far.registers[2] = Value::Symbol(1);
    far.registers[3] = Value::Symbol(1);
    assert_eq!(
        olus::planner::plan_from_path(&start, &goal, Some(vec![start.clone(), far])),
        Err(PlanError::NoPath)
    );
}

#[test]
fn allocations_may_come_in_any_order() {
    // r0 has to point to [#1] and r1 to [#2]; the allocations of the
    // initial state stand the other way round.
    let mut initial = State::default();
    initial.registers[0] = Value::Reference { index: 1, offset: 0 };
    initial.registers[1] = Value::Reference { index: 0, offset: 0 };
    initial.allocations.push(Allocation(vec![Value::Symbol(2)]));
    initial.allocations.push(Allocation(vec![Value::Symbol(1)]));
    let mut goal = State::default();
    goal.registers[0] = Value::Reference { index: 0, offset: 0 };
    goal.registers[1] = Value::Reference { index: 1, offset: 0 };
    goal.registers[2] = Value::Literal(0);
    goal.allocations.push(Allocation(vec![Value::Symbol(1)]));
    goal.allocations.push(Allocation(vec![Value::Symbol(2)]));
    let path = initial.transition_to(&goal).unwrap();
    assert_eq!(path, vec![Transition::Assign { dest: Register(2), value: 0 }]);
    assert!(walk(&initial, &path).last().unwrap().satisfies(&goal));
}

#[test]
fn heuristic_counts_each_register_on_its_own() {
    // Two registers that have to trade places: each is a swap away, and the
    // estimate counts the swap for each of them.
    let mut state = State::default();
    state.registers[0] = Value::Symbol(2);
    state.registers[1] = Value::Symbol(1);
    let mut goal = State::default();
    goal.registers[0] = Value::Symbol(1);
    goal.registers[1] = Value::Symbol(2);
    let swap = Transition::Swap { dest: Register(1), source: Register(0) };
    assert_eq!(swap.cost(), 20006);
    assert_eq!(state.min_distance(&goal), 2 * 20006);
    assert_eq!(total(&state.transition_to(&goal).unwrap()), 20006);
}
