use olus::state::{Allocation, Flag, Register, State};
use olus::transition::Transition;
use olus::value::Value;

fn reference(index: usize, offset: isize) -> Value {
    Value::Reference { index, offset }
}

/// r0 = #1, r1 -> [3, ->self, #2], r2 -> the same allocation, one slot on.
fn sample() -> State {
    let mut state = State::default();
    state.registers[0] = Value::Symbol(1);
    state.registers[1] = reference(0, 0);
    state.registers[2] = reference(0, 1);
    state.allocations.push(Allocation(vec![Value::Literal(3), reference(0, 0), Value::Symbol(2)]));
    state
}

#[test]
fn default_state_is_blank_and_valid() {
    let state = State::default();
    assert!(state.registers.iter().all(|v| *v == Value::Unspecified));
    assert!(state.flags.iter().all(|v| *v == Value::Unspecified));
    assert!(state.allocations.is_empty());
    assert!(state.is_valid());
    assert_eq!(Value::default(), Value::Unspecified);
    assert!(!Value::Unspecified.is_specified());
    assert!(Value::Literal(0).is_specified());
}

#[test]
fn references_must_name_an_allocation() {
    let mut state = State::default();
    state.registers[3] = reference(0, 0);
    assert!(!state.is_valid());
    state.allocations.push(Allocation(vec![reference(1, 0)]));
    assert!(!state.is_valid());
    state.allocations[0].0[0] = Value::Unspecified;
    assert!(state.is_valid());
}

#[test]
fn allocations_must_be_referenced() {
    let mut state = State::default();
    state.allocations.push(Allocation(vec![Value::Literal(1)]));
    assert!(!state.is_valid());
    // A reference from the allocation itself is a reference.
    state.allocations[0].0[0] = reference(0, 0);
    assert!(state.is_valid());
    state.allocations.push(Allocation(vec![]));
    assert!(!state.is_valid());
    state.registers[15] = reference(1, 7);
    assert!(state.is_valid());
}

#[test]
fn flags_hold_nothing_symbols_or_booleans() {
    let mut state = State::default();
    state.flags[0] = Value::Symbol(9);
    state.flags[3] = Value::Literal(0);
    state.flags[6] = Value::Literal(1);
    assert!(state.is_valid());
    state.flags[6] = Value::Literal(2);
    assert!(!state.is_valid());
    let mut state = sample();
    assert!(state.is_valid());
    state.flags[1] = reference(0, 0);
    assert!(!state.is_valid());
}

#[test]
fn accessors_read_registers_flags_and_slots() {
    let mut state = sample();
    state.flags[3] = Value::Literal(1);
    assert_eq!(state.get_register(Register(0)), Value::Symbol(1));
    assert_eq!(state.get_register(Register(15)), Value::Unspecified);
    assert_eq!(state.get_flag(Flag::Zero), Value::Literal(1));
    assert_eq!(state.get_flag(Flag::Carry), Value::Unspecified);
    assert_eq!(Flag::Overflow.index(), 6);
    assert_eq!(Register(7).as_u8(), 7);
    assert_eq!(state.get_reference(Register(1), 0), Some(Value::Literal(3)));
    assert_eq!(state.get_reference(Register(1), 2), Some(Value::Symbol(2)));
    assert_eq!(state.get_reference(Register(1), 3), None);
    assert_eq!(state.get_reference(Register(1), -1), None);
    assert_eq!(state.get_reference(Register(2), -1), Some(Value::Literal(3)));
    assert_eq!(state.get_reference(Register(2), 1), Some(Value::Symbol(2)));
    assert_eq!(state.get_reference(Register(2), 2), None);
    assert_eq!(state.get_reference(Register(2), isize::max_value()), None);
    assert_eq!(state.get_reference(Register(0), 0), None);
}

#[test]
fn slots_come_registers_first() {
    let mut state = sample();
    state.flags[2] = Value::Symbol(5);
    let slots = state.slots();
    assert_eq!(slots.len(), 16 + 7 + 3);
    assert_eq!(slots[0], Value::Symbol(1));
    assert_eq!(slots[16 + 2], Value::Symbol(5));
    assert_eq!(&slots[23..], &[Value::Literal(3), reference(0, 0), Value::Symbol(2)]);
}

#[test]
fn catalogs_list_each_thing_once() {
    let mut state = sample();
    state.registers[5] = Value::Symbol(2);
    state.registers[6] = Value::Literal(3);
    state.registers[7] = Value::Literal(8);
    state.registers[8] = reference(1, 0);
    state.registers[9] = reference(2, 0);
    state.flags[0] = Value::Symbol(7);
    state.allocations.push(Allocation(vec![Value::Symbol(1)]));
    state.allocations.push(Allocation(vec![Value::Symbol(4), Value::Literal(8), Value::Literal(0)]));
    assert_eq!(state.symbols(), vec![1, 2, 7, 4]);
    assert_eq!(state.literals(), vec![3, 8, 0]);
    assert_eq!(state.alloc_sizes(), vec![3, 1]);
}

#[test]
fn goals_need_our_symbols() {
    let state = sample();
    let mut goal = State::default();
    assert!(state.reachable(&goal));
    goal.registers[4] = Value::Symbol(2);
    goal.registers[5] = Value::Literal(77);
    assert!(state.reachable(&goal));
    goal.registers[6] = Value::Symbol(3);
    assert!(!state.reachable(&goal));
    assert!(goal.reachable(&State::default()));
}

#[test]
fn every_state_satisfies_itself() {
    assert!(sample().satisfies(&sample()));
    assert!(State::default().satisfies(&State::default()));
    assert!(sample().satisfies(&State::default()));
    assert!(!State::default().satisfies(&sample()));
}

#[test]
fn satisfaction_follows_references() {
    let state = sample();
    // The goal asks for an allocation that points to itself, in another place.
    let mut goal = State::default();
    goal.registers[1] = reference(1, 0);
    goal.registers[9] = reference(0, 0);
    goal.allocations.push(Allocation(vec![]));
    goal.allocations.push(Allocation(vec![Value::Unspecified, reference(1, 0), Value::Symbol(2)]));
    assert!(goal.is_valid());
    let mut ours = state.clone();
    ours.registers[9] = reference(1, 0);
    ours.allocations.push(Allocation(vec![]));
    assert!(ours.satisfies(&goal));

    // Another length, another offset or another content do not satisfy.
    let mut longer = goal.clone();
    longer.allocations[1].0.push(Value::Unspecified);
    assert!(!ours.satisfies(&longer));
    let mut shifted = goal.clone();
    shifted.registers[1] = reference(1, 1);
    assert!(!ours.satisfies(&shifted));
    let mut other = goal.clone();
    other.allocations[1].0[2] = Value::Symbol(3);
    assert!(!ours.satisfies(&other));
    let mut literal = goal.clone();
    literal.registers[0] = Value::Literal(1);
    assert!(!ours.satisfies(&literal));
    let mut flagged = goal.clone();
    flagged.flags[4] = Value::Literal(1);
    assert!(!ours.satisfies(&flagged));
}

#[test]
fn satisfaction_tells_allocations_apart() {
    // Two registers that must point to two different contents cannot be met
    // by two pointers to the same allocation.
    let mut ours = State::default();
    ours.registers[0] = reference(0, 0);
    ours.registers[1] = reference(0, 0);
    ours.allocations.push(Allocation(vec![Value::Literal(1)]));
    let mut goal = State::default();
    goal.registers[0] = reference(0, 0);
    goal.registers[1] = reference(1, 0);
    goal.allocations.push(Allocation(vec![Value::Literal(1)]));
    goal.allocations.push(Allocation(vec![Value::Literal(2)]));
    assert!(!ours.satisfies(&goal));
    goal.allocations[1].0[0] = Value::Literal(1);
    assert!(ours.satisfies(&goal));
}

#[test]
fn copies_and_comparisons() {
    let state = sample();
    let copy = state.duplicate();
    assert_eq!(copy, state);
    assert!(copy.same(&state));
    let mut other = state.duplicate();
    other.allocations[0].0[2] = Value::Symbol(9);
    assert!(!other.same(&state));
    let mut other = state.duplicate();
    other.flags[6] = Value::Symbol(1);
    assert!(!other.same(&state));
    let mut other = state.duplicate();
    other.registers[1] = reference(0, 2);
    assert!(!other.same(&state));
}

fn after(state: &State, transition: Transition) -> State {
    assert!(transition.applies(state));
    let mut next = state.clone();
    transition.apply(&mut next);
    next
}

#[test]
fn transitions_apply_where_the_table_says() {
    let state = sample();
    let r = Register;
    assert!(Transition::Assign { dest: r(9), value: 1 }.applies(&state));
    assert!(Transition::Copy { dest: r(9), source: r(0) }.applies(&state));
    assert!(!Transition::Copy { dest: r(0), source: r(9) }.applies(&state));
    assert!(Transition::Swap { dest: r(9), source: r(0) }.applies(&state));
    assert!(Transition::Swap { dest: r(0), source: r(9) }.applies(&state));
    assert!(!Transition::Swap { dest: r(8), source: r(9) }.applies(&state));
    assert!(Transition::Read { dest: r(9), source: r(1), offset: 2 }.applies(&state));
    assert!(!Transition::Read { dest: r(9), source: r(1), offset: 3 }.applies(&state));
    assert!(!Transition::Read { dest: r(9), source: r(0), offset: 0 }.applies(&state));
    assert!(Transition::Write { dest: r(1), offset: 2, source: r(0) }.applies(&state));
    assert!(!Transition::Write { dest: r(1), offset: 2, source: r(9) }.applies(&state));
    assert!(!Transition::Write { dest: r(1), offset: 3, source: r(0) }.applies(&state));
    assert!(!Transition::Write { dest: r(0), offset: 0, source: r(0) }.applies(&state));
    assert!(Transition::Alloc { dest: r(0), size: 1 }.applies(&state));
    assert!(!Transition::Alloc { dest: r(0), size: 0 }.applies(&state));
    assert!(Transition::Drop { dest: r(1) }.applies(&state));
    assert!(!Transition::Drop { dest: r(0) }.applies(&state));
    let mut blank = state.clone();
    blank.allocations[0].0[2] = Value::Unspecified;
    assert!(!Transition::Read { dest: r(9), source: r(1), offset: 2 }.applies(&blank));
}

#[test]
fn transitions_change_what_the_table_says() {
    let state = sample();
    let r = Register;

    let mut expected = state.clone();
    expected.registers[9] = Value::Literal(5);
    assert_eq!(after(&state, Transition::Assign { dest: r(9), value: 5 }), expected);

    let mut expected = state.clone();
    expected.registers[9] = reference(0, 1);
    assert_eq!(after(&state, Transition::Copy { dest: r(9), source: r(2) }), expected);

    let mut expected = state.clone();
    expected.registers[0] = reference(0, 1);
    expected.registers[2] = Value::Symbol(1);
    assert_eq!(after(&state, Transition::Swap { dest: r(0), source: r(2) }), expected);
    assert_eq!(after(&state, Transition::Swap { dest: r(0), source: r(0) }), state);

    let mut expected = state.clone();
    expected.registers[9] = Value::Symbol(2);
    assert_eq!(after(&state, Transition::Read { dest: r(9), source: r(2), offset: 1 }), expected);

    let mut expected = state.clone();
    expected.allocations[0].0[0] = Value::Symbol(1);
    assert_eq!(after(&state, Transition::Write { dest: r(2), offset: -1, source: r(0) }), expected);

    let mut expected = state.clone();
    expected.registers[9] = reference(1, 0);
    expected.allocations.push(Allocation(vec![Value::Unspecified, Value::Unspecified]));
    assert_eq!(after(&state, Transition::Alloc { dest: r(9), size: 2 }), expected);
}

#[test]
fn drop_moves_the_last_allocation_into_the_gap() {
    let mut state = sample();
    state.registers[3] = reference(1, 0);
    state.registers[4] = reference(2, 0);
    state.allocations.push(Allocation(vec![reference(0, 2), reference(2, 0)]));
    state.allocations.push(Allocation(vec![reference(1, 1), Value::Literal(9)]));
    assert!(state.is_valid());
    let next = after(&state, Transition::Drop { dest: Register(1) });

    // Allocation 0 is gone, allocation 2 stands in its place.
    let mut expected = State::default();
    expected.registers[0] = Value::Symbol(1);
    expected.registers[3] = reference(1, 0);
    expected.registers[4] = reference(0, 0);
    expected.allocations.push(Allocation(vec![reference(1, 1), Value::Literal(9)]));
    expected.allocations.push(Allocation(vec![Value::Unspecified, reference(0, 0)]));
    assert_eq!(next, expected);
    assert!(next.is_valid());

    // Dropping the last allocation moves nothing.
    let last = after(&state, Transition::Drop { dest: Register(4) });
    assert_eq!(last.allocations.len(), 2);
    assert_eq!(last.registers[4], Value::Unspecified);
    assert_eq!(last.allocations[1], Allocation(vec![reference(0, 2), Value::Unspecified]));
    assert_eq!(last.allocations[0], state.allocations[0]);
}

#[test]
fn transitions_keep_states_valid_unless_they_orphan_an_allocation() {
    let state = sample();
    let r = Register;
    let keeping = [
        Transition::Assign { dest: r(9), value: 5 },
        Transition::Assign { dest: r(1), value: 5 },
        Transition::Copy { dest: r(9), source: r(2) },
        Transition::Swap { dest: r(0), source: r(2) },
        Transition::Read { dest: r(9), source: r(2), offset: 0 },
        Transition::Write { dest: r(2), offset: 1, source: r(0) },
        Transition::Alloc { dest: r(9), size: 2 },
        Transition::Drop { dest: r(1) },
    ];
    for transition in keeping.iter() {
        assert!(after(&state, *transition).is_valid(), "{:?}", transition);
    }

    // The only reference to an allocation must not be overwritten.
    let mut single = State::default();
    single.registers[0] = reference(0, 0);
    single.allocations.push(Allocation(vec![Value::Literal(1)]));
    assert!(single.is_valid());
    assert!(!after(&single, Transition::Assign { dest: r(0), value: 5 }).is_valid());
    assert!(!after(&single, Transition::Alloc { dest: r(0), size: 1 }).is_valid());
    assert!(after(&single, Transition::Drop { dest: r(0) }).is_valid());
}

#[test]
fn normal_form_orders_allocations_as_the_registers_reach_them() {
    // r3 -> B, r5 -> A, A -> [C], and D points only to itself.
    let mut state = State::default();
    state.registers[3] = reference(1, 0);
    state.registers[5] = reference(0, 2);
    state.allocations.push(Allocation(vec![reference(2, 1), Value::Symbol(1)]));
    state.allocations.push(Allocation(vec![Value::Literal(7)]));
    state.allocations.push(Allocation(vec![reference(1, 0), reference(0, 0)]));
    state.allocations.push(Allocation(vec![reference(3, 0)]));
    assert!(state.is_valid());

    let mut expected = State::default();
    expected.registers[3] = reference(0, 0);
    expected.registers[5] = reference(1, 2);
    expected.allocations.push(Allocation(vec![Value::Literal(7)]));
    expected.allocations.push(Allocation(vec![reference(2, 1), Value::Symbol(1)]));
    expected.allocations.push(Allocation(vec![reference(0, 0), reference(1, 0)]));
    expected.allocations.push(Allocation(vec![reference(3, 0)]));
    let normal = state.normalize();
    assert_eq!(normal, expected);
    assert!(normal.is_valid());
    assert_eq!(normal.normalize(), normal);

    // The same state with its allocations in another order.
    let mut other = State::default();
    other.registers[3] = reference(2, 0);
    other.registers[5] = reference(1, 2);
    other.allocations.push(Allocation(vec![reference(2, 0), reference(1, 0)]));
    other.allocations.push(Allocation(vec![reference(0, 1), Value::Symbol(1)]));
    other.allocations.push(Allocation(vec![Value::Literal(7)]));
    other.allocations.push(Allocation(vec![reference(3, 0)]));
    assert_ne!(other, state);
    assert_eq!(other.normalize(), normal);
    assert!(state.satisfies(&other));
    assert!(other.satisfies(&state));
}

#[test]
fn states_are_equivalent_up_to_the_order_of_allocations() {
    let mut a = State::default();
    a.registers[0] = reference(0, 0);
    a.registers[1] = reference(1, 0);
    a.allocations.push(Allocation(vec![Value::Literal(1)]));
    a.allocations.push(Allocation(vec![Value::Literal(2)]));
    let mut b = State::default();
    b.registers[0] = reference(1, 0);
    b.registers[1] = reference(0, 0);
    b.allocations.push(Allocation(vec![Value::Literal(2)]));
    b.allocations.push(Allocation(vec![Value::Literal(1)]));
    assert!(a.equivalent(&b));
    assert!(!a.same(&b));
    b.allocations[0].0[0] = Value::Literal(3);
    assert!(!a.equivalent(&b));
}

#[test]
fn the_missing_symbol_is_named() {
    let state = sample();
    let mut goal = State::default();
    goal.registers[0] = Value::Symbol(2);
    assert_eq!(state.missing_symbol(&goal), None);
    goal.registers[1] = Value::Symbol(7);
    goal.registers[2] = Value::Symbol(8);
    assert_eq!(state.missing_symbol(&goal), Some(7));
}
