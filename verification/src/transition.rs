use vstd::prelude::*;
use crate::state::{Allocation, Register, State, StateView};
use crate::value::Value;

verus! {

/// One primitive step of the machine.
#[derive(Clone, Copy, PartialEq, Eq, Structural, Hash, Debug)]
pub enum Transition {
    /// Put the literal `value` into register `dest`.
    Assign { dest: Register, value: u64 },
    /// Copy register `source` into register `dest`.
    Copy { dest: Register, source: Register },
    /// Exchange the registers `dest` and `source`.
    Swap { dest: Register, source: Register },
    /// Load the slot `offset` slots after where `source` points into `dest`.
    Read { dest: Register, source: Register, offset: isize },
    /// Store `source` into the slot `offset` slots after where `dest` points.
    Write { dest: Register, offset: isize, source: Register },
    /// Make a new allocation of `size` slots and point `dest` at it.
    Alloc { dest: Register, size: usize },
    /// Give up the allocation that `dest` points to.
    Drop { dest: Register },
}

/// What becomes of `value` when allocation `dropped` is removed and the
/// allocation at `moved` takes its place.
pub open spec fn rewritten(value: Value, dropped: int, moved: int) -> Value {
    match value {
        Value::Reference { index, offset } => if index == dropped {
            Value::Unspecified
        } else if index == moved {
            Value::Reference { index: dropped as usize, offset }
        } else {
            value
        },
        _ => value,
    }
}

/// The slots `slots`, each rewritten for the removal of allocation `dropped`.
pub open spec fn rewritten_slots(slots: Seq<Value>, dropped: int, moved: int) -> Seq<Value> {
    Seq::new(slots.len(), |k: int| rewritten(slots[k], dropped, moved))
}

impl Transition {
    /// Every register that the transition names exists.
    pub open spec fn wf(self) -> bool {
        match self {
            Transition::Assign { dest, .. } => dest.wf(),
            Transition::Copy { dest, source } => dest.wf() && source.wf(),
            Transition::Swap { dest, source } => dest.wf() && source.wf(),
            Transition::Read { dest, source, .. } => dest.wf() && source.wf(),
            Transition::Write { dest, source, .. } => dest.wf() && source.wf(),
            Transition::Alloc { dest, .. } => dest.wf(),
            Transition::Drop { dest } => dest.wf(),
        }
    }

    /// The precondition of the transition in state `s`.
    pub open spec fn applies_to(self, s: StateView) -> bool {
        match self {
            Transition::Assign { .. } => true,
            Transition::Copy { source, .. } => s.registers[source.idx()].specified(),
            Transition::Swap { dest, source } => s.registers[dest.idx()].specified()
                || s.registers[source.idx()].specified(),
            Transition::Read { source, offset, .. } => {
                match s.resolve(s.registers[source.idx()], offset as int) {
                    Some(value) => value.specified(),
                    None => false,
                }
            },
            Transition::Write { dest, offset, source } => s.registers[source.idx()].specified()
                && s.resolve(s.registers[dest.idx()], offset as int) is Some,
            Transition::Alloc { size, .. } => size > 0,
            Transition::Drop { dest } => s.registers[dest.idx()] is Reference,
        }
    }

    /// A `Drop` can only be carried out on a reference to an allocation that exists.
    pub open spec fn grounded_in(self, s: StateView) -> bool {
        self matches Transition::Drop { dest } ==> s.in_range(s.registers[dest.idx()])
    }

    /// The state that the transition leaves when carried out in state `s`.
    pub open spec fn after(self, s: StateView) -> StateView {
        match self {
            Transition::Assign { dest, value } => StateView {
                registers: s.registers.update(dest.idx(), Value::Literal(value)),
                ..s
            },
            Transition::Copy { dest, source } => StateView {
                registers: s.registers.update(dest.idx(), s.registers[source.idx()]),
                ..s
            },
            Transition::Swap { dest, source } => StateView {
                registers: s.registers.update(dest.idx(), s.registers[source.idx()]).update(
                    source.idx(),
                    s.registers[dest.idx()],
                ),
                ..s
            },
            Transition::Read { dest, source, offset } => StateView {
                registers: s.registers.update(
                    dest.idx(),
                    s.resolve(s.registers[source.idx()], offset as int).unwrap(),
                ),
                ..s
            },
            Transition::Write { dest, offset, source } => {
                match s.registers[dest.idx()] {
                    Value::Reference { index, offset: base } => StateView {
                        allocations: s.allocations.update(
                            index as int,
                            s.allocations[index as int].update(base + offset, s.registers[source.idx()]),
                        ),
                        ..s
                    },
                    _ => s,
                }
            },
            Transition::Alloc { dest, size } => StateView {
                registers: s.registers.update(
                    dest.idx(),
                    Value::Reference { index: s.allocations.len() as usize, offset: 0 },
                ),
                flags: s.flags,
                allocations: s.allocations.push(Seq::new(size as nat, |k: int| Value::Unspecified)),
            },
            Transition::Drop { dest } => {
                match s.registers[dest.idx()] {
                    Value::Reference { index, .. } => {
                        let moved = s.allocations.len() - 1;
                        let kept = s.allocations.update(index as int, s.allocations[moved]).drop_last();
                        StateView {
                            registers: rewritten_slots(s.registers, index as int, moved),
                            flags: s.flags,
                            allocations: Seq::new(
                                kept.len(),
                                |a: int| rewritten_slots(kept[a], index as int, moved),
                            ),
                        }
                    },
                    _ => s,
                }
            },
        }
    }

    /// Whether the transition's precondition holds in `state`.
    pub fn applies(&self, state: &State) -> (r: bool)
        requires
            self.wf(),
        ensures
            r == self.applies_to(state@),
    {
        match *self {
            Transition::Assign { .. } => true,
            Transition::Copy { source, .. } => state.get_register(source).is_specified(),
            Transition::Swap { dest, source } => state.get_register(dest).is_specified()
                || state.get_register(source).is_specified(),
            Transition::Read { source, offset, .. } => {
                match state.get_reference(source, offset) {
                    Some(value) => value.is_specified(),
                    None => false,
                }
            },
            Transition::Write { dest, offset, source } => state.get_register(source).is_specified()
                && state.get_reference(dest, offset).is_some(),
            Transition::Alloc { size, .. } => size > 0,
            Transition::Drop { dest } => {
                match state.get_register(dest) {
                    Value::Reference { .. } => true,
                    _ => false,
                }
            },
        }
    }
}

/// `value` as it reads once allocation `dropped` is gone and the allocation at
/// `moved` stands in its place.
fn rewrite(value: Value, dropped: usize, moved: usize) -> (r: Value)
    ensures
        r == rewritten(value, dropped as int, moved as int),
{
    match value {
        Value::Reference { index, offset } => {
            if index == dropped {
                Value::Unspecified
            } else if index == moved {
                Value::Reference { index: dropped, offset }
            } else {
                value
            }
        },
        _ => value,
    }
}

/// An allocation's worth of `size` unspecified slots.
fn unspecified_slots(size: usize) -> (r: Vec<Value>)
    ensures
        r@ == Seq::new(size as nat, |k: int| Value::Unspecified),
{
    let mut slots: Vec<Value> = Vec::new();
    let mut k: usize = 0;
    while k < size
        invariant
            k <= size,
            slots@ == Seq::new(k as nat, |j: int| Value::Unspecified),
        decreases size - k,
    {
        slots.push(Value::Unspecified);
        assert(slots@ =~= Seq::new((k + 1) as nat, |j: int| Value::Unspecified));
        k += 1;
    }
    slots
}

impl Transition {
    /// Carries the transition out on `state`.
    pub fn apply(&self, state: &mut State)
        requires
            self.wf(),
            self.applies_to(old(state)@),
            self.grounded_in(old(state)@),
        ensures
            final(state)@ == self.after(old(state)@),
    {
        match *self {
            Transition::Assign { dest, value } => {
                state.set_register(dest, Value::Literal(value));
            },
            Transition::Copy { dest, source } => {
                let value = state.get_register(source);
                state.set_register(dest, value);
            },
            Transition::Swap { dest, source } => {
                let ours = state.get_register(dest);
                let theirs = state.get_register(source);
                state.set_register(dest, theirs);
                state.set_register(source, ours);
            },
            Transition::Read { dest, source, offset } => {
                match state.get_reference(source, offset) {
                    Some(value) => state.set_register(dest, value),
                    None => {},
                }
            },
            Transition::Write { dest, offset, source } => {
                match state.get_register(dest) {
                    Value::Reference { index, offset: base } => {
                        let value = state.get_register(source);
                        let position: i128 = base as i128 + offset as i128;
                        state.set_slot(index, position as usize, value);
                    },
                    _ => {},
                }
            },
            Transition::Alloc { dest, size } => {
                let index = state.allocations.len();
                state.set_register(dest, Value::Reference { index, offset: 0 });
                state.allocations.push(Allocation(unspecified_slots(size)));
                assert(state@.allocations =~= old(state)@.allocations.push(
                    Seq::new(size as nat, |k: int| Value::Unspecified),
                ));
            },
            Transition::Drop { dest } => {
                match state.get_register(dest) {
                    Value::Reference { index, .. } => {
                        state.allocations.swap_remove(index);
                        let moved = state.allocations.len();
                        state.forget(index, moved);
                        assert(state@.allocations =~= self.after(old(state)@).allocations);
                    },
                    _ => {},
                }
            },
        }
    }
}

impl State {
    /// Rewrites every reference for the removal of allocation `dropped`, whose
    /// place the allocation formerly at `moved` has taken.
    fn forget(&mut self, dropped: usize, moved: usize)
        ensures
            final(self)@.registers == rewritten_slots(old(self)@.registers, dropped as int, moved as int),
            final(self)@.flags == old(self)@.flags,
            final(self)@.allocations == Seq::new(
                old(self)@.allocations.len(),
                |a: int| rewritten_slots(old(self)@.allocations[a], dropped as int, moved as int),
            ),
    {
        let ghost before = self@;
        let mut r: usize = 0;
        while r < 16
            invariant
                r <= 16,
                self@.flags == before.flags,
                self@.allocations == before.allocations,
                self@.registers.len() == 16,
                forall|q: int| 0 <= q < r ==> self@.registers[q] == rewritten(
                    before.registers[q],
                    dropped as int,
                    moved as int,
                ),
                forall|q: int| r <= q < 16 ==> self@.registers[q] == before.registers[q],
            decreases 16 - r,
        {
            let value = rewrite(self.registers[r], dropped, moved);
            self.registers[r] = value;
            assert(self@.allocations =~= before.allocations);
            r += 1;
        }
        assert(self@.registers =~= rewritten_slots(before.registers, dropped as int, moved as int));
        let ghost registers = self@.registers;
        let n = self.allocations.len();
        let mut a: usize = 0;
        while a < n
            invariant
                a <= n,
                n == before.allocations.len(),
                self@.flags == before.flags,
                self@.registers == registers,
                self@.allocations.len() == n,
                forall|b: int| 0 <= b < a ==> self@.allocations[b] == rewritten_slots(
                    before.allocations[b],
                    dropped as int,
                    moved as int,
                ),
                forall|b: int| a <= b < n ==> self@.allocations[b] == before.allocations[b],
            decreases n - a,
        {
            let len = self.allocations[a].len();
            let mut k: usize = 0;
            while k < len
                invariant
                    a < n,
                    k <= len,
                    n == before.allocations.len(),
                    len == before.allocations[a as int].len(),
                    self@.flags == before.flags,
                    self@.registers == registers,
                    self@.allocations.len() == n,
                    self@.allocations[a as int].len() == len,
                    forall|b: int| 0 <= b < a ==> self@.allocations[b] == rewritten_slots(
                        before.allocations[b],
                        dropped as int,
                        moved as int,
                    ),
                    forall|b: int| a < b < n ==> self@.allocations[b] == before.allocations[b],
                    forall|j: int| 0 <= j < k ==> self@.allocations[a as int][j] == rewritten(
                        before.allocations[a as int][j],
                        dropped as int,
                        moved as int,
                    ),
                    forall|j: int| k <= j < len ==> self@.allocations[a as int][j]
                        == before.allocations[a as int][j],
                decreases len - k,
            {
                let value = rewrite(self.allocations[a].0[k], dropped, moved);
                self.set_slot(a, k, value);
                k += 1;
            }
            assert(self@.allocations[a as int] =~= rewritten_slots(
                before.allocations[a as int],
                dropped as int,
                moved as int,
            ));
            a += 1;
        }
        assert(self@.allocations =~= Seq::new(
            before.allocations.len(),
            |a: int| rewritten_slots(before.allocations[a], dropped as int, moved as int),
        ));
    }
}

/// A transition that applies to a well-formed state leaves a well-formed
/// state, provided an `Alloc` finds room for one more allocation.
pub proof fn lemma_after_wf(s: StateView, t: Transition)
    requires
        s.wf(),
        t.wf(),
        t.applies_to(s),
        t.grounded_in(s),
        t is Alloc ==> s.allocations.len() < usize::MAX,
    ensures
        t.after(s).wf(),
{
    let n = t.after(s);
    match t {
        Transition::Write { dest, offset, source } => {
            match s.registers[dest.idx()] {
                Value::Reference { index, offset: base } => {
                    assert forall|a: int| 0 <= a < n.allocations.len() implies (
                    #[trigger] n.allocations[a]).len() <= usize::MAX by {
                        assert(n.allocations[a].len() == s.allocations[a].len());
                    }
                },
                _ => {},
            }
        },
        Transition::Alloc { dest, size } => {
            assert forall|a: int| 0 <= a < n.allocations.len() implies (#[trigger] n.allocations[a]).len()
                <= usize::MAX by {
                if a < s.allocations.len() {
                    assert(n.allocations[a] == s.allocations[a]);
                }
            }
        },
        Transition::Drop { dest } => {
            match s.registers[dest.idx()] {
                Value::Reference { index, .. } => {
                    let moved = s.allocations.len() - 1;
                    assert forall|a: int| 0 <= a < n.allocations.len() implies (
                    #[trigger] n.allocations[a]).len() <= usize::MAX by {
                        if a == index {
                            assert(n.allocations[a].len() == s.allocations[moved].len());
                        } else {
                            assert(n.allocations[a].len() == s.allocations[a].len());
                        }
                    }
                },
                _ => {},
            }
        },
        _ => {},
    }
}

/// No transition makes a reference dangle or puts a value into a flag that a
/// flag cannot hold.
pub proof fn lemma_after_keeps_references(s: StateView, t: Transition)
    requires
        s.wf(),
        s.references_in_range(),
        s.flags_boolean(),
        t.wf(),
        t.applies_to(s),
        t is Alloc ==> s.allocations.len() < usize::MAX,
    ensures
        t.after(s).references_in_range(),
        t.after(s).flags_boolean(),
{
    let n = t.after(s);
    match t {
        Transition::Assign { dest, value } => {
            assert forall|r: int| 0 <= r < n.registers.len() implies n.in_range(
                #[trigger] n.registers[r],
            ) by {
                if r != dest.idx() {
                    assert(s.in_range(s.registers[r]));
                }
            }
            assert forall|a: int, k: int|
                0 <= a < n.allocations.len() && 0 <= k < n.allocations[a].len() implies n.in_range(
                #[trigger] n.allocations[a][k],
            ) by {
                assert(s.in_range(s.allocations[a][k]));
            }
        },
        Transition::Copy { dest, source } => {
            assert forall|r: int| 0 <= r < n.registers.len() implies n.in_range(
                #[trigger] n.registers[r],
            ) by {
                if r != dest.idx() {
                    assert(s.in_range(s.registers[r]));
                } else {
                    assert(s.in_range(s.registers[source.idx()]));
                }
            }
            assert forall|a: int, k: int|
                0 <= a < n.allocations.len() && 0 <= k < n.allocations[a].len() implies n.in_range(
                #[trigger] n.allocations[a][k],
            ) by {
                assert(s.in_range(s.allocations[a][k]));
            }
        },
        Transition::Swap { dest, source } => {
            assert forall|r: int| 0 <= r < n.registers.len() implies n.in_range(
                #[trigger] n.registers[r],
            ) by {
                assert(s.in_range(s.registers[r]));
                assert(s.in_range(s.registers[source.idx()]));
                assert(s.in_range(s.registers[dest.idx()]));
            }
            assert forall|a: int, k: int|
                0 <= a < n.allocations.len() && 0 <= k < n.allocations[a].len() implies n.in_range(
                #[trigger] n.allocations[a][k],
            ) by {
                assert(s.in_range(s.allocations[a][k]));
            }
        },
        Transition::Read { dest, source, offset } => {
            match s.registers[source.idx()] {
                Value::Reference { index, offset: base } => {
                    assert(s.in_range(s.allocations[index as int][base + offset]));
                },
                _ => {},
            }
            assert forall|r: int| 0 <= r < n.registers.len() implies n.in_range(
                #[trigger] n.registers[r],
            ) by {
                if r != dest.idx() {
                    assert(s.in_range(s.registers[r]));
                }
            }
            assert forall|a: int, k: int|
                0 <= a < n.allocations.len() && 0 <= k < n.allocations[a].len() implies n.in_range(
                #[trigger] n.allocations[a][k],
            ) by {
                assert(s.in_range(s.allocations[a][k]));
            }
        },
        Transition::Write { dest, offset, source } => {
            match s.registers[dest.idx()] {
                Value::Reference { index, offset: base } => {
                    assert forall|r: int| 0 <= r < n.registers.len() implies n.in_range(
                        #[trigger] n.registers[r],
                    ) by {
                        assert(s.in_range(s.registers[r]));
                    }
                    assert forall|a: int, k: int|
                        0 <= a < n.allocations.len() && 0 <= k < n.allocations[a].len() implies n.in_range(
                        #[trigger] n.allocations[a][k],
                    ) by {
                        if a == index && k == base + offset {
                            assert(s.in_range(s.registers[source.idx()]));
                        } else {
                            assert(s.in_range(s.allocations[a][k]));
                        }
                    }
                },
                _ => {},
            }
        },
        Transition::Alloc { dest, size } => {
            assert forall|r: int| 0 <= r < n.registers.len() implies n.in_range(
                #[trigger] n.registers[r],
            ) by {
                if r != dest.idx() {
                    assert(s.in_range(s.registers[r]));
                }
            }
            assert forall|a: int, k: int|
                0 <= a < n.allocations.len() && 0 <= k < n.allocations[a].len() implies n.in_range(
                #[trigger] n.allocations[a][k],
            ) by {
                if a < s.allocations.len() {
                    assert(s.in_range(s.allocations[a][k]));
                }
            }
        },
        Transition::Drop { dest } => {
            match s.registers[dest.idx()] {
                Value::Reference { index, .. } => {
                    assert(s.in_range(s.registers[dest.idx()]));
                    let moved = s.allocations.len() - 1;
                    let kept = s.allocations.update(index as int, s.allocations[moved]).drop_last();
                    assert forall|r: int| 0 <= r < n.registers.len() implies n.in_range(
                        #[trigger] n.registers[r],
                    ) by {
                        assert(s.in_range(s.registers[r]));
                    }
                    assert forall|a: int, k: int|
                        0 <= a < n.allocations.len() && 0 <= k < n.allocations[a].len() implies n.in_range(
                        #[trigger] n.allocations[a][k],
                    ) by {
                        if a == index {
                            assert(s.in_range(s.allocations[moved][k]));
                        } else {
                            assert(s.in_range(s.allocations[a][k]));
                        }
                    }
                },
                _ => {},
            }
        },
    }
}

/// A transition that applies to a valid state leaves a valid state, unless it
/// takes the last reference to some allocation away: the post-state is valid
/// whenever each of its allocations is still referenced.
pub proof fn lemma_after_valid(s: StateView, t: Transition)
    requires
        s.wf(),
        s.valid(),
        t.wf(),
        t.applies_to(s),
        t is Alloc ==> s.allocations.len() < usize::MAX,
        t.after(s).every_allocation_referenced(),
    ensures
        t.after(s).valid(),
{
    lemma_after_keeps_references(s, t);
}

} // verus!
