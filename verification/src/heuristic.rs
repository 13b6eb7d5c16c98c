use vstd::prelude::*;
use crate::state::{Allocation, Register, State, StateView};
use crate::transition::Transition;
use crate::value::Value;

verus! {

/// The cost that stands for "cannot be had": the largest a cost can be.
pub open spec fn unbounded() -> nat {
    usize::MAX as nat
}

/// The sum of two costs, which never passes `unbounded()`.
pub open spec fn plus(a: nat, b: nat) -> nat {
    if a + b >= usize::MAX {
        usize::MAX as nat
    } else {
        a + b
    }
}

/// The lesser of two costs.
pub open spec fn lesser(a: nat, b: nat) -> nat {
    if a <= b {
        a
    } else {
        b
    }
}

/// The cost of moving a reference to where it is wanted: the cheaper of a
/// copy and a swap.
pub open spec fn relocation_cost() -> nat {
    lesser(
        (Transition::Copy { dest: Register(0), source: Register(0) }).cost_of(),
        (Transition::Swap { dest: Register(0), source: Register(0) }).cost_of(),
    )
}

/// The cost of storing a register into an allocation slot.
pub open spec fn write_cost() -> nat {
    (Transition::Write { dest: Register(0), offset: 0, source: Register(0) }).cost_of()
}

/// The cost of bringing the content of register `source` to `dest`: nothing
/// when no place in particular is asked for or the content is in place, else
/// the cheaper of a copy and a swap.
pub open spec fn move_cost(dest: Option<Register>, source: Register) -> nat {
    match dest {
        None => 0,
        Some(d) => if d == source {
            0
        } else {
            lesser(
                (Transition::Copy { dest: d, source }).cost_of(),
                (Transition::Swap { dest: d, source }).cost_of(),
            )
        },
    }
}

/// The least cost of bringing `value` to `dest` from one of the registers
/// below `upto` that hold it; `unbounded()` when none does.
pub open spec fn from_registers(s: StateView, dest: Option<Register>, value: Value, upto: int) -> nat
    decreases upto,
{
    if upto <= 0 {
        unbounded()
    } else {
        let rest = from_registers(s, dest, value, upto - 1);
        if s.registers[upto - 1] == value {
            lesser(rest, move_cost(dest, Register((upto - 1) as u8)))
        } else {
            rest
        }
    }
}

/// Some allocation slot of `s` holds `value`.
pub open spec fn stored(s: StateView, value: Value) -> bool {
    exists|a: int, k: int|
        0 <= a < s.allocations.len() && 0 <= k < s.allocations[a].len() && #[trigger] s.allocations[a][k]
            == value
}

/// A lower bound on the cost of having `value` in register `dest`, or in any
/// register when `dest` is `None`, starting from state `s`.
pub open spec fn register_set_cost(s: StateView, dest: Option<Register>, value: Value) -> nat {
    match value {
        Value::Unspecified => 0,
        Value::Reference { .. } => {
            if dest is Some && s.registers[dest.unwrap().idx()] is Reference {
                0
            } else {
                relocation_cost()
            }
        },
        _ => {
            let target = match dest {
                Some(d) => d,
                None => Register(0),
            };
            let moved = from_registers(s, dest, value, 16);
            let direct = match value {
                Value::Literal(n) => lesser(moved, (Transition::Assign { dest: target, value: n }).cost_of()),
                _ => moved,
            };
            let read = (Transition::Read { dest: target, source: Register(0), offset: 0 }).cost_of();
            if direct <= read {
                direct
            } else if stored(s, value) {
                read
            } else {
                direct
            }
        },
    }
}

/// The sum of the costs of having each goal register below `upto` in place.
pub open spec fn registers_cost(s: StateView, goal: StateView, upto: int) -> nat
    decreases upto,
{
    if upto <= 0 {
        0
    } else {
        plus(
            registers_cost(s, goal, upto - 1),
            register_set_cost(s, Some(Register((upto - 1) as u8)), goal.registers[upto - 1]),
        )
    }
}

/// The cost of filling the specified slots below `upto` of a goal allocation.
pub open spec fn fill_cost(s: StateView, wanted: Seq<Value>, upto: int) -> nat
    decreases upto,
{
    if upto <= 0 {
        0
    } else {
        let rest = fill_cost(s, wanted, upto - 1);
        if wanted[upto - 1].specified() {
            plus(rest, plus(write_cost(), register_set_cost(s, None, wanted[upto - 1])))
        } else {
            rest
        }
    }
}

/// The cost of turning the allocation `ours` into one that holds what
/// `wanted` asks for, counting the slots below `upto`.
pub open spec fn change_cost(s: StateView, ours: Seq<Value>, wanted: Seq<Value>, upto: int) -> nat
    decreases upto,
{
    if upto <= 0 {
        0
    } else {
        let rest = change_cost(s, ours, wanted, upto - 1);
        if !wanted[upto - 1].specified() || ours[upto - 1] == wanted[upto - 1] {
            rest
        } else {
            plus(rest, plus(write_cost(), register_set_cost(s, None, wanted[upto - 1])))
        }
    }
}

/// The cost of making the goal allocation from nothing: allocate and fill.
/// The allocation puts its reference into a register, so one relocation
/// that the register costs count is taken back.
pub open spec fn fresh_cost(s: StateView, wanted: Seq<Value>) -> nat {
    plus(
        ((Transition::Alloc { dest: Register(0), size: wanted.len() as usize }).cost_of()
            - relocation_cost()) as nat,
        fill_cost(s, wanted, wanted.len() as int),
    )
}

/// The least of `base` and the costs of changing one of the allocations
/// below `upto` that have the wanted length.
pub open spec fn best_cost(s: StateView, wanted: Seq<Value>, upto: int, base: nat) -> nat
    decreases upto,
{
    if upto <= 0 {
        base
    } else {
        let rest = best_cost(s, wanted, upto - 1, base);
        if s.allocations[upto - 1].len() == wanted.len() {
            lesser(rest, change_cost(s, s.allocations[upto - 1], wanted, wanted.len() as int))
        } else {
            rest
        }
    }
}

/// A lower bound on the cost of having the goal allocation `wanted`.
pub open spec fn allocation_cost(s: StateView, wanted: Seq<Value>) -> nat {
    best_cost(s, wanted, s.allocations.len() as int, fresh_cost(s, wanted))
}

/// The sum of the costs of the goal allocations below `upto`.
pub open spec fn allocations_cost(s: StateView, goal: StateView, upto: int) -> nat
    decreases upto,
{
    if upto <= 0 {
        0
    } else {
        plus(allocations_cost(s, goal, upto - 1), allocation_cost(s, goal.allocations[upto - 1]))
    }
}

/// The heuristic distance from `s` to `goal`: `unbounded()` when the goal asks
/// for a symbol that `s` lacks, else the register costs plus the allocation costs.
pub open spec fn heuristic(s: StateView, goal: StateView) -> nat {
    if !s.reachable(goal) {
        unbounded()
    } else {
        plus(registers_cost(s, goal, 16), allocations_cost(s, goal, goal.allocations.len() as int))
    }
}

impl StateView {
    /// Every allocation is small enough for an `Alloc` to make it.
    pub open spec fn allocatable(self) -> bool {
        forall|a: int| 0 <= a < self.allocations.len() ==> (#[trigger] self.allocations[a]).len() <= 0xffff_ffff
    }
}

/// The sum of two costs, capped at the largest cost.
fn add_costs(a: usize, b: usize) -> (r: usize)
    ensures
        r == plus(a as nat, b as nat),
{
    if a >= usize::MAX - b {
        usize::MAX
    } else {
        a + b
    }
}

/// The lesser of two costs.
fn least(a: usize, b: usize) -> (r: usize)
    ensures
        r == lesser(a as nat, b as nat),
{
    if a <= b {
        a
    } else {
        b
    }
}

/// The cost of a copy or a swap between `dest` and `source`, whichever is less.
fn copy_or_swap(dest: Register, source: Register) -> (r: usize)
    requires
        dest.wf(),
        source.wf(),
    ensures
        r == lesser(
            (Transition::Copy { dest, source }).cost_of(),
            (Transition::Swap { dest, source }).cost_of(),
        ),
{
    least((Transition::Copy { dest, source }).cost(), (Transition::Swap { dest, source }).cost())
}

impl State {
    /// Whether some allocation slot holds `value`.
    fn is_stored(&self, value: Value) -> (r: bool)
        ensures
            r == stored(self@, value),
    {
        let n = self.allocations.len();
        let mut a: usize = 0;
        while a < n
            invariant
                n == self.allocations.len(),
                a <= n,
                forall|b: int, k: int|
                    0 <= b < a && 0 <= k < self@.allocations[b].len() ==> #[trigger] self@.allocations[b][k]
                        != value,
            decreases n - a,
        {
            let len = self.allocations[a].len();
            let mut k: usize = 0;
            while k < len
                invariant
                    n == self.allocations.len(),
                    a < n,
                    len == self@.allocations[a as int].len(),
                    k <= len,
                    forall|j: int| 0 <= j < k ==> #[trigger] self@.allocations[a as int][j] != value,
                decreases len - k,
            {
                if self.allocations[a].0[k] == value {
                    assert(self@.allocations[a as int][k as int] == value);
                    return true;
                }
                k += 1;
            }
            a += 1;
        }
        false
    }

    /// A lower bound on the cost of having `value` in register `dest`, or in
    /// any register when `dest` is `None`.
    pub fn register_set_cost(&self, dest: Option<Register>, value: Value) -> (r: usize)
        requires
            dest matches Some(d) ==> d.wf(),
        ensures
            r == register_set_cost(self@, dest, value),
    {
        match value {
            Value::Unspecified => {
                return 0;
            },
            Value::Reference { .. } => {
                if let Some(d) = dest {
                    if let Value::Reference { .. } = self.get_register(d) {
                        return 0;
                    }
                }
                return copy_or_swap(Register(0), Register(0));
            },
            _ => {},
        }
        let mut cost = usize::MAX;
        let mut i: u8 = 0;
        while i < 16
            invariant
                i <= 16,
                dest matches Some(d) ==> d.wf(),
                cost == from_registers(self@, dest, value, i as int),
            decreases 16 - i,
        {
            let source = Register(i);
            if value == self.get_register(source) {
                let step = match dest {
                    None => 0,
                    Some(d) => if d.as_u8() == i {
                        0
                    } else {
                        copy_or_swap(d, source)
                    },
                };
                cost = least(cost, step);
            }
            i += 1;
        }
        let target = match dest {
            Some(d) => d,
            None => Register(0),
        };
        if let Value::Literal(n) = value {
            cost = least(cost, (Transition::Assign { dest: target, value: n }).cost());
        }
        let read = (Transition::Read { dest: target, source: Register(0), offset: 0 }).cost();
        if cost <= read {
            return cost;
        }
        if self.is_stored(value) {
            return read;
        }
        cost
    }

    /// The cost of writing `wanted` where `ours` differs from it; with no
    /// `ours`, the cost of writing every specified slot of `wanted`.
    fn slots_cost(&self, ours: Option<&Allocation>, wanted: &Allocation) -> (r: usize)
        requires
            ours matches Some(a) ==> a@.len() == wanted@.len(),
        ensures
            r == match ours {
                Some(a) => change_cost(self@, a@, wanted@, wanted@.len() as int),
                None => fill_cost(self@, wanted@, wanted@.len() as int),
            },
    {
        let write = (Transition::Write { dest: Register(0), offset: 0, source: Register(0) }).cost();
        let len = wanted.len();
        let mut cost: usize = 0;
        let mut k: usize = 0;
        while k < len
            invariant
                k <= len,
                len == wanted@.len(),
                write == write_cost(),
                ours matches Some(a) ==> a@.len() == wanted@.len(),
                cost == match ours {
                    Some(a) => change_cost(self@, a@, wanted@, k as int),
                    None => fill_cost(self@, wanted@, k as int),
                },
            decreases len - k,
        {
            let want = wanted.0[k];
            let settled = match ours {
                Some(a) => a.0[k] == want,
                None => false,
            };
            if want.is_specified() && !settled {
                cost = add_costs(cost, add_costs(write, self.register_set_cost(None, want)));
            }
            k += 1;
        }
        cost
    }

    /// The heuristic distance to `goal`: a cheap estimate of the cost of the
    /// transitions that lead from this state to one that satisfies `goal`.
    /// It is the largest cost there is when the goal cannot be reached.
    pub fn min_distance(&self, goal: &State) -> (r: usize)
        requires
            goal@.allocatable(),
        ensures
            r == heuristic(self@, goal@),
    {
        if !self.reachable(goal) {
            return usize::MAX;
        }
        let mut cost: usize = 0;
        let mut i: u8 = 0;
        while i < 16
            invariant
                i <= 16,
                cost == registers_cost(self@, goal@, i as int),
            decreases 16 - i,
        {
            let wanted = goal.get_register(Register(i));
            cost = add_costs(cost, self.register_set_cost(Some(Register(i)), wanted));
            i += 1;
        }
        let relocation = copy_or_swap(Register(0), Register(0));
        let n = goal.allocations.len();
        let m = self.allocations.len();
        let mut total: usize = 0;
        let mut j: usize = 0;
        while j < n
            invariant
                j <= n,
                n == goal.allocations.len(),
                m == self.allocations.len(),
                goal@.allocatable(),
                relocation == relocation_cost(),
                total == allocations_cost(self@, goal@, j as int),
            decreases n - j,
        {
            let wanted = &goal.allocations[j];
            assert(wanted@ == goal@.allocations[j as int]);
            let make = (Transition::Alloc { dest: Register(0), size: wanted.len() }).cost();
            let mut best = add_costs(make - relocation, self.slots_cost(None, wanted));
            let mut a: usize = 0;
            while a < m
                invariant
                    a <= m,
                    m == self.allocations.len(),
                    best == best_cost(self@, wanted@, a as int, fresh_cost(self@, wanted@)),
                decreases m - a,
            {
                let ours = &self.allocations[a];
                assert(ours@ == self@.allocations[a as int]);
                if ours.len() == wanted.len() {
                    best = least(best, self.slots_cost(Some(ours), wanted));
                }
                a += 1;
            }
            total = add_costs(total, best);
            j += 1;
        }
        add_costs(cost, total)
    }
}

} // verus!
