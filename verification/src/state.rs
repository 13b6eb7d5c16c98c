use vstd::prelude::*;
use crate::marks::{any_cleared, assign, bits, cleared, max_marks, Marks};
use crate::value::Value;

verus! {

/// Number of general-purpose registers of the machine.
pub const REGISTER_COUNT: usize = 16;

/// Number of flag slots of the machine.
pub const FLAG_COUNT: usize = 7;

/// A general-purpose register, named by its hardware number.
#[derive(Clone, Copy, PartialEq, Eq, Structural, Hash, Debug)]
pub struct Register(pub u8);

impl Register {
    /// A register names one of the sixteen slots of the register file.
    pub open spec fn wf(self) -> bool {
        self.0 < 16
    }

    /// The register's number as a mathematical index.
    pub open spec fn idx(self) -> int {
        self.0 as int
    }

    pub fn as_u8(&self) -> (r: u8)
        ensures
            r == self.0,
    {
        self.0
    }
}

/// One of the seven processor flags.
#[derive(Clone, Copy, PartialEq, Eq, Structural, Hash, Debug)]
pub enum Flag {
    Carry,
    Parity,
    Adjust,
    Zero,
    Sign,
    Direction,
    Overflow,
}

impl Flag {
    /// Position of the flag in a state's flag slots.
    pub open spec fn idx(self) -> int {
        match self {
            Flag::Carry => 0,
            Flag::Parity => 1,
            Flag::Adjust => 2,
            Flag::Zero => 3,
            Flag::Sign => 4,
            Flag::Direction => 5,
            Flag::Overflow => 6,
        }
    }

    pub fn index(&self) -> (r: usize)
        ensures
            r == self.idx(),
            r < FLAG_COUNT,
    {
        match self {
            Flag::Carry => 0,
            Flag::Parity => 1,
            Flag::Adjust => 2,
            Flag::Zero => 3,
            Flag::Sign => 4,
            Flag::Direction => 5,
            Flag::Overflow => 6,
        }
    }
}

/// A heap object: a fixed-length sequence of slots.
#[derive(Clone, PartialEq, Eq, Hash, Debug)]
pub struct Allocation(pub Vec<Value>);

impl View for Allocation {
    type V = Seq<Value>;

    open spec fn view(&self) -> Seq<Value> {
        self.0@
    }
}

impl Allocation {
    pub fn len(&self) -> (r: usize)
        ensures
            r == self@.len(),
    {
        self.0.len()
    }
}

/// The abstract machine: registers, flags and the allocations they point to.
#[derive(Clone, PartialEq, Eq, Hash, Debug)]
pub struct State {
    pub registers: [Value; 16],
    pub flags: [Value; 7],
    pub allocations: Vec<Allocation>,
}

/// Mathematical content of a [`State`].
pub struct StateView {
    pub registers: Seq<Value>,
    pub flags: Seq<Value>,
    pub allocations: Seq<Seq<Value>>,
}

impl View for State {
    type V = StateView;

    open spec fn view(&self) -> StateView {
        StateView {
            registers: self.registers@,
            flags: self.flags@,
            allocations: Seq::new(self.allocations@.len(), |i: int| self.allocations@[i]@),
        }
    }
}

/// Whether `value` is a reference to allocation `index`.
pub open spec fn refers_to(value: Value, index: int) -> bool {
    value matches Value::Reference { index: i, .. } && i == index
}

/// Whether a flag slot may hold `value`: nothing, a symbol, or a boolean literal.
pub open spec fn flag_content(value: Value) -> bool {
    match value {
        Value::Unspecified => true,
        Value::Symbol(_) => true,
        Value::Literal(n) => n <= 1,
        Value::Reference { .. } => false,
    }
}

/// The slots of all allocations, one allocation after the other.
pub open spec fn concat_all(allocations: Seq<Seq<Value>>) -> Seq<Value>
    decreases allocations.len(),
{
    if allocations.len() == 0 {
        Seq::empty()
    } else {
        concat_all(allocations.drop_last()) + allocations.last()
    }
}

impl StateView {
    /// The register file has sixteen slots, there are seven flags, and the
    /// allocations and their slots can be counted by the machine.
    pub open spec fn wf(self) -> bool {
        &&& self.registers.len() == 16
        &&& self.flags.len() == 7
        &&& self.allocations.len() <= usize::MAX
        &&& forall|a: int| 0 <= a < self.allocations.len() ==> (#[trigger] self.allocations[a]).len() <= usize::MAX
    }

    /// Every slot of the state: registers, then flags, then the allocations in order.
    pub open spec fn slots(self) -> Seq<Value> {
        self.registers + self.flags + concat_all(self.allocations)
    }

    /// `value` is no reference, or refers to an allocation that exists.
    pub open spec fn in_range(self, value: Value) -> bool {
        value matches Value::Reference { index, .. } ==> index < self.allocations.len()
    }

    /// Every reference held by a register or an allocation slot names an
    /// existing allocation.
    pub open spec fn references_in_range(self) -> bool {
        &&& forall|r: int| 0 <= r < self.registers.len() ==> self.in_range(#[trigger] self.registers[r])
        &&& forall|a: int, k: int|
            0 <= a < self.allocations.len() && 0 <= k < self.allocations[a].len() ==> self.in_range(
                #[trigger] self.allocations[a][k],
            )
    }

    /// Some register refers to allocation `index`.
    pub open spec fn register_refers(self, index: int) -> bool {
        exists|r: int| 0 <= r < self.registers.len() && refers_to(#[trigger] self.registers[r], index)
    }

    /// Some allocation slot refers to allocation `index`.
    pub open spec fn slot_refers(self, index: int) -> bool {
        exists|a: int, k: int|
            0 <= a < self.allocations.len() && 0 <= k < self.allocations[a].len() && refers_to(
                #[trigger] self.allocations[a][k],
                index,
            )
    }

    /// Allocation `index` is referenced from a register or from an allocation.
    pub open spec fn referenced(self, index: int) -> bool {
        self.register_refers(index) || self.slot_refers(index)
    }

    /// No allocation is orphaned.
    pub open spec fn every_allocation_referenced(self) -> bool {
        forall|i: int| 0 <= i < self.allocations.len() ==> #[trigger] self.referenced(i)
    }

    /// Flag slots hold nothing, a symbol, or a boolean literal.
    pub open spec fn flags_boolean(self) -> bool {
        forall|f: int| 0 <= f < self.flags.len() ==> flag_content(#[trigger] self.flags[f])
    }

    /// What `value` points to when moved by `offset` slots: the slot's content,
    /// or `None` when `value` is no reference or the slot does not exist.
    pub open spec fn resolve(self, value: Value, offset: int) -> Option<Value> {
        match value {
            Value::Reference { index, offset: base } => {
                if index < self.allocations.len() && 0 <= base + offset < self.allocations[index as int].len() {
                    Some(self.allocations[index as int][base + offset])
                } else {
                    None
                }
            },
            _ => None,
        }
    }

    /// The symbols that occur in some slot.
    pub open spec fn symbols(self) -> Set<usize> {
        Set::new(|s: usize| self.slots().contains(Value::Symbol(s)))
    }

    /// The literals that occur in some slot.
    pub open spec fn literals(self) -> Set<u64> {
        Set::new(|n: u64| self.slots().contains(Value::Literal(n)))
    }

    /// The lengths that occur among the allocations.
    pub open spec fn alloc_sizes(self) -> Set<usize> {
        Set::new(|n: usize| exists|a: int| 0 <= a < self.allocations.len() && #[trigger] self.allocations[a].len() == n)
    }

    /// A goal can only be reached from a state that holds all of its symbols.
    pub open spec fn reachable(self, goal: StateView) -> bool {
        goal.symbols().subset_of(self.symbols())
    }

    /// The invariants of a machine state.
    pub open spec fn valid(self) -> bool {
        &&& self.references_in_range()
        &&& self.every_allocation_referenced()
        &&& self.flags_boolean()
    }
}

impl State {
    pub fn get_register(&self, reg: Register) -> (r: Value)
        requires
            reg.wf(),
        ensures
            r == self@.registers[reg.idx()],
    {
        self.registers[reg.as_u8() as usize]
    }

    pub fn get_flag(&self, flag: Flag) -> (r: Value)
        ensures
            r == self@.flags[flag.idx()],
    {
        self.flags[flag.index()]
    }

    /// A copy of the state.
    pub fn duplicate(&self) -> (r: State)
        ensures
            r@ == self@,
    {
        let mut allocations: Vec<Allocation> = Vec::new();
        let n = self.allocations.len();
        let mut a: usize = 0;
        while a < n
            invariant
                n == self.allocations.len(),
                a <= n,
                allocations@.len() == a,
                forall|b: int| 0 <= b < a ==> allocations@[b]@ == self.allocations@[b]@,
            decreases n - a,
        {
            let len = self.allocations[a].len();
            let mut slots: Vec<Value> = Vec::new();
            let mut k: usize = 0;
            while k < len
                invariant
                    a < n,
                    n == self.allocations.len(),
                    len == self.allocations@[a as int]@.len(),
                    k <= len,
                    slots@ == self.allocations@[a as int]@.take(k as int),
                decreases len - k,
            {
                slots.push(self.allocations[a].0[k]);
                assert(slots@ =~= self.allocations@[a as int]@.take(k + 1));
                k += 1;
            }
            assert(slots@ =~= self.allocations@[a as int]@);
            allocations.push(Allocation(slots));
            a += 1;
        }
        let r = State { registers: self.registers, flags: self.flags, allocations };
        assert(r@.allocations =~= self@.allocations);
        r
    }

    /// Whether the two states hold the same content.
    pub fn same(&self, other: &State) -> (r: bool)
        ensures
            r == (self@ == other@),
    {
        let mut i: usize = 0;
        while i < 16
            invariant
                i <= 16,
                forall|q: int| 0 <= q < i ==> self@.registers[q] == other@.registers[q],
            decreases 16 - i,
        {
            if self.registers[i] != other.registers[i] {
                assert(self@.registers[i as int] != other@.registers[i as int]);
                return false;
            }
            i += 1;
        }
        let mut f: usize = 0;
        while f < 7
            invariant
                f <= 7,
                forall|q: int| 0 <= q < f ==> self@.flags[q] == other@.flags[q],
            decreases 7 - f,
        {
            if self.flags[f] != other.flags[f] {
                assert(self@.flags[f as int] != other@.flags[f as int]);
                return false;
            }
            f += 1;
        }
        let n = self.allocations.len();
        if n != other.allocations.len() {
            assert(self@.allocations.len() != other@.allocations.len());
            return false;
        }
        let mut a: usize = 0;
        while a < n
            invariant
                n == self.allocations.len(),
                n == other.allocations.len(),
                a <= n,
                forall|b: int| 0 <= b < a ==> self@.allocations[b] == other@.allocations[b],
            decreases n - a,
        {
            let len = self.allocations[a].len();
            if len != other.allocations[a].len() {
                assert(self@.allocations[a as int].len() != other@.allocations[a as int].len());
                return false;
            }
            let mut k: usize = 0;
            while k < len
                invariant
                    a < n,
                    n == self.allocations.len(),
                    n == other.allocations.len(),
                    len == self@.allocations[a as int].len(),
                    len == other@.allocations[a as int].len(),
                    k <= len,
                    forall|j: int| 0 <= j < k ==> self@.allocations[a as int][j] == other@.allocations[a as int][j],
                decreases len - k,
            {
                if self.allocations[a].0[k] != other.allocations[a].0[k] {
                    assert(self@.allocations[a as int][k as int] != other@.allocations[a as int][k as int]);
                    return false;
                }
                k += 1;
            }
            assert(self@.allocations[a as int] =~= other@.allocations[a as int]);
            a += 1;
        }
        assert(self@.registers =~= other@.registers);
        assert(self@.flags =~= other@.flags);
        assert(self@.allocations =~= other@.allocations);
        true
    }

    /// Stores `value` in slot `k` of allocation `a`.
    pub fn set_slot(&mut self, a: usize, k: usize, value: Value)
        requires
            a < old(self)@.allocations.len(),
            k < old(self)@.allocations[a as int].len(),
        ensures
            final(self)@ == (StateView {
                allocations: old(self)@.allocations.update(
                    a as int,
                    old(self)@.allocations[a as int].update(k as int, value),
                ),
                ..old(self)@
            }),
    {
        self.allocations[a].0[k] = value;
        assert(self@.allocations =~= old(self)@.allocations.update(
            a as int,
            old(self)@.allocations[a as int].update(k as int, value),
        ));
    }

    /// Stores `value` in register `reg`.
    pub fn set_register(&mut self, reg: Register, value: Value)
        requires
            reg.wf(),
        ensures
            final(self)@ == (StateView { registers: old(self)@.registers.update(reg.idx(), value), ..old(self)@ }),
    {
        self.registers[reg.as_u8() as usize] = value;
    }
}

/// Some register below `upto` refers to allocation `index`.
spec fn registers_refer(sv: StateView, upto: int, index: int) -> bool {
    exists|r: int| 0 <= r < upto && r < sv.registers.len() && refers_to(#[trigger] sv.registers[r], index)
}

/// Some allocation slot before slot `k` of allocation `a` refers to allocation `index`.
spec fn slots_refer(sv: StateView, a: int, k: int, index: int) -> bool {
    exists|b: int, j: int|
        0 <= b < sv.allocations.len() && 0 <= j < sv.allocations[b].len() && (b < a || (b == a && j < k))
            && refers_to(#[trigger] sv.allocations[b][j], index)
}

/// Every register below `upto` holds a reference in range, if any.
spec fn registers_in_range(sv: StateView, upto: int) -> bool {
    forall|r: int| 0 <= r < upto && r < sv.registers.len() ==> sv.in_range(#[trigger] sv.registers[r])
}

/// Every allocation slot before slot `k` of allocation `a` holds a reference in range, if any.
spec fn slots_in_range(sv: StateView, a: int, k: int) -> bool {
    forall|b: int, j: int|
        0 <= b < sv.allocations.len() && 0 <= j < sv.allocations[b].len() && (b < a || (b == a && j < k))
            ==> sv.in_range(#[trigger] sv.allocations[b][j])
}

/// `registers_refer` for the allocation at `base + j`.
spec fn registers_mark(sv: StateView, upto: int, base: int, j: int) -> bool {
    registers_refer(sv, upto, base + j)
}

/// `slots_refer` for the allocation at `base + j`.
spec fn slots_mark(sv: StateView, a: int, k: int, base: int, j: int) -> bool {
    slots_refer(sv, a, k, base + j)
}

proof fn lemma_registers_refer_step(sv: StateView, upto: int, index: int)
    requires
        0 <= upto < sv.registers.len(),
    ensures
        registers_refer(sv, upto + 1, index) == (registers_refer(sv, upto, index) || refers_to(
            sv.registers[upto],
            index,
        )),
{
    if registers_refer(sv, upto + 1, index) {
        let r = choose|r: int|
            0 <= r < upto + 1 && r < sv.registers.len() && refers_to(#[trigger] sv.registers[r], index);
        if r < upto {
            assert(registers_refer(sv, upto, index));
        }
    }
    if refers_to(sv.registers[upto], index) {
        assert(registers_refer(sv, upto + 1, index));
    }
    if registers_refer(sv, upto, index) {
        let r = choose|r: int|
            0 <= r < upto && r < sv.registers.len() && refers_to(#[trigger] sv.registers[r], index);
        assert(refers_to(sv.registers[r], index));
        assert(registers_refer(sv, upto + 1, index));
    }
}

proof fn lemma_slots_refer_step(sv: StateView, a: int, k: int, index: int)
    requires
        0 <= a < sv.allocations.len(),
        0 <= k < sv.allocations[a].len(),
    ensures
        slots_refer(sv, a, k + 1, index) == (slots_refer(sv, a, k, index) || refers_to(
            sv.allocations[a][k],
            index,
        )),
{
    if slots_refer(sv, a, k + 1, index) {
        let (b, j) = choose|b: int, j: int|
            0 <= b < sv.allocations.len() && 0 <= j < sv.allocations[b].len() && (b < a || (b == a && j < k
                + 1)) && refers_to(#[trigger] sv.allocations[b][j], index);
        if !(b == a && j == k) {
            assert(refers_to(sv.allocations[b][j], index));
            assert(slots_refer(sv, a, k, index));
        }
    }
    if refers_to(sv.allocations[a][k], index) {
        assert(slots_refer(sv, a, k + 1, index));
    }
    if slots_refer(sv, a, k, index) {
        let (b, j) = choose|b: int, j: int|
            0 <= b < sv.allocations.len() && 0 <= j < sv.allocations[b].len() && (b < a || (b == a && j < k))
                && refers_to(#[trigger] sv.allocations[b][j], index);
        assert(refers_to(sv.allocations[b][j], index));
        assert(slots_refer(sv, a, k + 1, index));
    }
}

proof fn lemma_slots_refer_next(sv: StateView, a: int, index: int)
    requires
        0 <= a < sv.allocations.len(),
    ensures
        slots_refer(sv, a + 1, 0, index) == slots_refer(sv, a, sv.allocations[a].len() as int, index),
{
    let len = sv.allocations[a].len() as int;
    if slots_refer(sv, a + 1, 0, index) {
        let (b, j) = choose|b: int, j: int|
            0 <= b < sv.allocations.len() && 0 <= j < sv.allocations[b].len() && (b < a + 1 || (b == a + 1
                && j < 0)) && refers_to(#[trigger] sv.allocations[b][j], index);
        assert(refers_to(sv.allocations[b][j], index));
        assert(slots_refer(sv, a, len, index));
    }
    if slots_refer(sv, a, len, index) {
        let (b, j) = choose|b: int, j: int|
            0 <= b < sv.allocations.len() && 0 <= j < sv.allocations[b].len() && (b < a || (b == a && j
                < len)) && refers_to(#[trigger] sv.allocations[b][j], index);
        assert(refers_to(sv.allocations[b][j], index));
        assert(slots_refer(sv, a + 1, 0, index));
    }
}

proof fn lemma_refer_complete(sv: StateView, index: int)
    ensures
        registers_refer(sv, sv.registers.len() as int, index) == sv.register_refers(index),
        slots_refer(sv, sv.allocations.len() as int, 0, index) == sv.slot_refers(index),
{
    if sv.register_refers(index) {
        let r = choose|r: int| 0 <= r < sv.registers.len() && refers_to(#[trigger] sv.registers[r], index);
        assert(refers_to(sv.registers[r], index));
    }
    if sv.slot_refers(index) {
        let (b, j) = choose|b: int, j: int|
            0 <= b < sv.allocations.len() && 0 <= j < sv.allocations[b].len() && refers_to(
                #[trigger] sv.allocations[b][j],
                index,
            );
        assert(refers_to(sv.allocations[b][j], index));
    }
}

impl State {
    /// The view of a state is always well-formed.
    pub proof fn lemma_view_wf(&self)
        ensures
            self@.wf(),
    {
        assert(self.registers@.len() == 16);
        assert(self.flags@.len() == 7);
        assert(self.allocations.len() == self@.allocations.len());
        assert forall|a: int| 0 <= a < self@.allocations.len() implies (#[trigger] self@.allocations[a]).len()
            <= usize::MAX by {
            assert(self@.allocations[a] == self.allocations@[a]@);
            assert(self.allocations@[a].0.len() == self.allocations@[a]@.len());
        }
    }

    /// Marks, for the allocations `lo .. lo + size`, which of them a register or
    /// an allocation slot refers to, and reports whether all of them are marked
    /// and no reference of the state leaves the allocation vector.
    fn block_referenced(&self, lo: usize, size: usize) -> (ok: bool)
        requires
            lo + size <= self.allocations.len(),
            size <= max_marks(),
        ensures
            ok == (self@.references_in_range() && forall|i: int|
                lo <= i < lo + size ==> #[trigger] self@.referenced(i)),
    {
        let ghost sv = self@;
        let n = self.allocations.len();
        let mut seen: Marks = cleared(size);
        let mut r: usize = 0;
        while r < 16
            invariant
                sv == self@,
                n == self.allocations.len(),
                lo + size <= n,
                r <= 16,
                bits(seen).len() == size,
                registers_in_range(sv, r as int),
                forall|j: int|
                    0 <= j < size ==> (#[trigger] bits(seen)[j] <==> registers_mark(
                        sv,
                        r as int,
                        lo as int,
                        j,
                    )),
            decreases 16 - r,
        {
            let value = self.registers[r];
            proof {
                assert forall|j: int| 0 <= j < size implies (#[trigger] registers_mark(
                    sv,
                    r + 1,
                    lo as int,
                    j,
                ) == (registers_mark(sv, r as int, lo as int, j) || refers_to(
                    sv.registers[r as int],
                    lo + j,
                ))) by {
                    lemma_registers_refer_step(sv, r as int, lo + j);
                }
            }
            match value {
                Value::Reference { index, .. } => {
                    if index >= n {
                        assert(!sv.in_range(sv.registers[r as int]));
                        return false;
                    }
                    if lo <= index && index - lo < size {
                        assign(&mut seen, index - lo, true);
                    }
                },
                _ => {},
            }
            r += 1;
        }
        let mut a: usize = 0;
        while a < n
            invariant
                sv == self@,
                n == self.allocations.len(),
                lo + size <= n,
                a <= n,
                bits(seen).len() == size,
                registers_in_range(sv, 16),
                slots_in_range(sv, a as int, 0),
                forall|j: int|
                    0 <= j < size ==> (#[trigger] bits(seen)[j] <==> (registers_mark(sv, 16, lo as int, j)
                        || slots_mark(sv, a as int, 0, lo as int, j))),
            decreases n - a,
        {
            let len = self.allocations[a].len();
            let mut k: usize = 0;
            while k < len
                invariant
                    sv == self@,
                    n == self.allocations.len(),
                    lo + size <= n,
                    a < n,
                    len == sv.allocations[a as int].len(),
                    k <= len,
                    bits(seen).len() == size,
                    registers_in_range(sv, 16),
                    slots_in_range(sv, a as int, k as int),
                    forall|j: int|
                        0 <= j < size ==> (#[trigger] bits(seen)[j] <==> (registers_mark(
                            sv,
                            16,
                            lo as int,
                            j,
                        ) || slots_mark(sv, a as int, k as int, lo as int, j))),
                decreases len - k,
            {
                let value = self.allocations[a].0[k];
                assert(value == sv.allocations[a as int][k as int]);
                proof {
                    assert forall|j: int| 0 <= j < size implies (#[trigger] slots_mark(
                        sv,
                        a as int,
                        k + 1,
                        lo as int,
                        j,
                    ) == (slots_mark(sv, a as int, k as int, lo as int, j) || refers_to(
                        sv.allocations[a as int][k as int],
                        lo + j,
                    ))) by {
                        lemma_slots_refer_step(sv, a as int, k as int, lo + j);
                    }
                }
                match value {
                    Value::Reference { index, .. } => {
                        if index >= n {
                            assert(!sv.in_range(sv.allocations[a as int][k as int]));
                            return false;
                        }
                        if lo <= index && index - lo < size {
                            assign(&mut seen, index - lo, true);
                        }
                    },
                    _ => {},
                }
                k += 1;
            }
            proof {
                assert forall|j: int| 0 <= j < size implies (#[trigger] slots_mark(
                    sv,
                    a + 1,
                    0,
                    lo as int,
                    j,
                ) == slots_mark(sv, a as int, len as int, lo as int, j)) by {
                    lemma_slots_refer_next(sv, a as int, lo + j);
                }
            }
            a += 1;
        }
        proof {
            assert forall|j: int| 0 <= j < size implies (#[trigger] bits(seen)[j] <==> sv.referenced(
                lo + j,
            )) by {
                lemma_refer_complete(sv, lo + j);
                assert(registers_mark(sv, 16, lo as int, j) == registers_refer(sv, 16, lo + j));
                assert(slots_mark(sv, n as int, 0, lo as int, j) == slots_refer(sv, n as int, 0, lo + j));
            }
            assert forall|b: int, j: int|
                0 <= b < sv.allocations.len() && 0 <= j < sv.allocations[b].len() implies sv.in_range(
                #[trigger] sv.allocations[b][j],
            ) by {}
            assert forall|q: int| 0 <= q < sv.registers.len() implies sv.in_range(
                #[trigger] sv.registers[q],
            ) by {}
            assert(sv.references_in_range());
        }
        let gap = any_cleared(&seen);
        proof {
            let all = forall|i: int| lo <= i < lo + size ==> #[trigger] sv.referenced(i);
            if gap {
                let j = choose|j: int| 0 <= j < bits(seen).len() && !bits(seen)[j];
                assert(!sv.referenced(lo + j));
                assert(!all);
            } else {
                assert forall|i: int| lo <= i < lo + size implies #[trigger] sv.referenced(i) by {
                    assert(bits(seen)[i - lo]);
                }
            }
        }
        !gap
    }

    /// Whether the state meets the invariants of a machine state.
    pub fn is_valid(&self) -> (r: bool)
        ensures
            r == self@.valid(),
    {
        let n = self.allocations.len();
        let limit = usize::MAX / 8;
        let mut lo: usize = 0;
        loop
            invariant_except_break
                lo <= n,
                lo > 0 ==> lo < n,
            invariant
                n == self.allocations.len(),
                limit == max_marks(),
                forall|i: int| 0 <= i < lo ==> #[trigger] self@.referenced(i),
            ensures
                self@.references_in_range(),
                self@.every_allocation_referenced(),
            decreases n - lo,
        {
            let size = if n - lo > limit {
                limit
            } else {
                n - lo
            };
            if !self.block_referenced(lo, size) {
                return false;
            }
            lo += size;
            if lo >= n {
                break ;
            }
        }
        let mut f: usize = 0;
        while f < 7
            invariant
                f <= 7,
                forall|g: int| 0 <= g < f ==> flag_content(#[trigger] self@.flags[g]),
            decreases 7 - f,
        {
            match self.flags[f] {
                Value::Unspecified => {},
                Value::Symbol(_) => {},
                Value::Literal(n) => {
                    if n > 1 {
                        assert(!flag_content(self@.flags[f as int]));
                        return false;
                    }
                },
                Value::Reference { .. } => {
                    assert(!flag_content(self@.flags[f as int]));
                    return false;
                },
            }
            f += 1;
        }
        true
    }
}

/// The symbols of `slots`, each once, in the order of their first occurrence.
pub open spec fn symbol_list(slots: Seq<Value>) -> Seq<usize>
    decreases slots.len(),
{
    if slots.len() == 0 {
        Seq::empty()
    } else {
        note_symbol(symbol_list(slots.drop_last()), slots.last())
    }
}

/// `list`, with the symbol that `value` holds added unless it is there.
pub open spec fn note_symbol(list: Seq<usize>, value: Value) -> Seq<usize> {
    match value {
        Value::Symbol(s) => if list.contains(s) {
            list
        } else {
            list.push(s)
        },
        _ => list,
    }
}

/// The literals of `slots`, each once, in the order of their first occurrence.
pub open spec fn literal_list(slots: Seq<Value>) -> Seq<u64>
    decreases slots.len(),
{
    if slots.len() == 0 {
        Seq::empty()
    } else {
        note_literal(literal_list(slots.drop_last()), slots.last())
    }
}

/// `list`, with the literal that `value` holds added unless it is there.
pub open spec fn note_literal(list: Seq<u64>, value: Value) -> Seq<u64> {
    match value {
        Value::Literal(n) => if list.contains(n) {
            list
        } else {
            list.push(n)
        },
        _ => list,
    }
}

/// The lengths of `allocations`, each once, in the order of their first occurrence.
pub open spec fn size_list(allocations: Seq<Seq<Value>>) -> Seq<usize>
    decreases allocations.len(),
{
    if allocations.len() == 0 {
        Seq::empty()
    } else {
        note_size(size_list(allocations.drop_last()), allocations.last().len())
    }
}

/// `list`, with `size` added unless it is there.
pub open spec fn note_size(list: Seq<usize>, size: nat) -> Seq<usize> {
    if list.contains(size as usize) {
        list
    } else {
        list.push(size as usize)
    }
}

/// A symbol list holds exactly the symbols of its slots, and none twice.
pub proof fn lemma_symbol_list(slots: Seq<Value>)
    ensures
        symbol_list(slots).no_duplicates(),
        forall|s: usize| symbol_list(slots).contains(s) <==> slots.contains(Value::Symbol(s)),
    decreases slots.len(),
{
    if slots.len() > 0 {
        let init = slots.drop_last();
        lemma_symbol_list(init);
        let rest = symbol_list(init);
        assert forall|s: usize| symbol_list(slots).contains(s) <==> slots.contains(Value::Symbol(s)) by {
            if slots.contains(Value::Symbol(s)) {
                let i = choose|i: int| 0 <= i < slots.len() && slots[i] == Value::Symbol(s);
                if i < slots.len() - 1 {
                    assert(init[i] == Value::Symbol(s));
                    assert(rest.contains(s));
                } else {
                    assert(slots.last() == Value::Symbol(s));
                }
                if !rest.contains(s) {
                    assert(rest.push(s)[rest.len() as int] == s);
                } else {
                    let j = choose|j: int| 0 <= j < rest.len() && rest[j] == s;
                    assert(symbol_list(slots)[j] == s);
                }
            }
            if symbol_list(slots).contains(s) {
                let j = choose|j: int| 0 <= j < symbol_list(slots).len() && symbol_list(slots)[j] == s;
                if j < rest.len() {
                    assert(rest[j] == s);
                    assert(rest.contains(s));
                    let i = choose|i: int| 0 <= i < init.len() && init[i] == Value::Symbol(s);
                    assert(slots[i] == Value::Symbol(s));
                } else {
                    assert(slots[slots.len() - 1] == Value::Symbol(s));
                }
            }
        }
    }
}

/// A literal list holds exactly the literals of its slots, and none twice.
pub proof fn lemma_literal_list(slots: Seq<Value>)
    ensures
        literal_list(slots).no_duplicates(),
        forall|n: u64| literal_list(slots).contains(n) <==> slots.contains(Value::Literal(n)),
    decreases slots.len(),
{
    if slots.len() > 0 {
        let init = slots.drop_last();
        lemma_literal_list(init);
        let rest = literal_list(init);
        assert forall|s: u64| literal_list(slots).contains(s) <==> slots.contains(Value::Literal(s)) by {
            if slots.contains(Value::Literal(s)) {
                let i = choose|i: int| 0 <= i < slots.len() && slots[i] == Value::Literal(s);
                if i < slots.len() - 1 {
                    assert(init[i] == Value::Literal(s));
                    assert(rest.contains(s));
                } else {
                    assert(slots.last() == Value::Literal(s));
                }
                if !rest.contains(s) {
                    assert(rest.push(s)[rest.len() as int] == s);
                } else {
                    let j = choose|j: int| 0 <= j < rest.len() && rest[j] == s;
                    assert(literal_list(slots)[j] == s);
                }
            }
            if literal_list(slots).contains(s) {
                let j = choose|j: int| 0 <= j < literal_list(slots).len() && literal_list(slots)[j] == s;
                if j < rest.len() {
                    assert(rest[j] == s);
                    assert(rest.contains(s));
                    let i = choose|i: int| 0 <= i < init.len() && init[i] == Value::Literal(s);
                    assert(slots[i] == Value::Literal(s));
                } else {
                    assert(slots[slots.len() - 1] == Value::Literal(s));
                }
            }
        }
    }
}

/// A size list holds exactly the lengths of its allocations, and none twice.
pub proof fn lemma_size_list(allocations: Seq<Seq<Value>>)
    requires
        forall|a: int| 0 <= a < allocations.len() ==> (#[trigger] allocations[a]).len() <= usize::MAX,
    ensures
        size_list(allocations).no_duplicates(),
        forall|n: usize|
            size_list(allocations).contains(n) <==> exists|a: int|
                0 <= a < allocations.len() && #[trigger] allocations[a].len() == n,
    decreases allocations.len(),
{
    if allocations.len() > 0 {
        let init = allocations.drop_last();
        assert forall|a: int| 0 <= a < init.len() implies (#[trigger] init[a]).len() <= usize::MAX by {
            assert(init[a] == allocations[a]);
        }
        lemma_size_list(init);
        let rest = size_list(init);
        let last = allocations.last().len() as usize;
        assert forall|n: usize|
            size_list(allocations).contains(n) <==> exists|a: int|
                0 <= a < allocations.len() && #[trigger] allocations[a].len() == n by {
            if exists|a: int| 0 <= a < allocations.len() && #[trigger] allocations[a].len() == n {
                let a = choose|a: int| 0 <= a < allocations.len() && #[trigger] allocations[a].len() == n;
                if a < allocations.len() - 1 {
                    assert(init[a].len() == n);
                    assert(rest.contains(n));
                } else {
                    assert(last == n);
                }
                if !rest.contains(n) {
                    assert(rest.push(n)[rest.len() as int] == n);
                } else {
                    let j = choose|j: int| 0 <= j < rest.len() && rest[j] == n;
                    assert(size_list(allocations)[j] == n);
                }
            }
            if size_list(allocations).contains(n) {
                let j = choose|j: int|
                    0 <= j < size_list(allocations).len() && size_list(allocations)[j] == n;
                if j < rest.len() {
                    assert(rest[j] == n);
                    assert(rest.contains(n));
                    let a = choose|a: int| 0 <= a < init.len() && #[trigger] init[a].len() == n;
                    assert(allocations[a].len() == n);
                } else {
                    assert(allocations[allocations.len() - 1].len() == n);
                }
            }
        }
    }
}

/// Whether `list` holds `x`.
fn holds_usize(list: &Vec<usize>, x: usize) -> (r: bool)
    ensures
        r == list@.contains(x),
{
    let mut i: usize = 0;
    while i < list.len()
        invariant
            i <= list.len(),
            forall|j: int| 0 <= j < i ==> list@[j] != x,
        decreases list.len() - i,
    {
        if list[i] == x {
            return true;
        }
        i += 1;
    }
    false
}

/// Whether `list` holds `x`.
fn holds_u64(list: &Vec<u64>, x: u64) -> (r: bool)
    ensures
        r == list@.contains(x),
{
    let mut i: usize = 0;
    while i < list.len()
        invariant
            i <= list.len(),
            forall|j: int| 0 <= j < i ==> list@[j] != x,
        decreases list.len() - i,
    {
        if list[i] == x {
            return true;
        }
        i += 1;
    }
    false
}

impl State {
    /// The content of the slot that register `reg` points to, moved by `offset`
    /// slots; `None` when the register holds no reference or the slot does not exist.
    pub fn get_reference(&self, reg: Register, offset: isize) -> (r: Option<Value>)
        requires
            reg.wf(),
        ensures
            r == self@.resolve(self@.registers[reg.idx()], offset as int),
    {
        match self.get_register(reg) {
            Value::Reference { index, offset: base } => {
                if index >= self.allocations.len() {
                    return None;
                }
                let position: i128 = base as i128 + offset as i128;
                let len = self.allocations[index].len();
                if position < 0 || position >= len as i128 {
                    return None;
                }
                Some(self.allocations[index].0[position as usize])
            },
            _ => None,
        }
    }

    /// Every slot of the state: the registers, the flags, then each allocation in turn.
    pub fn slots(&self) -> (r: Vec<Value>)
        ensures
            r@ == self@.slots(),
    {
        let mut out: Vec<Value> = Vec::new();
        let mut i: usize = 0;
        while i < 16
            invariant
                i <= 16,
                out@ == self@.registers.take(i as int),
            decreases 16 - i,
        {
            out.push(self.registers[i]);
            assert(self@.registers.take(i + 1) =~= self@.registers.take(i as int).push(
                self@.registers[i as int],
            ));
            i += 1;
        }
        assert(self@.registers.take(16) =~= self@.registers);
        let mut f: usize = 0;
        while f < 7
            invariant
                f <= 7,
                out@ == self@.registers + self@.flags.take(f as int),
            decreases 7 - f,
        {
            out.push(self.flags[f]);
            assert(self@.flags.take(f + 1) =~= self@.flags.take(f as int).push(self@.flags[f as int]));
            assert(self@.registers + self@.flags.take(f + 1) =~= (self@.registers + self@.flags.take(
                f as int,
            )).push(self@.flags[f as int]));
            f += 1;
        }
        assert(self@.flags.take(7) =~= self@.flags);
        let n = self.allocations.len();
        let mut a: usize = 0;
        assert(self@.allocations.take(0) =~= Seq::<Seq<Value>>::empty());
        assert(out@ =~= self@.registers + self@.flags + concat_all(self@.allocations.take(0)));
        while a < n
            invariant
                n == self.allocations.len(),
                a <= n,
                out@ == self@.registers + self@.flags + concat_all(self@.allocations.take(a as int)),
            decreases n - a,
        {
            let len = self.allocations[a].len();
            let ghost before = out@;
            let mut k: usize = 0;
            while k < len
                invariant
                    a < n,
                    n == self.allocations.len(),
                    len == self@.allocations[a as int].len(),
                    k <= len,
                    out@ == before + self@.allocations[a as int].take(k as int),
                decreases len - k,
            {
                out.push(self.allocations[a].0[k]);
                assert(self@.allocations[a as int].take(k + 1) =~= self@.allocations[a as int].take(
                    k as int,
                ).push(self@.allocations[a as int][k as int]));
                assert(before + self@.allocations[a as int].take(k + 1) =~= (before
                    + self@.allocations[a as int].take(k as int)).push(
                    self@.allocations[a as int][k as int],
                ));
                k += 1;
            }
            proof {
                let next = self@.allocations.take(a + 1);
                assert(self@.allocations[a as int].take(len as int) =~= self@.allocations[a as int]);
                assert(next.drop_last() =~= self@.allocations.take(a as int));
                assert(next.last() == self@.allocations[a as int]);
                assert(out@ =~= self@.registers + self@.flags + concat_all(next));
            }
            a += 1;
        }
        assert(self@.allocations.take(n as int) =~= self@.allocations);
        out
    }

    /// The symbols of the state, each once, in the order of their first occurrence.
    pub fn symbols(&self) -> (r: Vec<usize>)
        ensures
            r@ == symbol_list(self@.slots()),
            r@.no_duplicates(),
            r@.to_set() == self@.symbols(),
    {
        let slots = self.slots();
        let mut out: Vec<usize> = Vec::new();
        let mut i: usize = 0;
        assert(slots@.take(0) =~= Seq::<Value>::empty());
        while i < slots.len()
            invariant
                i <= slots.len(),
                out@ == symbol_list(slots@.take(i as int)),
            decreases slots.len() - i,
        {
            proof {
                assert(slots@.take(i + 1).drop_last() =~= slots@.take(i as int));
                assert(slots@.take(i + 1).last() == slots@[i as int]);
            }
            match slots[i] {
                Value::Symbol(s) => {
                    if !holds_usize(&out, s) {
                        out.push(s);
                    }
                },
                _ => {},
            }
            i += 1;
        }
        proof {
            assert(slots@.take(slots.len() as int) =~= slots@);
            lemma_symbol_list(slots@);
            assert(out@.to_set() =~= self@.symbols());
        }
        out
    }

    /// The literals of the state, each once, in the order of their first occurrence.
    pub fn literals(&self) -> (r: Vec<u64>)
        ensures
            r@ == literal_list(self@.slots()),
            r@.no_duplicates(),
            r@.to_set() == self@.literals(),
    {
        let slots = self.slots();
        let mut out: Vec<u64> = Vec::new();
        let mut i: usize = 0;
        assert(slots@.take(0) =~= Seq::<Value>::empty());
        while i < slots.len()
            invariant
                i <= slots.len(),
                out@ == literal_list(slots@.take(i as int)),
            decreases slots.len() - i,
        {
            proof {
                assert(slots@.take(i + 1).drop_last() =~= slots@.take(i as int));
                assert(slots@.take(i + 1).last() == slots@[i as int]);
            }
            match slots[i] {
                Value::Literal(n) => {
                    if !holds_u64(&out, n) {
                        out.push(n);
                    }
                },
                _ => {},
            }
            i += 1;
        }
        proof {
            assert(slots@.take(slots.len() as int) =~= slots@);
            lemma_literal_list(slots@);
            assert(out@.to_set() =~= self@.literals());
        }
        out
    }

    /// The lengths of the allocations, each once, in the order of their first occurrence.
    pub fn alloc_sizes(&self) -> (r: Vec<usize>)
        ensures
            r@ == size_list(self@.allocations),
            r@.no_duplicates(),
            r@.to_set() == self@.alloc_sizes(),
    {
        let mut out: Vec<usize> = Vec::new();
        let n = self.allocations.len();
        let mut a: usize = 0;
        assert(self@.allocations.take(0) =~= Seq::<Seq<Value>>::empty());
        while a < n
            invariant
                n == self.allocations.len(),
                a <= n,
                out@ == size_list(self@.allocations.take(a as int)),
            decreases n - a,
        {
            proof {
                assert(self@.allocations.take(a + 1).drop_last() =~= self@.allocations.take(a as int));
                assert(self@.allocations.take(a + 1).last() == self@.allocations[a as int]);
            }
            let len = self.allocations[a].len();
            if !holds_usize(&out, len) {
                out.push(len);
            }
            a += 1;
        }
        proof {
            assert(self@.allocations.take(n as int) =~= self@.allocations);
            assert forall|b: int| 0 <= b < self@.allocations.len() implies (
            #[trigger] self@.allocations[b]).len() <= usize::MAX by {
                assert(self@.allocations[b] == self.allocations@[b]@);
                assert(self.allocations@[b].0.len() == self.allocations@[b]@.len());
            }
            lemma_size_list(self@.allocations);
            assert(out@.to_set() =~= self@.alloc_sizes());
        }
        out
    }

    /// The first symbol that `goal` asks for and this state does not hold, if
    /// there is one: the symbol that makes the goal unreachable.
    pub fn missing_symbol(&self, goal: &State) -> (r: Option<usize>)
        ensures
            r is None <==> self@.reachable(goal@),
            r matches Some(s) ==> goal@.symbols().contains(s) && !self@.symbols().contains(s),
    {
        let ours = self.symbols();
        let theirs = goal.symbols();
        let mut i: usize = 0;
        while i < theirs.len()
            invariant
                i <= theirs.len(),
                ours@.to_set() == self@.symbols(),
                theirs@.to_set() == goal@.symbols(),
                forall|j: int| 0 <= j < i ==> self@.symbols().contains(#[trigger] theirs@[j]),
            decreases theirs.len() - i,
        {
            if !holds_usize(&ours, theirs[i]) {
                proof {
                    assert(theirs@.contains(theirs@[i as int]));
                    assert(goal@.symbols().contains(theirs@[i as int]));
                    assert(!ours@.to_set().contains(theirs@[i as int]));
                }
                return Some(theirs[i]);
            }
            assert(ours@.to_set().contains(theirs@[i as int]));
            i += 1;
        }
        proof {
            assert forall|s: usize| goal@.symbols().contains(s) implies self@.symbols().contains(s) by {
                assert(theirs@.to_set().contains(s));
                assert(theirs@.contains(s));
            }
        }
        None
    }

    /// Whether `goal` asks only for symbols that this state holds.
    pub fn reachable(&self, goal: &State) -> (r: bool)
        ensures
            r == self@.reachable(goal@),
    {
        self.missing_symbol(goal).is_none()
    }
}

/// The state in which nothing is known: every slot unspecified, no allocation.
pub open spec fn blank_view() -> StateView {
    StateView {
        registers: Seq::new(16, |i: int| Value::Unspecified),
        flags: Seq::new(7, |i: int| Value::Unspecified),
        allocations: Seq::empty(),
    }
}

fn blank_state() -> (r: State)
    ensures
        r@ == blank_view(),
{
    let unknown = Value::Unspecified;
    let u = unknown;
    let registers: [Value; 16] = [u, u, u, u, u, u, u, u, u, u, u, u, u, u, u, u];
    let flags: [Value; 7] = [u, u, u, u, u, u, u];
    let r = State { registers, flags, allocations: Vec::new() };
    assert(r@.registers =~= blank_view().registers);
    assert(r@.flags =~= blank_view().flags);
    assert(r@.allocations =~= blank_view().allocations);
    r
}

impl Default for State {
    fn default() -> (r: State)
        ensures
            r@ == blank_view(),
    {
        blank_state()
    }
}

} // verus!
