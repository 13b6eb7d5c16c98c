use vstd::prelude::*;
use vstd::set_lib::{lemma_int_range, lemma_len_subset, set_int_range};
use crate::state::{Allocation, State, StateView};
use crate::value::Value;

verus! {

/// `order`, with the allocations that the first `upto` of the `values` point
/// to added, each when it is first met.
pub open spec fn note_references(order: Seq<usize>, values: Seq<Value>, upto: int) -> Seq<usize>
    decreases upto,
{
    if upto <= 0 {
        order
    } else {
        let before = note_references(order, values, upto - 1);
        match values[upto - 1] {
            Value::Reference { index, .. } => if before.contains(index) {
                before
            } else {
                before.push(index)
            },
            _ => before,
        }
    }
}

/// The allocations in the order in which they are reached: `order` holds
/// those met so far, of which the first `next` have been looked into.
pub open spec fn reached_from(s: StateView, order: Seq<usize>, next: int) -> Seq<usize>
    decreases s.allocations.len() - next,
{
    if 0 <= next < order.len() && order.len() <= s.allocations.len() && order[next] < s.allocations.len() {
        let slots = s.allocations[order[next] as int];
        reached_from(s, note_references(order, slots, slots.len() as int), next + 1)
    } else {
        order
    }
}

/// `order`, followed by those of the first `upto` allocations that it lacks.
pub open spec fn completed(order: Seq<usize>, upto: int) -> Seq<usize>
    decreases upto,
{
    if upto <= 0 {
        order
    } else {
        let before = completed(order, upto - 1);
        if before.contains((upto - 1) as usize) {
            before
        } else {
            before.push((upto - 1) as usize)
        }
    }
}

/// The order of the allocations in the normal form of a state: first those
/// that the registers point to, in the order of the registers, then those
/// that can be reached through them, in the order in which they are
/// reached, and last those that cannot be reached from any register.
pub open spec fn normal_order(s: StateView) -> Seq<usize> {
    completed(
        reached_from(s, note_references(Seq::empty(), s.registers, s.registers.len() as int), 0),
        s.allocations.len() as int,
    )
}

/// `value`, pointing to the place that its allocation has in `order`.
pub open spec fn moved(value: Value, order: Seq<usize>) -> Value {
    match value {
        Value::Reference { index, offset } => Value::Reference {
            index: first_place(order, index) as usize,
            offset,
        },
        _ => value,
    }
}

/// The place of the first item of `order` that is `index`; the length of
/// `order` if there is none.
pub open spec fn first_place(order: Seq<usize>, index: usize) -> int
    decreases order.len(),
{
    if order.len() == 0 {
        0
    } else if order.first() == index {
        0
    } else {
        1 + first_place(order.drop_first(), index)
    }
}

/// The slots, each pointing to the place that its allocation has in `order`.
pub open spec fn moved_slots(slots: Seq<Value>, order: Seq<usize>) -> Seq<Value> {
    Seq::new(slots.len(), |k: int| moved(slots[k], order))
}

/// The state with its allocations in the given order.
pub open spec fn reordered(s: StateView, order: Seq<usize>) -> StateView {
    StateView {
        registers: moved_slots(s.registers, order),
        flags: s.flags,
        allocations: Seq::new(order.len(), |k: int| moved_slots(s.allocations[order[k] as int], order)),
    }
}

/// The normal form of a state: the same state with its allocations in
/// normal order. States that differ only in the order of the allocations
/// that their registers reach have the same normal form.
pub open spec fn normalized(s: StateView) -> StateView {
    reordered(s, normal_order(s))
}

/// Each of the allocations is named once by `order`.
pub open spec fn permutes(order: Seq<usize>, n: nat) -> bool {
    &&& order.len() == n
    &&& order.no_duplicates()
    &&& forall|k: int| 0 <= k < order.len() ==> (#[trigger] order[k]) < n
}

/// The items of `order` differ and name allocations.
spec fn distinct_within(order: Seq<usize>, n: nat) -> bool {
    order.no_duplicates() && forall|k: int| 0 <= k < order.len() ==> (#[trigger] order[k]) < n
}

/// A list of distinct numbers below `n` has at most `n` items.
proof fn lemma_distinct_bounded(order: Seq<usize>, n: nat)
    requires
        distinct_within(order, n),
    ensures
        order.len() <= n,
{
    let codes = Seq::new(order.len(), |k: int| order[k] as int);
    assert forall|a: int, b: int| 0 <= a < codes.len() && 0 <= b < codes.len() && a != b implies codes[a]
        != codes[b] by {
        assert(order[a] != order[b]);
    }
    lemma_int_range(0, n as int);
    assert forall|c: int| codes.to_set().contains(c) implies set_int_range(0, n as int).contains(c) by {
        let k = choose|k: int| 0 <= k < codes.len() && codes[k] == c;
        assert(order[k] < n);
    }
    lemma_len_subset(codes.to_set(), set_int_range(0, n as int));
    codes.unique_seq_to_set();
}

/// Noting references keeps what was noted, and keeps the items distinct.
proof fn lemma_note_references(s: StateView, order: Seq<usize>, values: Seq<Value>, upto: int)
    requires
        distinct_within(order, s.allocations.len()),
        0 <= upto <= values.len(),
        forall|k: int| 0 <= k < values.len() ==> s.in_range(#[trigger] values[k]),
    ensures
        distinct_within(note_references(order, values, upto), s.allocations.len()),
        order.len() <= note_references(order, values, upto).len(),
        forall|k: int| 0 <= k < order.len() ==> note_references(order, values, upto)[k] == #[trigger] order[k],
    decreases upto,
{
    if upto > 0 {
        lemma_note_references(s, order, values, upto - 1);
        let before = note_references(order, values, upto - 1);
        assert(s.in_range(values[upto - 1]));
        if let Value::Reference { index, .. } = values[upto - 1] {
            if !before.contains(index) {
                let after = before.push(index);
                assert forall|a: int, b: int| 0 <= a < after.len() && 0 <= b < after.len() && a != b implies after[a]
                    != after[b] by {
                    if a < before.len() && b < before.len() {
                        assert(before[a] != before[b]);
                    } else if a < before.len() {
                        assert(before.contains(before[a]));
                    } else if b < before.len() {
                        assert(before.contains(before[b]));
                    }
                }
            }
        }
    }
}

/// Completing an order keeps its items distinct and names every allocation.
proof fn lemma_completed(order: Seq<usize>, n: nat, upto: int)
    requires
        distinct_within(order, n),
        0 <= upto <= n,
    ensures
        distinct_within(completed(order, upto), n),
        forall|i: usize| i < upto ==> completed(order, upto).contains(i),
        forall|k: int| 0 <= k < order.len() ==> completed(order, upto).contains(#[trigger] order[k]),
    decreases upto,
{
    if upto > 0 {
        lemma_completed(order, n, upto - 1);
        let before = completed(order, upto - 1);
        let after = completed(order, upto);
        let last = (upto - 1) as usize;
        if !before.contains(last) {
            assert forall|a: int, b: int| 0 <= a < after.len() && 0 <= b < after.len() && a != b implies after[a]
                != after[b] by {
                if a < before.len() && b < before.len() {
                    assert(before[a] != before[b]);
                } else if a < before.len() {
                    assert(before.contains(before[a]));
                } else if b < before.len() {
                    assert(before.contains(before[b]));
                }
            }
            assert(after[before.len() as int] == last);
        }
        assert forall|i: usize| i < upto implies after.contains(i) by {
            if i < upto - 1 {
                assert(before.contains(i));
                let k = choose|k: int| 0 <= k < before.len() && before[k] == i;
                assert(after[k] == i);
            } else if before.contains(last) {
            } else {
                assert(after[before.len() as int] == last);
            }
        }
        assert forall|k: int| 0 <= k < order.len() implies after.contains(#[trigger] order[k]) by {
            let j = choose|j: int| 0 <= j < before.len() && before[j] == order[k];
            assert(after[j] == order[k]);
        }
    } else {
        assert forall|k: int| 0 <= k < order.len() implies order.contains(#[trigger] order[k]) by {}
    }
}

/// An order that names every allocation once is a permutation.
proof fn lemma_complete_is_permutation(order: Seq<usize>, n: nat)
    requires
        n <= usize::MAX,
        distinct_within(order, n),
        forall|i: usize| i < n ==> order.contains(i),
    ensures
        permutes(order, n),
{
    lemma_distinct_bounded(order, n);
    // Each allocation has a place in the order, so there are at least `n` places.
    let places = Seq::new(n, |i: int| choose|k: int| 0 <= k < order.len() && order[k] == i as usize);
    assert forall|a: int, b: int| 0 <= a < places.len() && 0 <= b < places.len() && a != b implies places[a]
        != places[b] by {
        assert(order.contains(a as usize));
        assert(order.contains(b as usize));
        assert(order[places[a]] == a as usize);
        assert(order[places[b]] == b as usize);
    }
    lemma_int_range(0, order.len() as int);
    assert forall|c: int| places.to_set().contains(c) implies set_int_range(0, order.len() as int).contains(c) by {
        let i = choose|i: int| 0 <= i < places.len() && places[i] == c;
        assert(order.contains(i as usize));
        assert(0 <= places[i] < order.len());
    }
    lemma_len_subset(places.to_set(), set_int_range(0, order.len() as int));
    places.unique_seq_to_set();
}

/// The first place of an item that `order` holds is a place of the item.
pub proof fn lemma_first_place(order: Seq<usize>, index: usize)
    ensures
        0 <= first_place(order, index) <= order.len(),
        order.contains(index) ==> first_place(order, index) < order.len() && order[first_place(order, index)]
            == index,
    decreases order.len(),
{
    if order.len() > 0 && order.first() != index {
        lemma_first_place(order.drop_first(), index);
        if order.contains(index) {
            let k = choose|k: int| 0 <= k < order.len() && order[k] == index;
            assert(order.drop_first()[k - 1] == index);
        }
    }
}

/// In an order without repetitions every item stands at its first place.
pub proof fn lemma_first_place_unique(order: Seq<usize>, k: int)
    requires
        order.no_duplicates(),
        0 <= k < order.len(),
    ensures
        first_place(order, order[k]) == k,
{
    lemma_first_place(order, order[k]);
    assert(order.contains(order[k]));
}

/// Putting the allocations of a valid state in another order leaves a
/// valid state.
pub proof fn lemma_reordered_valid(s: StateView, order: Seq<usize>)
    requires
        s.wf(),
        s.valid(),
        permutes(order, s.allocations.len()),
        forall|i: usize| i < s.allocations.len() ==> order.contains(i),
    ensures
        reordered(s, order).valid(),
        reordered(s, order).wf(),
{
    let n = reordered(s, order);
    assert forall|r: int| 0 <= r < n.registers.len() implies n.in_range(#[trigger] n.registers[r]) by {
        assert(s.in_range(s.registers[r]));
        if let Value::Reference { index, .. } = s.registers[r] {
            lemma_first_place(order, index);
        }
    }
    assert forall|a: int, k: int|
        0 <= a < n.allocations.len() && 0 <= k < n.allocations[a].len() implies n.in_range(
        #[trigger] n.allocations[a][k],
    ) by {
        let from = order[a] as int;
        assert(s.in_range(s.allocations[from][k]));
        if let Value::Reference { index, .. } = s.allocations[from][k] {
            lemma_first_place(order, index);
        }
    }
    assert forall|i: int| 0 <= i < n.allocations.len() implies #[trigger] n.referenced(i) by {
        let old_index = order[i] as int;
        lemma_first_place_unique(order, i);
        assert(s.referenced(old_index));
        if s.register_refers(old_index) {
            let r = choose|r: int|
                0 <= r < s.registers.len() && crate::state::refers_to(#[trigger] s.registers[r], old_index);
            assert(crate::state::refers_to(n.registers[r], i));
            assert(n.register_refers(i));
        } else {
            let (a, k) = choose|a: int, k: int|
                0 <= a < s.allocations.len() && 0 <= k < s.allocations[a].len() && crate::state::refers_to(
                    #[trigger] s.allocations[a][k],
                    old_index,
                );
            assert(order.contains(a as usize));
            lemma_first_place(order, a as usize);
            let b = first_place(order, a as usize);
            assert(order[b] == a);
            assert(n.allocations[b] == moved_slots(s.allocations[a], order));
            assert(crate::state::refers_to(n.allocations[b][k], i));
            assert(n.slot_refers(i));
        }
    }
    assert forall|f: int| 0 <= f < n.flags.len() implies crate::state::flag_content(#[trigger] n.flags[f]) by {
        assert(crate::state::flag_content(s.flags[f]));
    }
    assert forall|a: int| 0 <= a < n.allocations.len() implies (#[trigger] n.allocations[a]).len() <= usize::MAX by {
        assert(s.allocations[order[a] as int].len() <= usize::MAX);
    }
}

/// The normal order of a state with references in range names every
/// allocation once.
pub proof fn lemma_normal_order(s: StateView)
    requires
        s.wf(),
        s.references_in_range(),
    ensures
        permutes(normal_order(s), s.allocations.len()),
        forall|i: usize| i < s.allocations.len() ==> normal_order(s).contains(i),
{
    let n = s.allocations.len();
    assert(distinct_within(Seq::<usize>::empty(), n));
    lemma_note_references(s, Seq::empty(), s.registers, 16);
    let roots = note_references(Seq::empty(), s.registers, s.registers.len() as int);
    lemma_reached(s, roots, 0);
    let reached = reached_from(s, roots, 0);
    lemma_completed(reached, n, n as int);
    lemma_complete_is_permutation(normal_order(s), n);
}

/// What is reached is distinct and names allocations.
proof fn lemma_reached(s: StateView, order: Seq<usize>, next: int)
    requires
        s.references_in_range(),
        distinct_within(order, s.allocations.len()),
        0 <= next,
    ensures
        distinct_within(reached_from(s, order, next), s.allocations.len()),
    decreases s.allocations.len() - next,
{
    if 0 <= next < order.len() && order.len() <= s.allocations.len() && order[next] < s.allocations.len() {
        let slots = s.allocations[order[next] as int];
        assert forall|k: int| 0 <= k < slots.len() implies s.in_range(#[trigger] slots[k]) by {
            assert(s.in_range(s.allocations[order[next] as int][k]));
        }
        lemma_note_references(s, order, slots, slots.len() as int);
        lemma_reached(s, note_references(order, slots, slots.len() as int), next + 1);
    }
}

/// The normal form of a valid state is a valid state.
pub proof fn lemma_normalized_valid(s: StateView)
    requires
        s.wf(),
        s.valid(),
    ensures
        normalized(s).valid(),
        normalized(s).wf(),
{
    lemma_normal_order(s);
    lemma_reordered_valid(s, normal_order(s));
}

/// The place of the first item of `order` that is `index`.
fn place_of(order: &Vec<usize>, index: usize) -> (r: usize)
    ensures
        r == first_place(order@, index),
{
    let mut k: usize = 0;
    assert(order@.skip(0) =~= order@);
    while k < order.len()
        invariant
            k <= order.len(),
            first_place(order@, index) == k + first_place(order@.skip(k as int), index),
        decreases order.len() - k,
    {
        assert(order@.skip(k as int).first() == order@[k as int]);
        assert(order@.skip(k as int).drop_first() =~= order@.skip(k + 1));
        if order[k] == index {
            return k;
        }
        k += 1;
    }
    k
}

/// Whether `order` holds `index`.
fn holds(order: &Vec<usize>, index: usize) -> (r: bool)
    ensures
        r == order@.contains(index),
{
    let mut k: usize = 0;
    while k < order.len()
        invariant
            k <= order.len(),
            forall|j: int| 0 <= j < k ==> order@[j] != index,
        decreases order.len() - k,
    {
        if order[k] == index {
            return true;
        }
        k += 1;
    }
    false
}

/// Notes the allocations that `values` point to.
fn note(order: &mut Vec<usize>, values: &Vec<Value>)
    ensures
        final(order)@ == note_references(old(order)@, values@, values@.len() as int),
{
    let ghost start = order@;
    let mut k: usize = 0;
    while k < values.len()
        invariant
            k <= values.len(),
            order@ == note_references(start, values@, k as int),
        decreases values.len() - k,
    {
        match values[k] {
            Value::Reference { index, .. } => {
                if !holds(order, index) {
                    order.push(index);
                }
            },
            _ => {},
        }
        k += 1;
    }
}

/// The values, each pointing to the place that its allocation has in `order`.
fn move_slots(values: &Vec<Value>, order: &Vec<usize>) -> (r: Vec<Value>)
    ensures
        r@ == moved_slots(values@, order@),
{
    let mut out: Vec<Value> = Vec::new();
    let mut k: usize = 0;
    while k < values.len()
        invariant
            k <= values.len(),
            out@ == moved_slots(values@, order@).take(k as int),
        decreases values.len() - k,
    {
        let value = match values[k] {
            Value::Reference { index, offset } => Value::Reference { index: place_of(order, index), offset },
            other => other,
        };
        out.push(value);
        assert(out@ =~= moved_slots(values@, order@).take(k + 1));
        k += 1;
    }
    assert(moved_slots(values@, order@).take(values@.len() as int) =~= moved_slots(values@, order@));
    out
}

impl State {
    /// The order of the allocations in the normal form of the state.
    fn normal_order(&self) -> (order: Vec<usize>)
        requires
            self@.references_in_range(),
        ensures
            order@ == normal_order(self@),
            permutes(order@, self@.allocations.len()),
    {
        let ghost s = self@;
        let n = self.allocations.len();
        proof {
            self.lemma_view_wf();
        }
        let mut order: Vec<usize> = Vec::new();
        let mut registers: Vec<Value> = Vec::new();
        let mut r: usize = 0;
        while r < 16
            invariant
                r <= 16,
                registers@ == self@.registers.take(r as int),
            decreases 16 - r,
        {
            registers.push(self.registers[r]);
            assert(registers@ =~= self@.registers.take(r + 1));
            r += 1;
        }
        assert(self@.registers.take(16) =~= self@.registers);
        note(&mut order, &registers);
        proof {
            assert(distinct_within(Seq::<usize>::empty(), n as nat));
            lemma_note_references(s, Seq::empty(), s.registers, 16);
        }
        let ghost roots = order@;
        let mut next: usize = 0;
        while next < order.len()
            invariant
                s == self@,
                s.references_in_range(),
                n == s.allocations.len(),
                next <= order@.len(),
                distinct_within(order@, n as nat),
                reached_from(s, roots, 0) == reached_from(s, order@, next as int),
            decreases n - next,
        {
            proof {
                lemma_distinct_bounded(order@, n as nat);
            }
            let at = order[next];
            assert(order@[next as int] < n);
            let ghost before = order@;
            let ghost slots = s.allocations[at as int];
            assert(self.allocations@[at as int]@ == slots);
            proof {
                assert forall|k: int| 0 <= k < slots.len() implies s.in_range(#[trigger] slots[k]) by {
                    assert(s.in_range(s.allocations[at as int][k]));
                }
                lemma_note_references(s, before, slots, slots.len() as int);
            }
            note(&mut order, &self.allocations[at].0);
            next += 1;
        }
        proof {
            lemma_distinct_bounded(order@, n as nat);
        }
        let ghost reached = order@;
        let mut i: usize = 0;
        while i < n
            invariant
                i <= n,
                order@ == completed(reached, i as int),
            decreases n - i,
        {
            if !holds(&order, i) {
                order.push(i);
            }
            i += 1;
        }
        proof {
            lemma_completed(reached, n as nat, n as int);
            lemma_complete_is_permutation(order@, n as nat);
        }
        order
    }

    /// The normal form of the state: the same state with its allocations in
    /// the order in which the registers reach them.
    pub fn normalize(&self) -> (r: State)
        requires
            self@.references_in_range(),
        ensures
            r@ == normalized(self@),
            permutes(normal_order(self@), self@.allocations.len()),
    {
        let order = self.normal_order();
        let ghost s = self@;
        let mut registers = self.registers;
        let mut i: usize = 0;
        while i < 16
            invariant
                i <= 16,
                registers@.len() == 16,
                forall|k: int| 0 <= k < i ==> registers@[k] == moved(s.registers[k], order@),
                forall|k: int| i <= k < 16 ==> registers@[k] == s.registers[k],
                s == self@,
            decreases 16 - i,
        {
            let value = match registers[i] {
                Value::Reference { index, offset } => Value::Reference { index: place_of(&order, index), offset },
                other => other,
            };
            registers[i] = value;
            i += 1;
        }
        let mut allocations: Vec<Allocation> = Vec::new();
        let n = order.len();
        let mut k: usize = 0;
        while k < n
            invariant
                k <= n,
                n == order@.len(),
                s == self@,
                permutes(order@, s.allocations.len()),
                allocations@.len() == k,
                forall|j: int|
                    0 <= j < k ==> (#[trigger] allocations@[j])@ == moved_slots(
                        s.allocations[order@[j] as int],
                        order@,
                    ),
            decreases n - k,
        {
            let at = order[k];
            assert(order@[k as int] < s.allocations.len());
            assert(self.allocations@[at as int]@ == s.allocations[at as int]);
            let slots = move_slots(&self.allocations[at].0, &order);
            allocations.push(Allocation(slots));
            k += 1;
        }
        let r = State { registers, flags: self.flags, allocations };
        assert(r@.registers =~= moved_slots(s.registers, order@));
        assert(r@.allocations =~= reordered(s, order@).allocations);
        r
    }
}

impl State {
    /// Whether the two states are one state to the search: whether they have
    /// the same normal form.
    pub fn equivalent(&self, other: &State) -> (r: bool)
        requires
            self@.references_in_range(),
            other@.references_in_range(),
        ensures
            r == (normalized(self@) == normalized(other@)),
    {
        self.normalize().same(&other.normalize())
    }
}

} // verus!
