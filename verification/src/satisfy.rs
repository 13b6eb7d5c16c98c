use vstd::prelude::*;
use vstd::set_lib::{lemma_int_range, lemma_len_subset, set_int_range};
use crate::state::{State, StateView};
use crate::value::Value;

verus! {

/// Whether the slot content `ours` meets what `wanted` asks for, as far as
/// the two slots alone can tell: a wanted reference only asks for a
/// reference at the same offset.
pub open spec fn basic_match(ours: Value, wanted: Value) -> bool {
    match wanted {
        Value::Unspecified => true,
        Value::Reference { offset, .. } => ours matches Value::Reference { offset: o, .. } && o == offset,
        _ => ours == wanted,
    }
}

/// Whether the slot content `ours` meets what `wanted` asks for, where
/// `pairs` says which of our allocations stand for which wanted allocations.
pub open spec fn slot_matches(ours: Value, wanted: Value, pairs: Set<(usize, usize)>) -> bool {
    match wanted {
        Value::Unspecified => true,
        Value::Reference { index, offset } => {
            match ours {
                Value::Reference { index: i, offset: o } => o == offset && pairs.contains((i, index)),
                _ => false,
            }
        },
        _ => ours == wanted,
    }
}

/// The first `upto` slots of `ours` meet what those of `wanted` ask for.
pub open spec fn prefix_matches(
    ours: Seq<Value>,
    wanted: Seq<Value>,
    pairs: Set<(usize, usize)>,
    upto: int,
) -> bool {
    forall|k: int| 0 <= k < upto ==> slot_matches(#[trigger] ours[k], wanted[k], pairs)
}

/// Our allocation `i` has the length of the wanted allocation `j` and meets
/// what it asks for.
pub open spec fn alloc_matches(s: StateView, goal: StateView, i: int, j: int, pairs: Set<(usize, usize)>) -> bool {
    &&& 0 <= i < s.allocations.len()
    &&& 0 <= j < goal.allocations.len()
    &&& s.allocations[i].len() == goal.allocations[j].len()
    &&& prefix_matches(s.allocations[i], goal.allocations[j], pairs, s.allocations[i].len() as int)
}

/// `pairs` relates allocations of `s` to allocations of `goal` such that the
/// registers and flags of `s` meet what those of `goal` ask for, and so does
/// each related allocation.
pub open spec fn simulation(s: StateView, goal: StateView, pairs: Set<(usize, usize)>) -> bool {
    &&& prefix_matches(s.registers, goal.registers, pairs, 16)
    &&& prefix_matches(s.flags, goal.flags, pairs, 7)
    &&& forall|p: (usize, usize)| #[trigger]
        pairs.contains(p) ==> alloc_matches(s, goal, p.0 as int, p.1 as int, pairs)
}

/// State `s` satisfies `goal`: every specified slot of the goal is met, and
/// where the goal points to an allocation, we point to one that meets it in
/// turn, cycles included.
pub open spec fn satisfies(s: StateView, goal: StateView) -> bool {
    exists|pairs: Set<(usize, usize)>| simulation(s, goal, pairs)
}

/// The relation that pairs each allocation with itself.
pub open spec fn identity_pairs(count: nat) -> Set<(usize, usize)> {
    Set::new(|p: (usize, usize)| p.0 == p.1 && p.0 < count)
}

/// Every valid state satisfies itself.
pub proof fn lemma_satisfies_reflexive(s: StateView)
    requires
        s.wf(),
        s.valid(),
    ensures
        satisfies(s, s),
{
    let pairs = identity_pairs(s.allocations.len());
    assert forall|k: int| 0 <= k < 16 implies slot_matches(#[trigger] s.registers[k], s.registers[k], pairs) by {
        assert(s.in_range(s.registers[k]));
    }
    assert forall|k: int| 0 <= k < 7 implies slot_matches(#[trigger] s.flags[k], s.flags[k], pairs) by {
        assert(crate::state::flag_content(s.flags[k]));
    }
    assert forall|p: (usize, usize)| #[trigger] pairs.contains(p) implies alloc_matches(
        s,
        s,
        p.0 as int,
        p.1 as int,
        pairs,
    ) by {
        let a = p.0 as int;
        assert forall|k: int| 0 <= k < s.allocations[a].len() implies slot_matches(
            #[trigger] s.allocations[a][k],
            s.allocations[a][k],
            pairs,
        ) by {
            assert(s.in_range(s.allocations[a][k]));
        }
    }
    assert(simulation(s, s, pairs));
}

/// The pair that `ours` and `wanted` ask to be related, added to `seen`
/// unless it is there.
pub open spec fn note_pair(seen: Seq<(usize, usize)>, ours: Value, wanted: Value) -> Seq<(usize, usize)> {
    match (ours, wanted) {
        (Value::Reference { index: i, offset: o }, Value::Reference { index: j, offset }) => {
            if o == offset && !seen.contains((i, j)) {
                seen.push((i, j))
            } else {
                seen
            }
        },
        _ => seen,
    }
}

/// Every pair of `seen` names an allocation of each state.
spec fn in_bounds(seen: Seq<(usize, usize)>, n: nat, m: nat) -> bool {
    forall|k: int| 0 <= k < seen.len() ==> (#[trigger] seen[k]).0 < n && seen[k].1 < m
}

/// `pairs` holds every pair of `seen`.
spec fn covers(pairs: Set<(usize, usize)>, seen: Seq<(usize, usize)>) -> bool {
    forall|k: int| 0 <= k < seen.len() ==> pairs.contains(#[trigger] seen[k])
}

/// Every simulation holds every pair of `seen`.
spec fn forced(s: StateView, goal: StateView, seen: Seq<(usize, usize)>) -> bool {
    forall|pairs: Set<(usize, usize)>| #[trigger] simulation(s, goal, pairs) ==> covers(pairs, seen)
}

/// In every simulation, `ours` meets what `wanted` asks for.
spec fn must_match(s: StateView, goal: StateView, ours: Value, wanted: Value) -> bool {
    forall|pairs: Set<(usize, usize)>| #[trigger]
        simulation(s, goal, pairs) ==> slot_matches(ours, wanted, pairs)
}

/// The allocations paired by the first `upto` pairs of `seen` match.
spec fn checked(s: StateView, goal: StateView, seen: Seq<(usize, usize)>, upto: int) -> bool {
    forall|k: int|
        0 <= k < upto ==> alloc_matches(
            s,
            goal,
            (#[trigger] seen[k]).0 as int,
            seen[k].1 as int,
            seen.to_set(),
        )
}

/// `longer` starts with `shorter`.
spec fn extends(longer: Seq<(usize, usize)>, shorter: Seq<(usize, usize)>) -> bool {
    shorter.len() <= longer.len() && forall|k: int| 0 <= k < shorter.len() ==> longer[k] == #[trigger] shorter[k]
}

proof fn lemma_prefix_grow(
    ours: Seq<Value>,
    wanted: Seq<Value>,
    small: Set<(usize, usize)>,
    big: Set<(usize, usize)>,
    upto: int,
)
    requires
        small.subset_of(big),
        prefix_matches(ours, wanted, small, upto),
    ensures
        prefix_matches(ours, wanted, big, upto),
{
    assert forall|k: int| 0 <= k < upto implies slot_matches(#[trigger] ours[k], wanted[k], big) by {
        assert(slot_matches(ours[k], wanted[k], small));
    }
}

proof fn lemma_checked_grow(
    s: StateView,
    goal: StateView,
    shorter: Seq<(usize, usize)>,
    longer: Seq<(usize, usize)>,
    upto: int,
)
    requires
        extends(longer, shorter),
        upto <= shorter.len(),
        checked(s, goal, shorter, upto),
    ensures
        checked(s, goal, longer, upto),
        shorter.to_set().subset_of(longer.to_set()),
{
    assert forall|p: (usize, usize)| shorter.to_set().contains(p) implies longer.to_set().contains(p) by {
        let k = choose|k: int| 0 <= k < shorter.len() && shorter[k] == p;
        assert(longer[k] == p);
    }
    assert forall|k: int| 0 <= k < upto implies alloc_matches(
        s,
        goal,
        (#[trigger] longer[k]).0 as int,
        longer[k].1 as int,
        longer.to_set(),
    ) by {
        assert(longer[k] == shorter[k]);
        let i = shorter[k].0 as int;
        let j = shorter[k].1 as int;
        assert(alloc_matches(s, goal, i, j, shorter.to_set()));
        lemma_prefix_grow(
            s.allocations[i],
            goal.allocations[j],
            shorter.to_set(),
            longer.to_set(),
            s.allocations[i].len() as int,
        );
    }
}

/// What one more matching slot does to the pairs seen so far.
proof fn lemma_slot_step(
    s: StateView,
    goal: StateView,
    seen: Seq<(usize, usize)>,
    ours: Value,
    wanted: Value,
)
    requires
        forced(s, goal, seen),
        must_match(s, goal, ours, wanted),
        basic_match(ours, wanted),
        seen.no_duplicates(),
        in_bounds(seen, s.allocations.len(), goal.allocations.len()),
        s.in_range(ours),
        goal.in_range(wanted),
    ensures
        forced(s, goal, note_pair(seen, ours, wanted)),
        note_pair(seen, ours, wanted).no_duplicates(),
        in_bounds(note_pair(seen, ours, wanted), s.allocations.len(), goal.allocations.len()),
        extends(note_pair(seen, ours, wanted), seen),
        slot_matches(ours, wanted, note_pair(seen, ours, wanted).to_set()),
{
    let next = note_pair(seen, ours, wanted);
    match (ours, wanted) {
        (Value::Reference { index: i, offset: o }, Value::Reference { index: j, offset }) => {
            if !seen.contains((i, j)) {
                assert(next[seen.len() as int] == (i, j));
                assert(next.to_set().contains((i, j)));
                assert forall|pairs: Set<(usize, usize)>| #[trigger]
                    simulation(s, goal, pairs) implies covers(pairs, next) by {
                    assert(covers(pairs, seen));
                    assert(slot_matches(ours, wanted, pairs));
                    assert forall|k: int| 0 <= k < next.len() implies pairs.contains(#[trigger] next[k]) by {
                        if k < seen.len() {
                            assert(next[k] == seen[k]);
                        }
                    }
                }
                assert forall|a: int, b: int| 0 <= a < next.len() && 0 <= b < next.len() && a != b implies next[a]
                    != next[b] by {
                    if a < seen.len() && b < seen.len() {
                        assert(seen[a] != seen[b]);
                    } else if a < seen.len() {
                        assert(seen[a] != (i, j));
                    } else if b < seen.len() {
                        assert(seen[b] != (i, j));
                    }
                }
            } else {
                assert(seen.to_set().contains((i, j)));
            }
        },
        _ => {},
    }
}

/// A slot that fails the basic match rules every simulation out.
proof fn lemma_slot_fail(s: StateView, goal: StateView, ours: Value, wanted: Value)
    requires
        must_match(s, goal, ours, wanted),
        !basic_match(ours, wanted),
    ensures
        !satisfies(s, goal),
{
    if satisfies(s, goal) {
        let pairs = choose|pairs: Set<(usize, usize)>| simulation(s, goal, pairs);
        assert(slot_matches(ours, wanted, pairs));
    }
}

proof fn lemma_code_injective(i: int, j: int, a: int, b: int, m: int)
    requires
        0 <= j < m,
        0 <= b < m,
        0 <= i,
        0 <= a,
        i * m + j == a * m + b,
    ensures
        i == a,
        j == b,
{
    assert(i == a) by (nonlinear_arith)
        requires
            0 <= j < m,
            0 <= b < m,
            0 <= i,
            0 <= a,
            i * m + j == a * m + b,
    ;
}

proof fn lemma_code_bound(i: int, j: int, n: int, m: int)
    requires
        0 <= i < n,
        0 <= j < m,
    ensures
        0 <= i * m + j < n * m,
{
    assert(0 <= i * m + j < n * m) by (nonlinear_arith)
        requires
            0 <= i < n,
            0 <= j < m,
    ;
}

/// A list of distinct pairs out of `n` times `m` has at most `n * m` entries.
proof fn lemma_pairs_bounded(seen: Seq<(usize, usize)>, n: nat, m: nat)
    requires
        seen.no_duplicates(),
        in_bounds(seen, n, m),
    ensures
        seen.len() <= n * m,
{
    let total = (n * m) as int;
    let codes = Seq::new(seen.len(), |k: int| (seen[k].0 * m + seen[k].1) as int);
    assert forall|a: int, b: int| 0 <= a < codes.len() && 0 <= b < codes.len() && a != b implies codes[a]
        != codes[b] by {
        if codes[a] == codes[b] {
            lemma_code_injective(seen[a].0 as int, seen[a].1 as int, seen[b].0 as int, seen[b].1 as int, m as int);
            assert(seen[a] == seen[b]);
        }
    }
    assert(n * m >= 0) by (nonlinear_arith)
        requires
            n >= 0,
            m >= 0,
    ;
    lemma_int_range(0, total);
    assert forall|c: int| codes.to_set().contains(c) implies set_int_range(0, total).contains(c) by {
        let k = choose|k: int| 0 <= k < codes.len() && codes[k] == c;
        lemma_code_bound(seen[k].0 as int, seen[k].1 as int, n as int, m as int);
    }
    lemma_len_subset(codes.to_set(), set_int_range(0, total));
    codes.unique_seq_to_set();
}

/// Whether `seen` holds the pair `(i, j)`.
fn holds_pair(seen: &Vec<(usize, usize)>, i: usize, j: usize) -> (r: bool)
    ensures
        r == seen@.contains((i, j)),
{
    let mut k: usize = 0;
    while k < seen.len()
        invariant
            k <= seen.len(),
            forall|q: int| 0 <= q < k ==> seen@[q] != (i, j),
        decreases seen.len() - k,
    {
        if seen[k].0 == i && seen[k].1 == j {
            assert(seen@[k as int] == (i, j));
            return true;
        }
        k += 1;
    }
    false
}

/// Compares one slot with what is wanted of it, and notes the pair of
/// allocations that has to match in turn.
fn check_slot(ours: Value, wanted: Value, seen: &mut Vec<(usize, usize)>) -> (ok: bool)
    ensures
        ok == basic_match(ours, wanted),
        ok ==> final(seen)@ == note_pair(old(seen)@, ours, wanted),
        !ok ==> final(seen)@ == old(seen)@,
{
    match wanted {
        Value::Unspecified => true,
        Value::Reference { index: j, offset } => {
            match ours {
                Value::Reference { index: i, offset: o } => {
                    if o == offset {
                        if !holds_pair(seen, i, j) {
                            seen.push((i, j));
                        }
                        true
                    } else {
                        false
                    }
                },
                _ => false,
            }
        },
        _ => ours == wanted,
    }
}

impl State {
    /// Whether this state satisfies `goal`.
    pub fn satisfies(&self, goal: &State) -> (r: bool)
        requires
            self@.valid(),
            goal@.valid(),
        ensures
            r == satisfies(self@, goal@),
    {
        let ghost s = self@;
        let ghost g = goal@;
        let n = self.allocations.len();
        let m = goal.allocations.len();
        proof {
            self.lemma_view_wf();
            goal.lemma_view_wf();
        }
        let mut seen: Vec<(usize, usize)> = Vec::new();
        let mut r: usize = 0;
        while r < 16
            invariant
                r <= 16,
                s == self@,
                g == goal@,
                s.valid(),
                g.valid(),
                s.wf(),
                g.wf(),
                seen@.no_duplicates(),
                in_bounds(seen@, s.allocations.len(), g.allocations.len()),
                forced(s, g, seen@),
                prefix_matches(s.registers, g.registers, seen@.to_set(), r as int),
            decreases 16 - r,
        {
            let ours = self.registers[r];
            let wanted = goal.registers[r];
            let ghost before = seen@;
            proof {
                assert(s.in_range(s.registers[r as int]));
                assert(g.in_range(g.registers[r as int]));
                assert forall|pairs: Set<(usize, usize)>| #[trigger]
                    simulation(s, g, pairs) implies slot_matches(ours, wanted, pairs) by {
                    assert(slot_matches(s.registers[r as int], g.registers[r as int], pairs));
                }
            }
            if !check_slot(ours, wanted, &mut seen) {
                proof {
                    lemma_slot_fail(s, g, ours, wanted);
                }
                return false;
            }
            proof {
                lemma_slot_step(s, g, before, ours, wanted);
                lemma_checked_grow(s, g, before, seen@, 0);
                lemma_prefix_grow(s.registers, g.registers, before.to_set(), seen@.to_set(), r as int);
            }
            r += 1;
        }
        let mut f: usize = 0;
        while f < 7
            invariant
                f <= 7,
                s == self@,
                g == goal@,
                s.valid(),
                g.valid(),
                s.wf(),
                g.wf(),
                seen@.no_duplicates(),
                in_bounds(seen@, s.allocations.len(), g.allocations.len()),
                forced(s, g, seen@),
                prefix_matches(s.registers, g.registers, seen@.to_set(), 16),
                prefix_matches(s.flags, g.flags, seen@.to_set(), f as int),
            decreases 7 - f,
        {
            let ours = self.flags[f];
            let wanted = goal.flags[f];
            let ghost before = seen@;
            proof {
                assert(crate::state::flag_content(s.flags[f as int]));
                assert(crate::state::flag_content(g.flags[f as int]));
                assert forall|pairs: Set<(usize, usize)>| #[trigger]
                    simulation(s, g, pairs) implies slot_matches(ours, wanted, pairs) by {
                    assert(slot_matches(s.flags[f as int], g.flags[f as int], pairs));
                }
            }
            if !check_slot(ours, wanted, &mut seen) {
                proof {
                    lemma_slot_fail(s, g, ours, wanted);
                }
                return false;
            }
            proof {
                lemma_slot_step(s, g, before, ours, wanted);
                lemma_checked_grow(s, g, before, seen@, 0);
                lemma_prefix_grow(s.registers, g.registers, before.to_set(), seen@.to_set(), 16);
                lemma_prefix_grow(s.flags, g.flags, before.to_set(), seen@.to_set(), f as int);
            }
            f += 1;
        }
        let mut next: usize = 0;
        while next < seen.len()
            invariant
                next <= seen.len(),
                n == s.allocations.len(),
                m == g.allocations.len(),
                s == self@,
                g == goal@,
                s.valid(),
                g.valid(),
                s.wf(),
                g.wf(),
                seen@.no_duplicates(),
                in_bounds(seen@, s.allocations.len(), g.allocations.len()),
                forced(s, g, seen@),
                prefix_matches(s.registers, g.registers, seen@.to_set(), 16),
                prefix_matches(s.flags, g.flags, seen@.to_set(), 7),
                checked(s, g, seen@, next as int),
            decreases n * m - next,
        {
            proof {
                lemma_pairs_bounded(seen@, n as nat, m as nat);
            }
            let i = seen[next].0;
            let j = seen[next].1;
            assert(seen@[next as int] == (i, j));
            let ours = &self.allocations[i];
            let theirs = &goal.allocations[j];
            assert(ours@ == s.allocations[i as int]);
            assert(theirs@ == g.allocations[j as int]);
            if ours.len() != theirs.len() {
                proof {
                    if satisfies(s, g) {
                        let pairs = choose|pairs: Set<(usize, usize)>| simulation(s, g, pairs);
                        assert(covers(pairs, seen@));
                        assert(pairs.contains(seen@[next as int]));
                        assert(alloc_matches(s, g, i as int, j as int, pairs));
                    }
                }
                return false;
            }
            let len = ours.len();
            let mut k: usize = 0;
            while k < len
                invariant
                    k <= len,
                    next < seen.len(),
                    seen@[next as int] == (i, j),
                    i < n,
                    j < m,
                    n == s.allocations.len(),
                    m == g.allocations.len(),
                    ours@ == s.allocations[i as int],
                    theirs@ == g.allocations[j as int],
                    len == ours@.len(),
                    len == theirs@.len(),
                    s == self@,
                    g == goal@,
                    s.valid(),
                    g.valid(),
                    s.wf(),
                    g.wf(),
                    seen@.no_duplicates(),
                    in_bounds(seen@, s.allocations.len(), g.allocations.len()),
                    forced(s, g, seen@),
                    prefix_matches(s.registers, g.registers, seen@.to_set(), 16),
                    prefix_matches(s.flags, g.flags, seen@.to_set(), 7),
                    checked(s, g, seen@, next as int),
                    prefix_matches(ours@, theirs@, seen@.to_set(), k as int),
                decreases len - k,
            {
                let have = ours.0[k];
                let wanted = theirs.0[k];
                let ghost before = seen@;
                proof {
                    assert(s.in_range(s.allocations[i as int][k as int]));
                    assert(g.in_range(g.allocations[j as int][k as int]));
                    assert forall|pairs: Set<(usize, usize)>| #[trigger]
                        simulation(s, g, pairs) implies slot_matches(have, wanted, pairs) by {
                        assert(covers(pairs, before));
                        assert(pairs.contains(before[next as int]));
                        assert(alloc_matches(s, g, i as int, j as int, pairs));
                        assert(slot_matches(s.allocations[i as int][k as int], g.allocations[j as int][k as int], pairs));
                    }
                }
                if !check_slot(have, wanted, &mut seen) {
                    proof {
                        lemma_slot_fail(s, g, have, wanted);
                    }
                    return false;
                }
                proof {
                    lemma_slot_step(s, g, before, have, wanted);
                    lemma_checked_grow(s, g, before, seen@, next as int);
                    lemma_prefix_grow(s.registers, g.registers, before.to_set(), seen@.to_set(), 16);
                    lemma_prefix_grow(s.flags, g.flags, before.to_set(), seen@.to_set(), 7);
                    lemma_prefix_grow(ours@, theirs@, before.to_set(), seen@.to_set(), k as int);
                    assert(seen@[next as int] == before[next as int]);
                }
                k += 1;
            }
            assert(alloc_matches(s, g, seen@[next as int].0 as int, seen@[next as int].1 as int, seen@.to_set()));
            next += 1;
        }
        proof {
            let pairs = seen@.to_set();
            assert forall|p: (usize, usize)| #[trigger] pairs.contains(p) implies alloc_matches(
                s,
                g,
                p.0 as int,
                p.1 as int,
                pairs,
            ) by {
                let k = choose|k: int| 0 <= k < seen@.len() && seen@[k] == p;
                assert(alloc_matches(s, g, seen@[k].0 as int, seen@[k].1 as int, pairs));
            }
            assert(simulation(s, g, pairs));
        }
        true
    }
}

} // verus!
