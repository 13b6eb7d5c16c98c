use vstd::prelude::*;
use crate::state::{literal_list, size_list, Register, State, StateView};
use crate::transition::Transition;
use crate::value::Value;

verus! {

/// Whether a slot offset can be written as a 32-bit byte displacement.
pub open spec fn addressable(offset: int) -> bool {
    -0x1000_0000 <= offset <= 0x0fff_ffff
}

/// `Assign` of `value` to each register below `upto`.
pub open spec fn assign_row(value: u64, upto: int) -> Seq<Transition>
    decreases upto,
{
    if upto <= 0 {
        Seq::empty()
    } else {
        assign_row(value, upto - 1).push(Transition::Assign { dest: Register((upto - 1) as u8), value })
    }
}

/// `Assign` of each of the first `upto` literals to each register.
pub open spec fn assign_rows(literals: Seq<u64>, upto: int) -> Seq<Transition>
    decreases upto,
{
    if upto <= 0 {
        Seq::empty()
    } else {
        assign_rows(literals, upto - 1) + assign_row(literals[upto - 1], 16)
    }
}

/// `Alloc` of `size` slots into each register below `upto`.
pub open spec fn alloc_row(size: usize, upto: int) -> Seq<Transition>
    decreases upto,
{
    if upto <= 0 {
        Seq::empty()
    } else {
        alloc_row(size, upto - 1).push(Transition::Alloc { dest: Register((upto - 1) as u8), size })
    }
}

/// `Alloc` of each of the first `upto` sizes into each register.
pub open spec fn alloc_rows(sizes: Seq<usize>, upto: int) -> Seq<Transition>
    decreases upto,
{
    if upto <= 0 {
        Seq::empty()
    } else {
        alloc_rows(sizes, upto - 1) + alloc_row(sizes[upto - 1], 16)
    }
}

/// The copy of `source` to `dest`, unless they are the same register, and the
/// swap of the two where `dest` comes later and is specified.
pub open spec fn move_pair(s: StateView, source: int, dest: int) -> Seq<Transition> {
    (if source != dest {
        seq![Transition::Copy { dest: Register(dest as u8), source: Register(source as u8) }]
    } else {
        Seq::empty()
    }) + (if source < dest && s.registers[dest].specified() {
        seq![Transition::Swap { dest: Register(dest as u8), source: Register(source as u8) }]
    } else {
        Seq::empty()
    })
}

/// The copies and swaps of `source` with the registers below `upto`.
pub open spec fn move_row(s: StateView, source: int, upto: int) -> Seq<Transition>
    decreases upto,
{
    if upto <= 0 {
        Seq::empty()
    } else {
        move_row(s, source, upto - 1) + move_pair(s, source, upto - 1)
    }
}

/// The read of the slot at `offset` from `source` into `dest`, where the slot
/// is specified, and the write of `dest` into that slot, where `dest` is.
pub open spec fn access_pair(s: StateView, source: int, offset: isize, dest: int) -> Seq<Transition> {
    (if s.resolve(s.registers[source], offset as int) matches Some(v) && v.specified() {
        seq![Transition::Read { dest: Register(dest as u8), source: Register(source as u8), offset }]
    } else {
        Seq::empty()
    }) + (if s.registers[dest].specified() {
        seq![Transition::Write { dest: Register(source as u8), offset, source: Register(dest as u8) }]
    } else {
        Seq::empty()
    })
}

/// The reads and writes of the slot at `offset` from `source` with the
/// registers below `upto`.
pub open spec fn access_row(s: StateView, source: int, offset: isize, upto: int) -> Seq<Transition>
    decreases upto,
{
    if upto <= 0 {
        Seq::empty()
    } else {
        access_row(s, source, offset, upto - 1) + access_pair(s, source, offset, upto - 1)
    }
}

/// The reads and writes through `source`, which points `base` slots into an
/// allocation, of those of its first `upto` slots that can be addressed.
pub open spec fn access_rows(s: StateView, source: int, base: int, upto: int) -> Seq<Transition>
    decreases upto,
{
    if upto <= 0 {
        Seq::empty()
    } else {
        access_rows(s, source, base, upto - 1) + (if addressable(upto - 1 - base) {
            access_row(s, source, (upto - 1 - base) as isize, 16)
        } else {
            Seq::empty()
        })
    }
}

/// The reads and writes through register `source`, if it holds a reference.
pub open spec fn accesses(s: StateView, source: int) -> Seq<Transition> {
    match s.registers[source] {
        Value::Reference { index, offset } => access_rows(
            s,
            source,
            offset as int,
            s.allocations[index as int].len() as int,
        ),
        _ => Seq::empty(),
    }
}

/// What register `source` gives rise to: nothing when it is unspecified,
/// else its copies and swaps and the reads and writes through it.
pub open spec fn source_part(s: StateView, source: int) -> Seq<Transition> {
    if s.registers[source].specified() {
        move_row(s, source, 16) + accesses(s, source)
    } else {
        Seq::empty()
    }
}

/// What the registers below `upto` give rise to.
pub open spec fn source_parts(s: StateView, upto: int) -> Seq<Transition>
    decreases upto,
{
    if upto <= 0 {
        Seq::empty()
    } else {
        source_parts(s, upto - 1) + source_part(s, upto - 1)
    }
}

/// `Drop` of each register below `upto` that holds a reference.
pub open spec fn drop_row(s: StateView, upto: int) -> Seq<Transition>
    decreases upto,
{
    if upto <= 0 {
        Seq::empty()
    } else if s.registers[upto - 1] is Reference {
        drop_row(s, upto - 1).push(Transition::Drop { dest: Register((upto - 1) as u8) })
    } else {
        drop_row(s, upto - 1)
    }
}

/// The transitions worth trying in state `s` on the way to `goal`, in the
/// order in which they are tried.
pub open spec fn useful(s: StateView, goal: StateView) -> Seq<Transition> {
    assign_rows(literal_list(goal.slots()), literal_list(goal.slots()).len() as int) + source_parts(s, 16)
        + alloc_rows(size_list(goal.allocations), size_list(goal.allocations).len() as int) + drop_row(
        s,
        16,
    )
}

impl State {
    /// The reads and writes through register `source`, added to `out`.
    fn push_accesses(&self, source: u8, out: &mut Vec<Transition>)
        requires
            source < 16,
            self@.references_in_range(),
        ensures
            final(out)@ == old(out)@ + accesses(self@, source as int),
    {
        let ghost s = self@;
        let ghost start = out@;
        match self.registers[source as usize] {
            Value::Reference { index, offset: base } => {
                assert(s.in_range(s.registers[source as int]));
                let len = self.allocations[index].len();
                let mut n: usize = 0;
                assert(start + access_rows(s, source as int, base as int, 0) =~= start);
                while n < len
                    invariant
                        n <= len,
                        source < 16,
                        s == self@,
                        index < s.allocations.len(),
                        len == s.allocations[index as int].len(),
                        s.registers[source as int] == (Value::Reference { index, offset: base }),
                        out@ == start + access_rows(s, source as int, base as int, n as int),
                    decreases len - n,
                {
                    let ghost rows = out@;
                    let position: i128 = n as i128 - base as i128;
                    if -0x1000_0000 <= position && position <= 0x0fff_ffff {
                        let offset = position as isize;
                        let readable = self.allocations[index].0[n].is_specified();
                        assert(s.resolve(s.registers[source as int], offset as int) == Some(
                            s.allocations[index as int][n as int],
                        ));
                        let mut d: u8 = 0;
                        assert(rows + access_row(s, source as int, offset, 0) =~= rows);
                        while d < 16
                            invariant
                                d <= 16,
                                source < 16,
                                s == self@,
                                readable == (s.resolve(s.registers[source as int], offset as int) matches Some(
                                    v,
                                ) && v.specified()),
                                out@ == rows + access_row(s, source as int, offset, d as int),
                            decreases 16 - d,
                        {
                            let ghost row = out@;
                            if readable {
                                out.push(
                                    Transition::Read { dest: Register(d), source: Register(source), offset },
                                );
                            }
                            if self.registers[d as usize].is_specified() {
                                out.push(
                                    Transition::Write { dest: Register(source), offset, source: Register(d) },
                                );
                            }
                            assert(out@ =~= row + access_pair(s, source as int, offset, d as int));
                            assert(rows + access_row(s, source as int, offset, d + 1) =~= row + access_pair(
                                s,
                                source as int,
                                offset,
                                d as int,
                            ));
                            d += 1;
                        }
                    }
                    assert(out@ =~= start + access_rows(s, source as int, base as int, n + 1));
                    n += 1;
                }
            },
            _ => {
                assert(start + accesses(s, source as int) =~= start);
            },
        }
    }

    /// The transitions worth trying in this state on the way to `goal`.
    pub fn useful_transitions(&self, goal: &State) -> (r: Vec<Transition>)
        requires
            self@.references_in_range(),
        ensures
            r@ == useful(self@, goal@),
    {
        let ghost s = self@;
        let mut out: Vec<Transition> = Vec::new();
        let literals = goal.literals();
        let mut i: usize = 0;
        while i < literals.len()
            invariant
                i <= literals.len(),
                out@ == assign_rows(literals@, i as int),
            decreases literals.len() - i,
        {
            let value = literals[i];
            let ghost rows = out@;
            let mut d: u8 = 0;
            assert(rows + assign_row(value, 0) =~= rows);
            while d < 16
                invariant
                    d <= 16,
                    out@ == rows + assign_row(value, d as int),
                decreases 16 - d,
            {
                out.push(Transition::Assign { dest: Register(d), value });
                assert(out@ =~= rows + assign_row(value, d + 1));
                d += 1;
            }
            i += 1;
        }
        let ghost assigns = out@;
        let mut source: u8 = 0;
        assert(assigns + source_parts(s, 0) =~= assigns);
        while source < 16
            invariant
                source <= 16,
                s == self@,
                s.references_in_range(),
                out@ == assigns + source_parts(s, source as int),
            decreases 16 - source,
        {
            let ghost parts = out@;
            if self.registers[source as usize].is_specified() {
                let mut d: u8 = 0;
                assert(parts + move_row(s, source as int, 0) =~= parts);
                while d < 16
                    invariant
                        d <= 16,
                        source < 16,
                        s == self@,
                        out@ == parts + move_row(s, source as int, d as int),
                    decreases 16 - d,
                {
                    let ghost row = out@;
                    if source != d {
                        out.push(Transition::Copy { dest: Register(d), source: Register(source) });
                    }
                    if source < d && self.registers[d as usize].is_specified() {
                        out.push(Transition::Swap { dest: Register(d), source: Register(source) });
                    }
                    assert(out@ =~= row + move_pair(s, source as int, d as int));
                    assert(parts + move_row(s, source as int, d + 1) =~= row + move_pair(
                        s,
                        source as int,
                        d as int,
                    ));
                    d += 1;
                }
                self.push_accesses(source, &mut out);
                assert(out@ =~= parts + source_part(s, source as int));
            } else {
                assert(parts + source_part(s, source as int) =~= parts);
            }
            assert(assigns + source_parts(s, source + 1) =~= parts + source_part(s, source as int));
            source += 1;
        }
        let ghost moves = out@;
        let sizes = goal.alloc_sizes();
        let mut j: usize = 0;
        assert(moves + alloc_rows(sizes@, 0) =~= moves);
        while j < sizes.len()
            invariant
                j <= sizes.len(),
                out@ == moves + alloc_rows(sizes@, j as int),
            decreases sizes.len() - j,
        {
            let size = sizes[j];
            let ghost rows = out@;
            let mut d: u8 = 0;
            assert(rows + alloc_row(size, 0) =~= rows);
            while d < 16
                invariant
                    d <= 16,
                    out@ == rows + alloc_row(size, d as int),
                decreases 16 - d,
            {
                out.push(Transition::Alloc { dest: Register(d), size });
                assert(out@ =~= rows + alloc_row(size, d + 1));
                d += 1;
            }
            assert(out@ =~= moves + alloc_rows(sizes@, j + 1));
            j += 1;
        }
        let ghost allocs = out@;
        let mut d: u8 = 0;
        assert(allocs + drop_row(s, 0) =~= allocs);
        while d < 16
            invariant
                d <= 16,
                s == self@,
                out@ == allocs + drop_row(s, d as int),
            decreases 16 - d,
        {
            if let Value::Reference { .. } = self.registers[d as usize] {
                out.push(Transition::Drop { dest: Register(d) });
            }
            assert(out@ =~= allocs + drop_row(s, d + 1));
            d += 1;
        }
        out
    }
}

} // verus!
