use vstd::prelude::*;
use crate::sink::{OffsetAssembler, Sink};
use crate::transition::Transition;

verus! {

/// Weight of one byte of code in a cost; clock cycles only break ties.
pub const BYTE_WEIGHT: usize = 10000;

impl Transition {
    /// Estimated run time of the transition, in clock cycles.
    pub open spec fn cycles_of(self) -> nat {
        match self {
            Transition::Assign { .. } => 3,
            Transition::Copy { dest, source } => if dest == source {
                0
            } else {
                3
            },
            Transition::Swap { dest, source } => if dest == source {
                0
            } else {
                6
            },
            Transition::Read { .. } => 6,
            Transition::Write { .. } => 12,
            Transition::Alloc { .. } => 24,
            Transition::Drop { .. } => 24,
        }
    }

    /// Cost of the transition: code size first, clock cycles to break ties.
    pub open spec fn cost_of(self) -> nat {
        self.size_of() * 10000 + self.cycles_of()
    }

    /// No transition costs more than this.
    pub proof fn lemma_cost_bound(self)
        ensures
            self.cost_of() <= 190024,
    {
        self.lemma_encoding_len();
    }

    /// Number of bytes of the transition's machine code, found by writing the
    /// code to a sink that only counts.
    pub fn size(&self) -> (r: usize)
        requires
            self.encodable(),
        ensures
            r == self.encoding().len(),
            r == self.size_of(),
    {
        proof {
            self.lemma_encoding_len();
        }
        let mut counter = OffsetAssembler::default();
        self.assemble(&mut counter);
        counter.offset()
    }

    /// Estimated run time of the transition, in clock cycles.
    pub fn cycles(&self) -> (r: usize)
        ensures
            r == self.cycles_of(),
    {
        match *self {
            Transition::Assign { .. } => 3,
            Transition::Copy { dest, source } => if dest.as_u8() == source.as_u8() {
                0
            } else {
                3
            },
            Transition::Swap { dest, source } => if dest.as_u8() == source.as_u8() {
                0
            } else {
                6
            },
            Transition::Read { .. } => 6,
            Transition::Write { .. } => 12,
            Transition::Alloc { .. } => 24,
            Transition::Drop { .. } => 24,
        }
    }

    /// Cost of the transition: code size first, clock cycles to break ties.
    pub fn cost(&self) -> (r: usize)
        requires
            self.encodable(),
        ensures
            r == self.cost_of(),
    {
        proof {
            self.lemma_encoding_len();
        }
        self.size() * BYTE_WEIGHT + self.cycles()
    }
}

/// The counting sink and the recording sink agree: whatever a transition
/// writes, both advance by the number of bytes of its machine code.
pub proof fn lemma_sinks_agree<A: Sink, B: Sink>(t: Transition, a0: A, a1: A, b0: B, b1: B)
    requires
        a1.took(&a0, t.encoding()),
        b1.took(&b0, t.encoding()),
    ensures
        a1.position() - a0.position() == t.size_of(),
        b1.position() - b0.position() == t.size_of(),
{
    t.lemma_encoding_len();
    a1.lemma_took_position(&a0, t.encoding());
    b1.lemma_took_position(&b0, t.encoding());
}

} // verus!
