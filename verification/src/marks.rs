use vstd::prelude::*;

verus! {

/// A vector of bits, one for each of a number of things that may be marked:
/// a `bitvec::vec::BitVec`, of which the verifier knows only what the
/// functions below state, in terms of the bits that it holds.
#[verifier::external_body]
#[derive(Debug)]
pub struct Marks {
    bits: bitvec::vec::BitVec<u64, bitvec::order::Lsb0>,
}

/// The bits that a bit vector holds, first to last.
pub uninterp spec fn bits(marks: Marks) -> Seq<bool>;

/// Largest number of bits that one bit vector can hold.
pub open spec fn max_marks() -> int {
    usize::MAX as int / 8
}

/// `BitVec::repeat(false, len)`: a vector of `len` cleared bits. The call
/// panics beyond `max_marks()` bits, which the precondition leaves out.
#[verifier::external_body]
pub(crate) fn cleared(len: usize) -> (marks: Marks)
    requires
        len <= max_marks(),
    ensures
        bits(marks) == Seq::new(len as nat, |i: int| false),
{
    Marks { bits: bitvec::vec::BitVec::repeat(false, len) }
}

/// `BitSlice::not_all`: whether at least one bit is cleared.
#[verifier::external_body]
pub(crate) fn any_cleared(marks: &Marks) -> (found: bool)
    ensures
        found == (exists|i: int| 0 <= i < bits(*marks).len() && !bits(*marks)[i]),
{
    marks.bits.not_all()
}

/// `BitVec::len`: the number of bits.
#[verifier::external_body]
pub(crate) fn count(marks: &Marks) -> (len: usize)
    ensures
        len == bits(*marks).len(),
{
    marks.bits.len()
}

/// Indexing of a `BitSlice` by a `usize`: the bit at `index`. The index
/// panics beyond the last bit, which the precondition leaves out.
#[verifier::external_body]
pub(crate) fn marked(marks: &Marks, index: usize) -> (bit: bool)
    requires
        index < bits(*marks).len(),
    ensures
        bit == bits(*marks)[index as int],
{
    marks.bits[index]
}

/// `BitSlice::set`: writes `value` into the bit at `index`. The call panics
/// beyond the last bit, which the precondition leaves out.
#[verifier::external_body]
pub(crate) fn assign(marks: &mut Marks, index: usize, value: bool)
    requires
        index < bits(*old(marks)).len(),
    ensures
        bits(*final(marks)) == bits(*old(marks)).update(index as int, value),
{
    marks.bits.set(index, value)
}

/// `BitVec::clone`: a vector of the same bits.
#[verifier::external_body]
pub(crate) fn duplicate(marks: &Marks) -> (copy: Marks)
    ensures
        bits(copy) == bits(*marks),
{
    Marks { bits: marks.bits.clone() }
}

} // verus!
