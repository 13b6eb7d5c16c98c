use vstd::prelude::*;

verus! {

/// Symbolic content of one machine slot.
#[derive(Clone, Copy, PartialEq, Eq, Structural, Hash, Debug)]
pub enum Value {
    /// Nothing is known or required of the slot.
    Unspecified,
    /// A concrete 64-bit integer.
    Literal(u64),
    /// An opaque runtime value, identified by its name.
    Symbol(usize),
    /// A pointer to slot `offset` of allocation `index` of the enclosing state.
    Reference { index: usize, offset: isize },
}

impl Value {
    /// Whether the slot holds anything but `Unspecified`.
    pub open spec fn specified(self) -> bool {
        self != Value::Unspecified
    }

    pub fn is_specified(&self) -> (r: bool)
        ensures
            r == self.specified(),
    {
        match self {
            Value::Unspecified => false,
            _ => true,
        }
    }
}

impl Default for Value {
    fn default() -> (r: Value)
        ensures
            r == Value::Unspecified,
    {
        Value::Unspecified
    }
}

} // verus!
