use vstd::prelude::*;

verus! {

/// An argument of a tail call, after names have been resolved.
#[derive(Clone, Copy, PartialEq, Eq, Structural, Hash, Debug)]
pub enum Expression {
    /// A symbol: a parameter, a captured value or the name of a declaration.
    Symbol(usize),
    /// The import with this number.
    Import(usize),
    /// The string with this number.
    Literal(usize),
    /// The number with this place in the pool of numbers.
    Number(usize),
}

/// A procedure: its name and parameters, the tail call that is its body, and
/// the symbols that it captures.
#[derive(Clone, PartialEq, Eq, Hash, Debug)]
pub struct Declaration {
    /// The name of the procedure, then its parameters.
    pub procedure: Vec<usize>,
    /// The tail call: what to jump to, then the arguments.
    pub call: Vec<Expression>,
    /// The symbols captured from the environment.
    pub closure: Vec<usize>,
}

/// Mathematical content of a [`Declaration`].
pub struct DeclarationView {
    pub procedure: Seq<usize>,
    pub call: Seq<Expression>,
    pub closure: Seq<usize>,
}

impl View for Declaration {
    type V = DeclarationView;

    open spec fn view(&self) -> DeclarationView {
        DeclarationView { procedure: self.procedure@, call: self.call@, closure: self.closure@ }
    }
}

/// The views of a list of declarations.
pub open spec fn declarations_view(list: Seq<Declaration>) -> Seq<DeclarationView> {
    Seq::new(list.len(), |i: int| list[i]@)
}

/// The place of the first of the first `upto` declarations named `symbol`.
pub open spec fn find_upto(declarations: Seq<DeclarationView>, symbol: usize, upto: int) -> Option<int>
    decreases upto,
{
    if upto <= 0 {
        None
    } else {
        match find_upto(declarations, symbol, upto - 1) {
            Some(at) => Some(at),
            None => if declarations[upto - 1].procedure.len() > 0 && declarations[upto - 1].procedure[0]
                == symbol {
                Some(upto - 1)
            } else {
                None
            },
        }
    }
}

/// A declaration that was found stays found when more declarations are looked at.
pub proof fn lemma_find_stays(declarations: Seq<DeclarationView>, symbol: usize, found: int, upto: int)
    requires
        find_upto(declarations, symbol, found) is Some,
        found <= upto,
    ensures
        find_upto(declarations, symbol, upto) == find_upto(declarations, symbol, found),
    decreases upto - found,
{
    if found < upto {
        lemma_find_stays(declarations, symbol, found, upto - 1);
    }
}

} // verus!
