//! A code generator for a small language in continuation-passing style.
//!
//! The heart of the library is the planner of machine-state transitions:
//! given what the registers and allocations hold on entry to a procedure
//! and what they have to hold at its tail call, it searches for a cheap
//! sequence of primitive transitions from the one to the other and
//! writes them as x86-64 code.
//!
//! - `value`, `state`, `normal`: the symbolic machine state, its invariants
//!   and its normal form.
//! - `satisfy`: when a state satisfies a goal.
//! - `transition`: the seven transitions and what they do to a state.
//! - `sink`, `emit`, `cost`: byte sinks, machine code and its cost.
//! - `heuristic`, `generate`, `planner`: the search for a plan.
//! - `mir`, `module`, `frame`: declarations, the symbols that they
//!   capture, and the states on entry and at the tail call.
//! - `interpreter`: running a module step by step.
//! - `lexer`, `parser`, `ast`, `desugar`: from tokens to declarations.
//! - `layout`, `macho`: where code and constants lie, and the executable file.
pub mod ast;
pub mod cost;
pub mod desugar;
pub mod emit;
pub mod frame;
pub mod generate;
pub mod heuristic;
pub mod interpreter;
pub mod layout;
pub mod lexer;
pub mod macho;
pub mod marks;
pub mod mir;
pub mod module;
pub mod normal;
pub mod parser;
pub mod planner;
pub mod satisfy;
pub mod sink;
pub mod state;
pub mod transition;
pub mod value;
