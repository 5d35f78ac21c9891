//! The failures that the machine reports.

use vstd::prelude::*;
use crate::ptr::Ptr;

verus! {

/// Everything that can stop compilation or reduction.
#[derive(Clone, Copy, Debug, PartialEq, Eq, Structural)]
pub enum Error {
    /// The arena has no free slot left.
    OutOfMemory,
    /// A reference names a definition that the book does not hold.
    UndefinedReference(u64),
    /// A variable of a definition occurs only once.
    FreeVariable(u64),
    /// A variable of a definition occurs more than twice.
    VariableReused(u64),
    /// A pointer addresses no usable port or agent of the net.
    OutOfRange(Ptr),
    /// The source text does not follow the notation; the byte offset is given.
    Syntax(usize),
    /// A performance counter cannot grow any further.
    CounterOverflow,
    /// The agents below a port do not form a tree.
    Cyclic,
}

} // verus!
