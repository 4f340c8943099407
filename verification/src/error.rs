//! What stops the interpreted program.
use vstd::prelude::*;

use crate::memory::{AllocId, Size};
use crate::stacked_borrows::diagnostics::BorrowError;

verus! {

/// Why the interpreted program cannot go on.
#[derive(Debug)]
pub enum InterpError {
    /// The borrow rules are violated.
    ExperimentalUb(BorrowError),
    /// A pointer to `ptr_size` bytes at `ptr_offset` reaches beyond its allocation.
    PointerOutOfBounds { alloc_id: AllocId, alloc_size: Size, ptr_offset: Size, ptr_size: Size },
    /// The race detector found two accesses that are not ordered.
    DataRace(String),
    /// The program needs something that the machine does not have.
    Unsupported(String),
    /// The program asked to be stopped.
    Abort(String),
}

/// A violation of the borrow rules, as a reason to stop.
pub fn err_sb_ub(error: BorrowError) -> (stop: InterpError)
    ensures
        stop == InterpError::ExperimentalUb(error),
{
    InterpError::ExperimentalUb(error)
}

/// A checked operation on the borrow stacks, as a step of the interpreter.
pub open spec fn lifted(result: Result<(), BorrowError>) -> Result<(), InterpError> {
    match result {
        Ok(()) => Ok(()),
        Err(error) => Err(InterpError::ExperimentalUb(error)),
    }
}

/// A checked operation on the borrow stacks, as a step of the interpreter.
pub fn lift(result: Result<(), BorrowError>) -> (step: Result<(), InterpError>)
    ensures
        step == lifted(result),
{
    match result {
        Ok(()) => Ok(()),
        Err(error) => Err(err_sb_ub(error)),
    }
}

} // verus!
