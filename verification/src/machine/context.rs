//! The interpreter, as far as the machine needs to know it.
use vstd::prelude::*;

use crate::machine::evaluator::Evaluator;

verus! {

/// An interpreter that drives the machine.
pub struct MiriEvalContext<L> {
    pub machine: Evaluator<L>,
    /// The name of the operating system that the program was made for.
    pub os: String,
}

/// A little trait that's useful to be inherited by extension traits.
pub trait MiriEvalContextExt<L> {
    /// The interpreter that this is, or that it holds.
    spec fn context(&self) -> MiriEvalContext<L>;

    fn eval_context_ref(&self) -> (ecx: &MiriEvalContext<L>)
        ensures
            *ecx == self.context(),
    ;

    fn eval_context_mut(&mut self) -> (ecx: &mut MiriEvalContext<L>)
        ensures
            *ecx == old(self).context(),
            final(self).context() == *final(ecx),
    ;
}

impl<L> MiriEvalContextExt<L> for MiriEvalContext<L> {
    open spec fn context(&self) -> MiriEvalContext<L> {
        *self
    }

    fn eval_context_ref(&self) -> (ecx: &MiriEvalContext<L>) {
        self
    }

    fn eval_context_mut(&mut self) -> (ecx: &mut MiriEvalContext<L>) {
        self
    }
}

} // verus!
