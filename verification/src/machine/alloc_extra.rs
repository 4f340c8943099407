//! What the machine keeps with each allocation.
use vstd::prelude::*;

use crate::stacked_borrows::item::Item;
use crate::stacked_borrows::stacks::Stacks;

verus! {

/// Extra per-allocation data
#[derive(Debug)]
pub struct AllocExtra {
    /// Stacked Borrows state is only added if it is enabled.
    pub stacked_borrows: Option<Stacks>,
    /// Whether a race detector follows what happens to the allocation,
    /// this is only so if it is enabled.
    pub data_race: bool,
}

impl AllocExtra {
    /// The state of Stacked Borrows makes sense.
    pub open spec fn wf(self) -> bool {
        self.stacked_borrows matches Some(stacks) ==> stacks.wf()
    }

    /// The stack of each byte of the allocation, if it has any.
    pub open spec fn stacks_of_bytes(self) -> Seq<Seq<Item>> {
        match self.stacked_borrows {
            Some(stacks) => stacks.locations(),
            None => Seq::empty(),
        }
    }
}

} // verus!
