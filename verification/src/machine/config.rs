//! Facts about the emulated machine, and what the user can choose.
use std::collections::HashSet;

use vstd::prelude::*;

use crate::memory::AllocId;
use crate::stacked_borrows::item::{CallId, PtrId};

verus! {

broadcast use vstd::std_specs::hash::group_hash_axioms;

/// The size of a page of memory.
pub const PAGE_SIZE: u64 = 4 * 1024;

/// Not really about the "stack", but where we start assigning integer addresses to allocations.
pub const STACK_ADDR: u64 = 32 * PAGE_SIZE;

/// How much memory there is for a stack.
pub const STACK_SIZE: u64 = 16 * PAGE_SIZE;

/// How many processors the machine has.
pub const NUM_CPUS: u64 = 1;

/// Whether operations that communicate with the host are possible.
#[derive(Copy, Clone, Debug, PartialEq, Eq, Structural)]
pub enum IsolatedOp {
    /// They are rejected.
    Reject,
    /// They are performed, and the program has access to the host.
    Allow,
}

/// How the alignment of memory accesses is checked.
#[derive(Copy, Clone, Debug, PartialEq, Eq, Structural)]
pub enum AlignmentCheck {
    /// Not at all.
    Off,
    /// By the alignment that the allocation was asked for.
    Symbolic,
    /// By the address that the allocation happens to have.
    Int,
}

/// How much of the stack a backtrace shows.
#[derive(Copy, Clone, Debug, PartialEq, Eq, Structural)]
pub enum BacktraceStyle {
    /// A part that is likely to be of interest.
    Short,
    /// All of it.
    Full,
    /// Nothing.
    Off,
}

/// What can be configured before the machine starts.
#[derive(Debug)]
pub struct MiriConfig {
    /// Whether Stacked Borrows is checked.
    pub stacked_borrows: bool,
    /// The pointer tags to report about.
    pub tracked_pointer_tags: HashSet<PtrId>,
    /// The call IDs to report about.
    pub tracked_call_ids: HashSet<CallId>,
    /// The allocations to report every change of the borrow stacks of.
    pub tracked_alloced_location_ids: HashSet<AllocId>,
    /// Whether raw pointers are tracked.
    pub tag_raw: bool,
    /// The allocations to report about.
    pub tracked_alloc_ids: HashSet<AllocId>,
    /// Whether data races are detected.
    pub data_race_detector: bool,
    pub isolated_op: IsolatedOp,
    /// Whether to enforce the validity invariant.
    pub validate: bool,
    /// Whether to enforce validity (e.g., initialization) of integers and floats.
    pub check_number_validity: bool,
    /// Whether to enforce the ABI of function calls.
    pub check_abi: bool,
    pub check_alignment: AlignmentCheck,
    /// Whether to panic in the interpreted program when it needs something unsupported.
    pub panic_on_unsupported: bool,
    pub backtrace_style: BacktraceStyle,
    /// The seed of the random number generator; 0 if there is none.
    pub seed: Option<u64>,
    /// Where to write a profile of the interpreted program to, if anywhere.
    pub measureme_out: Option<String>,
}

/// A set with the same elements.
pub fn copy_set(set: &HashSet<u64>) -> (copy: HashSet<u64>)
    ensures
        copy@ == set@,
{
    let mut copy: HashSet<u64> = HashSet::new();
    for id in iter: set.iter()
        invariant
            iter.seq().unref().to_set() == set@,
            copy@ == iter.seq().unref().take(iter.index()).to_set(),
            iter.index() == iter.seq().len() ==> copy@ == set@,
    {
        copy.insert(*id);
        proof {
            let ids = iter.seq().unref();
            let n = iter.index();
            assert(ids.take(n + 1) =~= ids.take(n).push(*id));
            ids.take(n).lemma_push_to_set_commute(*id);
            assert(n + 1 == ids.len() ==> ids.take(n + 1) =~= ids);
        }
    }
    copy
}

} // verus!
