//! Implements "Stacked Borrows". See
//! <https://github.com/rust-lang/unsafe-code-guidelines/blob/master/wip/stacked-borrows.md>
//! for further information.
pub mod allocation_laws;
pub mod derivation_laws;
pub mod diagnostics;
pub mod effects;
pub mod global;
pub mod global_laws;
pub mod item;
pub mod laws;
pub mod report_laws;
pub mod retag;
pub mod retag_laws;
pub mod stack;
pub mod stacks;
