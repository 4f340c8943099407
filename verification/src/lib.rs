//! The machine of an interpreter that looks for undefined behavior: its global state, the hooks
//! through which the interpreter engine drives it, and the "Stacked Borrows" rules by which it
//! decides which pointers may access which memory. See
//! <https://github.com/rust-lang/unsafe-code-guidelines/blob/master/wip/stacked-borrows.md>.
pub mod error;
pub mod machine;
pub mod memory;
pub mod range_map;
pub mod stacked_borrows;
pub mod tables;
pub mod text;
pub mod text_laws;
