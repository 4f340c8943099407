//! Global machine state as well as the hooks through which the interpreter engine drives it.
pub mod alloc_extra;
pub mod config;
pub mod context;
pub mod evaluator;
pub mod extern_statics;
pub mod frame;
pub mod hooks;
pub mod laws;
pub mod layouts;
pub mod memory_kind;
pub mod memory_laws;
pub mod pointer_laws;
pub mod profiling;
pub mod tag;
