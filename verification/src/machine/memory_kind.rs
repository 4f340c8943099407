//! What memory is used for.
use vstd::prelude::*;
use vstd::string::StringExecFns;

verus! {

/// Extra memory kinds
#[derive(Debug, Copy, Clone, PartialEq, Eq, Structural)]
pub enum MiriMemoryKind {
    /// `__rust_alloc` memory.
    Rust,
    /// `malloc` memory.
    C,
    /// Windows `HeapAlloc` memory.
    WinHeap,
    /// Memory for args, errno, and other parts of the machine-managed environment.
    /// This memory may leak.
    Machine,
    /// Memory allocated by the runtime (e.g. env vars). Separate from `Machine`
    /// because we clean it up and leak-check it.
    Runtime,
    /// Globals copied from the program.
    /// This memory may leak.
    Global,
    /// Memory for extern statics.
    /// This memory may leak.
    ExternStatic,
    /// Memory for thread-local statics.
    /// This memory may leak.
    Tls,
}

/// All memory kinds.
#[derive(Debug, Copy, Clone, PartialEq, Eq, Structural)]
pub enum MemoryKind {
    /// Stack memory. Error if deallocated except during a stack pop.
    Stack,
    /// Memory allocated by `caller_location` intrinsic. Error if ever deallocated.
    CallerLocation,
    /// Additional memory kinds a machine wishes to distinguish from the builtin ones.
    Machine(MiriMemoryKind),
}

/// Memory kinds that know whether memory may still be there when the program ends.
pub trait MayLeak: Sized {
    spec fn leakable(self) -> bool;

    fn may_leak(self) -> (leakable: bool)
        ensures
            leakable == self.leakable(),
    ;
}

impl MayLeak for MiriMemoryKind {
    /// All memory may leak but that of the heaps and of the runtime.
    open spec fn leakable(self) -> bool {
        self != MiriMemoryKind::Rust && self != MiriMemoryKind::C && self
            != MiriMemoryKind::WinHeap && self != MiriMemoryKind::Runtime
    }

    fn may_leak(self) -> (leakable: bool) {
        match self {
            MiriMemoryKind::Rust
            | MiriMemoryKind::C
            | MiriMemoryKind::WinHeap
            | MiriMemoryKind::Runtime => false,
            MiriMemoryKind::Machine
            | MiriMemoryKind::Global
            | MiriMemoryKind::ExternStatic
            | MiriMemoryKind::Tls => true,
        }
    }
}

impl From<MiriMemoryKind> for MemoryKind {
    fn from(kind: MiriMemoryKind) -> (converted: Self) {
        MemoryKind::Machine(kind)
    }
}

impl vstd::std_specs::convert::FromSpecImpl<MiriMemoryKind> for MemoryKind {
    open spec fn obeys_from_spec() -> bool {
        true
    }

    open spec fn from_spec(kind: MiriMemoryKind) -> Self {
        MemoryKind::Machine(kind)
    }
}

impl MiriMemoryKind {
    /// The memory kind in words.
    pub open spec fn chars(self) -> Seq<char> {
        match self {
            MiriMemoryKind::Rust => "Rust heap"@,
            MiriMemoryKind::C => "C heap"@,
            MiriMemoryKind::WinHeap => "Windows heap"@,
            MiriMemoryKind::Machine => "machine-managed memory"@,
            MiriMemoryKind::Runtime => "language runtime memory"@,
            MiriMemoryKind::Global => "global (static or const)"@,
            MiriMemoryKind::ExternStatic => "extern static"@,
            MiriMemoryKind::Tls => "thread-local static"@,
        }
    }

    /// The memory kind in words.
    pub fn to_string(self) -> (text: String)
        ensures
            text@ == self.chars(),
    {
        String::from_str(
            match self {
                MiriMemoryKind::Rust => "Rust heap",
                MiriMemoryKind::C => "C heap",
                MiriMemoryKind::WinHeap => "Windows heap",
                MiriMemoryKind::Machine => "machine-managed memory",
                MiriMemoryKind::Runtime => "language runtime memory",
                MiriMemoryKind::Global => "global (static or const)",
                MiriMemoryKind::ExternStatic => "extern static",
                MiriMemoryKind::Tls => "thread-local static",
            },
        )
    }
}

impl MemoryKind {
    /// Whether this is memory that the program asks an allocator for.
    pub open spec fn is_heap(self) -> bool {
        self == MemoryKind::Machine(MiriMemoryKind::Rust) || self == MemoryKind::Machine(
            MiriMemoryKind::C,
        ) || self == MemoryKind::Machine(MiriMemoryKind::WinHeap)
    }
}

} // verus!
