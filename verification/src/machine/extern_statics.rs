//! The statics that the program expects to find outside of it.
use vstd::prelude::*;
use vstd::string::StringExecFns;

use crate::machine::layouts::PrimitiveTy;

verus! {

/// What an extern static consists of.
#[derive(Copy, Clone, Debug, PartialEq, Eq, Structural)]
pub enum StaticMemory {
    /// The pointer to the environment of the program, which is there already.
    Environ,
    /// New memory of the kind for extern statics, with the layout of the type, holding a zero.
    Zeroed(PrimitiveTy),
}

/// An extern static that the machine provides.
#[derive(Debug)]
pub struct StaticDecl {
    pub name: String,
    pub memory: StaticMemory,
}

impl View for StaticDecl {
    type V = (Seq<char>, StaticMemory);

    open spec fn view(&self) -> (Seq<char>, StaticMemory) {
        (self.name@, self.memory)
    }
}

/// The extern statics for programs that run on the operating system, in the order in which they
/// are set up.
pub open spec fn statics_on(os: Seq<char>) -> Seq<(Seq<char>, StaticMemory)> {
    if os == "linux"@ {
        seq![
            ("environ"@, StaticMemory::Environ),
            ("__cxa_thread_atexit_impl"@, StaticMemory::Zeroed(PrimitiveTy::Usize)),
            ("getrandom"@, StaticMemory::Zeroed(PrimitiveTy::Usize)),
            ("statx"@, StaticMemory::Zeroed(PrimitiveTy::Usize)),
        ]
    } else if os == "windows"@ {
        seq![("_tls_used"@, StaticMemory::Zeroed(PrimitiveTy::U8))]
    } else {
        Seq::empty()
    }
}

/// No two of the extern statics have the same name.
pub proof fn lemma_names_differ(os: Seq<char>)
    ensures
        forall|i: int, j: int|
            #![trigger statics_on(os)[i], statics_on(os)[j]]
            0 <= i < j < statics_on(os).len() ==> statics_on(os)[i].0 != statics_on(os)[j].0,
{
    reveal_strlit("environ");
    reveal_strlit("__cxa_thread_atexit_impl");
    reveal_strlit("getrandom");
    reveal_strlit("statx");
    assert("environ"@.len() == 7);
    assert("__cxa_thread_atexit_impl"@.len() == 24);
    assert("getrandom"@.len() == 9);
    assert("statx"@.len() == 5);
}

fn declare(name: &str, memory: StaticMemory) -> (decl: StaticDecl)
    ensures
        decl@ == (name@, memory),
{
    StaticDecl { name: String::from_str(name), memory }
}

/// The extern statics for programs that run on the operating system.
pub fn extern_statics(os: &String) -> (decls: Vec<StaticDecl>)
    ensures
        decls@.map_values(|decl: StaticDecl| decl@) == statics_on(os@),
{
    let mut decls: Vec<StaticDecl> = Vec::new();
    if *os == String::from_str("linux") {
        decls.push(declare("environ", StaticMemory::Environ));
        // A couple zero-initialized pointer-sized extern statics.
        // Most of them are for weak symbols, which we all set to null (indicating that the
        // symbol is not supported, and triggering fallback code which ends up calling a
        // syscall that we do support).
        let pointer_sized = StaticMemory::Zeroed(PrimitiveTy::Usize);
        decls.push(declare("__cxa_thread_atexit_impl", pointer_sized));
        decls.push(declare("getrandom", pointer_sized));
        decls.push(declare("statx", pointer_sized));
    } else if *os == String::from_str("windows") {
        // This is some obscure hack that is part of the Windows TLS story. It's a `u8`.
        decls.push(declare("_tls_used", StaticMemory::Zeroed(PrimitiveTy::U8)));
    }
    // No "extern statics" supported on other targets.

    assert(decls@.map_values(|decl: StaticDecl| decl@) =~= statics_on(os@));
    decls
}

} // verus!
