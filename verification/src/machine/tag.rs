//! Pointers, and what they carry besides an address.
use vstd::prelude::*;
use vstd::string::StringExecFns;

use crate::memory;
use crate::memory::{AllocId, Size};
use crate::stacked_borrows::item::SbTag;
use crate::text;

verus! {

/// Pointer provenance (tag).
#[derive(Debug, Clone, Copy, PartialEq, Eq, Hash, Structural)]
pub struct Tag {
    pub alloc_id: AllocId,
    /// Stacked Borrows tag.
    pub sb: SbTag,
}

/// A pointer: where it points to, and with which right.
#[derive(Debug, PartialEq, Eq, Hash)]
pub struct Pointer<P> {
    pub provenance: P,
    pub offset: Size,
}

/// We use absolute addresses in the `offset` of a `Pointer<Tag>`.
pub const OFFSET_IS_ADDR: bool = true;

/// We cannot err on partial overwrites, it happens too often in practice (due to unions).
pub const ERR_ON_PARTIAL_PTR_OVERWRITE: bool = false;

/// A pointer in a message: its address, the allocation, and the tag. The alternate form names the
/// allocation in the alternate form.
pub open spec fn pointer_chars(ptr: Pointer<Tag>, alternate: bool) -> Seq<char> {
    "0x"@ + text::hexadecimal(ptr.offset) + "["@ + memory::alloc_id_chars(
        ptr.provenance.alloc_id,
        alternate,
    ) + "]"@ + ptr.provenance.sb.chars()
}

impl Tag {
    /// The allocation that the pointer may be used for.
    pub fn get_alloc_id(self) -> (id: AllocId)
        ensures
            id == self.alloc_id,
    {
        self.alloc_id
    }

    /// The pointer as text.
    pub fn pointer_string(ptr: Pointer<Tag>, alternate: bool) -> (text: String)
        ensures
            text@ == pointer_chars(ptr, alternate),
    {
        let mut out = String::from_str("0x");
        text::push_hexadecimal(&mut out, ptr.offset);
        out.append("[");
        memory::push_alloc_id(&mut out, ptr.provenance.alloc_id, alternate);
        out.append("]");
        // Print Stacked Borrows tag.
        ptr.provenance.sb.push_to(&mut out);
        assert(out@ =~= pointer_chars(ptr, alternate));
        out
    }
}

} // verus!
