//! Names for places in the memory of the interpreted program.
use vstd::prelude::*;
use vstd::string::StringExecFns;

use crate::text;

verus! {

/// Identifies an allocation.
pub type AllocId = u64;

/// A number of bytes, or an offset in bytes from the start of an allocation.
pub type Size = u64;

/// A contiguous part of an allocation.
#[derive(Copy, Clone, Debug, PartialEq, Eq, Structural)]
pub struct AllocRange {
    pub start: Size,
    pub size: Size,
}

impl AllocRange {
    /// The first offset behind the range.
    pub open spec fn end(self) -> int {
        self.start + self.size
    }

    /// Whether the range reaches over no offset at or beyond `size`. An empty range always does.
    pub open spec fn within(self, size: int) -> bool {
        self.size > 0 ==> self.end() <= size
    }

    /// Whether `i` is the offset of one of the bytes of the range.
    pub open spec fn covers(self, i: int) -> bool {
        self.start <= i < self.end()
    }
}

/// The `size` bytes from `start` on.
pub fn alloc_range(start: Size, size: Size) -> (range: AllocRange)
    ensures
        range == (AllocRange { start, size }),
{
    AllocRange { start, size }
}

/// How an allocation is written in messages.
pub open spec fn alloc_id_chars(id: AllocId, alternate: bool) -> Seq<char> {
    (if alternate {
        "a"@
    } else {
        "alloc"@
    }) + text::decimal(id)
}

/// Appends the allocation's name to `out`; the alternate form is the shorter one.
pub fn push_alloc_id(out: &mut String, id: AllocId, alternate: bool)
    ensures
        final(out)@ == old(out)@ + alloc_id_chars(id, alternate),
{
    if alternate {
        out.append("a");
    } else {
        out.append("alloc");
    }
    text::push_decimal(out, id);
    assert(final(out)@ =~= old(out)@ + alloc_id_chars(id, alternate));
}

} // verus!
