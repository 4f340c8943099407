//! The entries of a borrow stack, and what they permit.
use vstd::prelude::*;
use vstd::string::StringExecFns;

use crate::text;

verus! {

/// Identifies a pointer; never zero.
pub type PtrId = u64;

/// Identifies a function call; never zero.
pub type CallId = u64;

/// Tracking pointer provenance
#[derive(Copy, Clone, Debug, Hash, PartialEq, Eq, Structural)]
pub enum SbTag {
    Tagged(PtrId),
    Untagged,
}

/// Indicates which permission is granted (by this item to some pointers)
#[derive(Copy, Clone, Debug, Hash, PartialEq, Eq, Structural)]
pub enum Permission {
    /// Grants unique mutable access.
    Unique,
    /// Grants shared mutable access.
    SharedReadWrite,
    /// Shared mutable access for a two-phase borrow, up to the first write through it.
    TwoPhasedRW,
    /// Grants shared read-only access.
    SharedReadOnly,
    /// Grants no access, but separates two groups of `SharedReadWrite` so they are not
    /// all considered mutually compatible.
    Disabled,
}

/// Indicates which kind of access is being performed.
#[derive(Copy, Clone, Debug, Hash, PartialEq, Eq, Structural)]
pub enum AccessKind {
    Read,
    Write,
}

/// Indicates which kind of reference is being created. Decides which permissions the new
/// pointer is granted.
#[derive(Copy, Clone, Debug, Hash, PartialEq, Eq, Structural)]
pub enum RefKind {
    /// `&mut` and `Box`.
    Unique { two_phase: bool },
    /// `&` with or without interior mutability.
    Shared,
    /// `*mut`/`*const` (raw pointers).
    Raw { mutable: bool },
}

/// An item in the per-location borrow stack.
#[derive(Copy, Clone, Debug, Hash, PartialEq, Eq, Structural)]
pub struct Item {
    /// The permission this item grants.
    pub perm: Permission,
    /// The pointers the permission is granted to.
    pub tag: SbTag,
    /// An optional protector, ensuring the item cannot get popped until `CallId` is over.
    pub protector: Option<CallId>,
}

impl SbTag {
    /// The tag as it is written in messages.
    pub open spec fn chars(self) -> Seq<char> {
        match self {
            SbTag::Tagged(id) => "<"@ + text::decimal(id) + ">"@,
            SbTag::Untagged => "<untagged>"@,
        }
    }

    /// Appends the tag to `out`.
    pub fn push_to(self, out: &mut String)
        ensures
            final(out)@ == old(out)@ + self.chars(),
    {
        match self {
            SbTag::Tagged(id) => {
                out.append("<");
                text::push_decimal(out, id);
                out.append(">");
            },
            SbTag::Untagged => {
                out.append("<untagged>");
            },
        }
        assert(out@ =~= old(out)@ + self.chars());
    }

    /// The tag as text: its number, or that it has none.
    pub fn debug_string(self) -> (text: String)
        ensures
            text@ == self.chars(),
    {
        let mut out = String::new();
        self.push_to(&mut out);
        assert(out@ =~= self.chars());
        out
    }
}

impl Permission {
    /// `Disabled` permits nothing. Every other permission permits reading, and all of those but
    /// `SharedReadOnly` permit writing.
    pub open spec fn permits(self, access: AccessKind) -> bool {
        self != Permission::Disabled && (access == AccessKind::Write ==> self
            != Permission::SharedReadOnly)
    }

    /// Whether items with this permission can be written through without disturbing each other.
    pub open spec fn is_shared_write(self) -> bool {
        self == Permission::SharedReadWrite || self == Permission::TwoPhasedRW
    }

    /// The name of the permission.
    pub open spec fn chars(self) -> Seq<char> {
        match self {
            Permission::Unique => "Unique"@,
            Permission::SharedReadWrite => "SharedReadWrite"@,
            Permission::TwoPhasedRW => "TwoPhasedRW"@,
            Permission::SharedReadOnly => "SharedReadOnly"@,
            Permission::Disabled => "Disabled"@,
        }
    }

    /// The three letters for the permission in a printed stack.
    pub open spec fn abbreviation(self) -> Seq<char> {
        match self {
            Permission::Unique => "UNQ"@,
            Permission::SharedReadWrite => "SRW"@,
            Permission::TwoPhasedRW => "TPU"@,
            Permission::SharedReadOnly => "SRO"@,
            Permission::Disabled => "DBL"@,
        }
    }

    /// This defines for a given permission, whether it permits the given kind of access.
    pub fn grants(self, access: AccessKind) -> (granted: bool)
        ensures
            granted == self.permits(access),
    {
        // Disabled grants nothing. Otherwise, all items grant read access, and except for
        // SharedReadOnly they grant write access.
        self != Permission::Disabled && (access == AccessKind::Read || self
            != Permission::SharedReadOnly)
    }

    /// Whether this is one of the two permissions for shared mutable access.
    pub fn shares_writes(self) -> (shared: bool)
        ensures
            shared == self.is_shared_write(),
    {
        self == Permission::SharedReadWrite || self == Permission::TwoPhasedRW
    }

    /// The name of the permission.
    pub fn name(self) -> (text: &'static str)
        ensures
            text@ == self.chars(),
    {
        match self {
            Permission::Unique => "Unique",
            Permission::SharedReadWrite => "SharedReadWrite",
            Permission::TwoPhasedRW => "TwoPhasedRW",
            Permission::SharedReadOnly => "SharedReadOnly",
            Permission::Disabled => "Disabled",
        }
    }

    /// The three letters for the permission in a printed stack.
    pub fn short_name(self) -> (text: &'static str)
        ensures
            text@ == self.abbreviation(),
    {
        match self {
            Permission::Unique => "UNQ",
            Permission::SharedReadWrite => "SRW",
            Permission::TwoPhasedRW => "TPU",
            Permission::SharedReadOnly => "SRO",
            Permission::Disabled => "DBL",
        }
    }
}

impl Item {
    /// The item as it is written in messages.
    pub open spec fn chars(self) -> Seq<char> {
        "["@ + self.perm.chars() + " for "@ + self.tag.chars() + (match self.protector {
            Some(call) => " (call "@ + text::decimal(call) + ")"@,
            None => Seq::<char>::empty(),
        }) + "]"@
    }

    /// Appends the item to `out`.
    pub fn push_to(self, out: &mut String)
        ensures
            final(out)@ == old(out)@ + self.chars(),
    {
        out.append("[");
        out.append(self.perm.name());
        out.append(" for ");
        self.tag.push_to(out);
        if let Some(call) = self.protector {
            out.append(" (call ");
            text::push_decimal(out, call);
            out.append(")");
        }
        out.append("]");
        assert(out@ =~= old(out)@ + self.chars());
    }

    /// The item as text.
    pub fn debug_string(self) -> (text: String)
        ensures
            text@ == self.chars(),
    {
        let mut out = String::new();
        self.push_to(&mut out);
        assert(out@ =~= self.chars());
        out
    }
}

impl AccessKind {
    /// The access as it is written in messages.
    pub open spec fn chars(self) -> Seq<char> {
        match self {
            AccessKind::Read => "read access"@,
            AccessKind::Write => "write access"@,
        }
    }

    /// The access as text.
    pub fn to_string(self) -> (text: String)
        ensures
            text@ == self.chars(),
    {
        match self {
            AccessKind::Read => String::from_str("read access"),
            AccessKind::Write => String::from_str("write access"),
        }
    }
}

impl RefKind {
    /// The kind of reference as it is written in messages.
    pub open spec fn chars(self) -> Seq<char> {
        match self {
            RefKind::Unique { two_phase: false } => "unique"@,
            RefKind::Unique { two_phase: true } => "unique (two-phase)"@,
            RefKind::Shared => "shared"@,
            RefKind::Raw { mutable: true } => "raw (mutable)"@,
            RefKind::Raw { mutable: false } => "raw (constant)"@,
        }
    }

    /// The kind of reference as text.
    pub fn to_string(self) -> (text: String)
        ensures
            text@ == self.chars(),
    {
        match self {
            RefKind::Unique { two_phase: false } => String::from_str("unique"),
            RefKind::Unique { two_phase: true } => String::from_str("unique (two-phase)"),
            RefKind::Shared => String::from_str("shared"),
            RefKind::Raw { mutable: true } => String::from_str("raw (mutable)"),
            RefKind::Raw { mutable: false } => String::from_str("raw (constant)"),
        }
    }
}

} // verus!
