//! What the borrow tracker reports: notices while the program goes on, a record of what happened
//! to each allocation, and the violations that stop the program.
use vstd::prelude::*;
use vstd::string::StringExecFns;

use crate::memory;
use crate::memory::{AllocId, AllocRange, Size};
use crate::stacked_borrows::item::{AccessKind, CallId, Item, PtrId, SbTag};
use crate::stacked_borrows::stack::Stack;
use crate::text;

verus! {

/// What happened to a stack, and to which tag in it.
#[derive(Copy, Clone, Debug, PartialEq, Eq, Structural)]
pub enum StackUpdateType {
    Added(SbTag),
    Remove(SbTag),
    Changed(SbTag),
}

/// A notice that does not stop the interpreted program.
#[derive(Debug)]
pub enum NonHaltingDiagnostic {
    CreatedPointerTag(PtrId),
    /// An item of a tracked pointer lost its permission; with the tag and the kind of the access
    /// that did it, or `None` for a deallocation.
    PoppedPointerTag(Item, Option<(SbTag, AccessKind)>),
    CreatedCallId(CallId),
    CreatedAlloc(AllocId),
    FreedAlloc(AllocId),
    /// A stack of a tracked allocation after it was changed.
    StackUpdate(Stack, StackUpdateType),
    /// A stack of a tracked allocation after an access with the given tag.
    StackAccess(Stack, SbTag),
}

/// A notice with the stacks in it as plain sequences.
pub enum DiagnosticView {
    CreatedPointerTag(PtrId),
    PoppedPointerTag(Item, Option<(SbTag, AccessKind)>),
    CreatedCallId(CallId),
    CreatedAlloc(AllocId),
    FreedAlloc(AllocId),
    StackUpdate(Seq<Item>, StackUpdateType),
    StackAccess(Seq<Item>, SbTag),
}

impl View for NonHaltingDiagnostic {
    type V = DiagnosticView;

    open spec fn view(&self) -> DiagnosticView {
        match *self {
            NonHaltingDiagnostic::CreatedPointerTag(id) => DiagnosticView::CreatedPointerTag(id),
            NonHaltingDiagnostic::PoppedPointerTag(item, by) => DiagnosticView::PoppedPointerTag(
                item,
                by,
            ),
            NonHaltingDiagnostic::CreatedCallId(id) => DiagnosticView::CreatedCallId(id),
            NonHaltingDiagnostic::CreatedAlloc(id) => DiagnosticView::CreatedAlloc(id),
            NonHaltingDiagnostic::FreedAlloc(id) => DiagnosticView::FreedAlloc(id),
            NonHaltingDiagnostic::StackUpdate(stack, update) => DiagnosticView::StackUpdate(
                stack@,
                update,
            ),
            NonHaltingDiagnostic::StackAccess(stack, tag) => DiagnosticView::StackAccess(
                stack@,
                tag,
            ),
        }
    }
}

/// The notices registered so far, oldest first.
#[derive(Debug)]
pub struct Diagnostics {
    pub log: Vec<NonHaltingDiagnostic>,
}

impl View for Diagnostics {
    type V = Seq<DiagnosticView>;

    open spec fn view(&self) -> Seq<DiagnosticView> {
        self.log@.map_values(|notice: NonHaltingDiagnostic| notice@)
    }
}

impl Diagnostics {
    /// Nothing registered yet.
    pub fn new() -> (diagnostics: Self)
        ensures
            diagnostics@ == Seq::<DiagnosticView>::empty(),
    {
        let diagnostics = Diagnostics { log: Vec::new() };
        assert(diagnostics@ =~= Seq::<DiagnosticView>::empty());
        diagnostics
    }

    /// Adds a notice behind those that are there.
    pub fn register_diagnostic(&mut self, notice: NonHaltingDiagnostic)
        ensures
            final(self)@ == old(self)@.push(notice@),
    {
        self.log.push(notice);
        assert(self@ =~= old(self)@.push(notice@));
    }
}

/// Something that happened to an allocation, as far as it can explain a later violation.
#[derive(Copy, Clone, Debug, PartialEq, Eq, Structural)]
pub enum HistoryEvent {
    /// A tag was made, derived from another tag unless it is the first one. The range starts where
    /// the pointer points to. Its size is that of the allocation for a first tag; for a derived one
    /// it is the offset at which what the pointer points to ends.
    Creation { parent: Option<SbTag>, tag: SbTag, range: AllocRange },
    /// An access to the range took a tag's permission away.
    Invalidation { tag: SbTag, range: AllocRange },
    /// A tag that was derived from another got a protector.
    Protector { derived_from: SbTag, tag: SbTag },
}

/// Stores past operations on an allocation.
#[derive(Debug)]
pub struct AllocHistory {
    pub events: Vec<HistoryEvent>,
    /// The crates whose code is of interest when an event is explained.
    pub local_crates: Vec<u32>,
}

impl View for AllocHistory {
    type V = Seq<HistoryEvent>;

    open spec fn view(&self) -> Seq<HistoryEvent> {
        self.events@
    }
}

impl AllocHistory {
    /// The history of an allocation to which nothing has happened yet.
    pub fn new(local_crates: Vec<u32>) -> (history: Self)
        ensures
            history@ == Seq::<HistoryEvent>::empty(),
            history.local_crates == local_crates,
    {
        AllocHistory { events: Vec::new(), local_crates }
    }

    /// Records that `tag` was made, with the given range.
    pub fn log_creation(&mut self, parent: Option<SbTag>, tag: SbTag, range: AllocRange)
        ensures
            final(self)@ == old(self)@.push(HistoryEvent::Creation { parent, tag, range }),
            final(self).local_crates == old(self).local_crates,
    {
        self.events.push(HistoryEvent::Creation { parent, tag, range });
    }

    /// Records that an access to `range` took the permission of `tag` away.
    pub fn log_invalidation(&mut self, tag: SbTag, range: AllocRange)
        ensures
            final(self)@ == old(self)@.push(HistoryEvent::Invalidation { tag, range }),
            final(self).local_crates == old(self).local_crates,
    {
        self.events.push(HistoryEvent::Invalidation { tag, range });
    }

    /// Records that `tag`, derived from `derived_from`, got a protector.
    pub fn log_protector(&mut self, derived_from: SbTag, tag: SbTag)
        ensures
            final(self)@ == old(self)@.push(HistoryEvent::Protector { derived_from, tag }),
            final(self).local_crates == old(self).local_crates,
    {
        self.events.push(HistoryEvent::Protector { derived_from, tag });
    }
}

/// Where in memory an operation happens.
#[derive(Copy, Clone, Debug, PartialEq, Eq, Structural)]
pub struct AccessSite {
    pub alloc_id: AllocId,
    /// The entire operation.
    pub range: AllocRange,
    /// The location in the range that is being looked at.
    pub offset: Size,
}

/// Which part of an allocation's history explains a violation.
#[derive(Copy, Clone, Debug, PartialEq, Eq, Structural)]
pub struct HistoryQuery {
    pub tag: SbTag,
    pub range: AllocRange,
    pub offset: Size,
    /// The tag of the protected item that stood in the way, if it was one.
    pub protector_tag: Option<SbTag>,
}

/// A violation of the borrow rules.
#[derive(Copy, Clone, Debug, PartialEq, Eq, Structural)]
pub enum BorrowError {
    /// No item grants this access to the tag.
    Access { access: AccessKind, tag: SbTag, site: AccessSite },
    /// No item grants the tag what `new` would need.
    Grant { derived_from: SbTag, new: Item, site: AccessSite },
    /// The access would take the permission of a protected item away.
    Protected { tag: SbTag, item: Item, history: HistoryQuery },
    /// The memory is freed while an item is protected.
    ProtectedDealloc { item: Item },
    /// No item grants the tag the write access that freeing the memory needs.
    Dealloc { tag: SbTag, alloc_id: AllocId, history: HistoryQuery },
}

/// Where the rules are explained.
pub open spec fn rules_url() -> Seq<char> {
    "https://github.com/rust-lang/unsafe-code-guidelines/blob/master/wip/stacked-borrows.md"@
}

/// Whether the tag has an item in the stack that is still good for something.
pub open spec fn has_live_item(stack: Seq<Item>, tag: SbTag) -> bool {
    exists|i: int|
        0 <= i < stack.len() && (#[trigger] stack[i]).tag == tag && stack[i].perm.permits(
            AccessKind::Read,
        )
}

/// Why a tag is not granted what it asks for, given the stack of the location.
pub open spec fn cause_chars(stack: Seq<Item>, tag: SbTag) -> Seq<char> {
    if has_live_item(stack, tag) {
        ", but that tag only grants SharedReadOnly permission for this location"@
    } else {
        ", but that tag does not exist in the borrow stack for this location"@
    }
}

/// A location in a message.
pub open spec fn site_chars(site: AccessSite) -> Seq<char> {
    memory::alloc_id_chars(site.alloc_id, false) + "[0x"@ + text::hexadecimal(site.offset) + "]"@
}

impl BorrowError {
    /// Where the stack is that the violation is explained by, if it is by one.
    pub open spec fn place(self) -> Option<Size> {
        match self {
            BorrowError::Access { access, tag, site } => Some(site.offset),
            BorrowError::Grant { derived_from, new, site } => Some(site.offset),
            _ => None,
        }
    }

    /// The violation in words. `stack` is the stack of the location, which some of them explain
    /// themselves by.
    pub open spec fn chars(self, stack: Seq<Item>) -> Seq<char> {
        match self {
            BorrowError::Access { access, tag, site } => "attempting a "@ + access.chars()
                + " using "@ + tag.chars() + " at "@ + site_chars(site) + cause_chars(stack, tag),
            BorrowError::Grant { derived_from, new, site } => "trying to reborrow "@
                + derived_from.chars() + " for "@ + new.perm.chars() + " permission at "@
                + site_chars(site) + cause_chars(stack, derived_from),
            BorrowError::Protected { tag, item, history } => "not granting access to tag "@
                + tag.chars() + " because incompatible item is protected: "@ + item.chars(),
            BorrowError::ProtectedDealloc { item } => "deallocating while item is protected: "@
                + item.chars(),
            BorrowError::Dealloc { tag, alloc_id, history } =>
            "no item granting write access for deallocation to tag "@ + tag.chars() + " at "@
                + memory::alloc_id_chars(alloc_id, false) + " found in borrow stack"@,
        }
    }

    /// What of the allocation's history belongs to the report.
    pub open spec fn history_spec(self) -> Option<HistoryQuery> {
        match self {
            BorrowError::Access { access, tag, site } => Some(
                HistoryQuery { tag, range: site.range, offset: site.offset, protector_tag: None },
            ),
            BorrowError::Grant { derived_from, new, site } => Some(
                HistoryQuery {
                    tag: derived_from,
                    range: site.range,
                    offset: site.offset,
                    protector_tag: None,
                },
            ),
            BorrowError::Protected { tag, item, history } => Some(history),
            BorrowError::ProtectedDealloc { item } => None,
            BorrowError::Dealloc { tag, alloc_id, history } => Some(history),
        }
    }

    /// What of the allocation's history belongs to the report.
    pub fn history(self) -> (query: Option<HistoryQuery>)
        ensures
            query == self.history_spec(),
    {
        match self {
            BorrowError::Access { access: _, tag, site } => Some(
                HistoryQuery { tag, range: site.range, offset: site.offset, protector_tag: None },
            ),
            BorrowError::Grant { derived_from, new: _, site } => Some(
                HistoryQuery {
                    tag: derived_from,
                    range: site.range,
                    offset: site.offset,
                    protector_tag: None,
                },
            ),
            BorrowError::Protected { tag: _, item: _, history } => Some(history),
            BorrowError::ProtectedDealloc { item: _ } => None,
            BorrowError::Dealloc { tag: _, alloc_id: _, history } => Some(history),
        }
    }

    /// Where the violated rules are explained.
    pub fn url(self) -> (text: &'static str)
        ensures
            text@ == rules_url(),
    {
        "https://github.com/rust-lang/unsafe-code-guidelines/blob/master/wip/stacked-borrows.md"
    }

    /// The violation in words, given the stack of the location where it happened.
    pub fn message(self, stack: &Stack) -> (text: String)
        ensures
            text@ == self.chars(stack@),
    {
        let mut out = String::new();
        match self {
            BorrowError::Access { access, tag, site } => {
                out.append("attempting a ");
                out.append(access.to_string().as_str());
                out.append(" using ");
                tag.push_to(&mut out);
                out.append(" at ");
                push_site(&mut out, site);
                push_cause(&mut out, stack, tag);
            },
            BorrowError::Grant { derived_from, new, site } => {
                out.append("trying to reborrow ");
                derived_from.push_to(&mut out);
                out.append(" for ");
                out.append(new.perm.name());
                out.append(" permission at ");
                push_site(&mut out, site);
                push_cause(&mut out, stack, derived_from);
            },
            BorrowError::Protected { tag, item, history: _ } => {
                out.append("not granting access to tag ");
                tag.push_to(&mut out);
                out.append(" because incompatible item is protected: ");
                item.push_to(&mut out);
            },
            BorrowError::ProtectedDealloc { item } => {
                out.append("deallocating while item is protected: ");
                item.push_to(&mut out);
            },
            BorrowError::Dealloc { tag, alloc_id, history: _ } => {
                out.append("no item granting write access for deallocation to tag ");
                tag.push_to(&mut out);
                out.append(" at ");
                memory::push_alloc_id(&mut out, alloc_id, false);
                out.append(" found in borrow stack");
            },
        }
        assert(out@ =~= self.chars(stack@));
        out
    }
}

fn push_site(out: &mut String, site: AccessSite)
    ensures
        final(out)@ == old(out)@ + site_chars(site),
{
    memory::push_alloc_id(out, site.alloc_id, false);
    out.append("[0x");
    text::push_hexadecimal(out, site.offset);
    out.append("]");
    assert(out@ =~= old(out)@ + site_chars(site));
}

fn push_cause(out: &mut String, stack: &Stack, tag: SbTag)
    ensures
        final(out)@ == old(out)@ + cause_chars(stack@, tag),
{
    let mut i: usize = 0;
    let mut live = false;
    while i < stack.borrows.len()
        invariant
            i <= stack@.len(),
            live == has_live_item(stack@.take(i as int), tag),
        decreases stack@.len() - i,
    {
        let item = stack.borrows[i];
        let ghost before = stack@.take(i as int);
        let ghost after = stack@.take(i + 1);
        proof {
            assert(after =~= before.push(item));
            assert(forall|k: int| 0 <= k < i ==> before[k] == after[k]);
            assert(after[i as int] == item);
        }
        if item.tag == tag && item.perm.grants(AccessKind::Read) {
            live = true;
        }
        i += 1;
    }
    assert(stack@.take(i as int) =~= stack@);
    if live {
        out.append(", but that tag only grants SharedReadOnly permission for this location");
    } else {
        out.append(", but that tag does not exist in the borrow stack for this location");
    }
}

} // verus!
