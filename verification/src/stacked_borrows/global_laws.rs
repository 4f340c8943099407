//! What handing out identifiers guarantees.
use vstd::prelude::*;

use crate::machine::memory_kind::MemoryKind;
use crate::memory::AllocId;
use crate::stacked_borrows::diagnostics::DiagnosticView;
use crate::stacked_borrows::global::{GlobalStateInner, TagBook};
use crate::stacked_borrows::item::{CallId, Item, PtrId, SbTag};
use crate::stacked_borrows::stacks;

verus! {

/// An allocation keeps its base tag: asking for it again gives the same one and changes nothing,
/// and so does asking after others have asked for theirs.
pub proof fn law_base_tag_is_kept(book: TagBook, id: AllocId, others: Seq<AllocId>)
    ensures
        book.asked(id).tag_of(id) == book.tag_of(id),
        book.asked(id).asked(id) == book.asked(id),
        book.asked(id).asked_for(others, others.len() as int).tag_of(id) == book.tag_of(id),
{
    book.asked(id).lemma_asked_for(others, 0, others.len() as int);
    assert(book.asked(id).asked_for(others, 0).table.contains_key(id));
}

/// Two allocations never get the same base tag, unless neither is tracked.
pub proof fn law_base_tags_differ(state: GlobalStateInner, a: AllocId, b: AllocId)
    requires
        state.wf(),
        a != b,
        state.next_ptr_id < u64::MAX,
    ensures
        state.book().tag_of(a) == state.book().asked(a).tag_of(b) ==> state.book().tag_of(a)
            == SbTag::Untagged,
{
    let table = state.base_ptr_ids@;
    if table.contains_key(a) && table.contains_key(b) {
        assert(table[a] == table[b] ==> table[a] == SbTag::Untagged);
    }
}

/// A new pointer ID is the base tag of no allocation.
pub proof fn law_new_pointer_is_no_base_pointer(state: GlobalStateInner, id: AllocId)
    requires
        state.wf(),
        state.base_ptr_ids@.contains_key(id),
    ensures
        state.base_ptr_ids@[id] != SbTag::Tagged(state.next_ptr_id),
{
}

/// A pointer to an allocation that was made before the allocation itself, as those in globals
/// are, gets the tag that the allocation then starts with, unless that is not tracked.
pub proof fn law_early_pointers_have_the_initial_tag(
    state: GlobalStateInner,
    asked: GlobalStateInner,
    id: AllocId,
    kind: MemoryKind,
)
    requires
        asked.after_base_tag(state, id),
        !stacks::untagged_base(kind, asked),
    ensures
        stacks::initial_tag(id, kind, asked) == state.base_tag_spec(id),
        stacks::initial_book(id, kind, asked) == asked.book(),
        stacks::initial_tag_notices(id, kind, asked).len() == 0,
{
}

/// A pointer to an allocation that is made after the allocation gets the tag that the allocation
/// started with.
pub proof fn law_later_pointers_have_the_initial_tag(
    state: GlobalStateInner,
    after: GlobalStateInner,
    id: AllocId,
    kind: MemoryKind,
)
    requires
        stacks::initial_tag_chosen(id, kind, state, after),
    ensures
        after.base_tag_spec(id) == stacks::initial_tag(id, kind, state),
        after.can_choose_base_tag(id),
        after.base_tag_notices(id).len() == 0,
{
    assert(after.book().table.contains_key(id));
}

/// Whether `after` is what starting a new call leaves of `before`.
pub open spec fn call_started(before: GlobalStateInner, after: GlobalStateInner) -> bool {
    &&& after.same_but_calls(before)
    &&& after.next_call_id == before.next_call_id + 1
    &&& after.active_calls@ == before.active_calls@.insert(before.next_call_id)
}

/// Whether `after` is what ending the call leaves of `before`.
pub open spec fn call_ended(
    before: GlobalStateInner,
    after: GlobalStateInner,
    call: CallId,
) -> bool {
    &&& after.same_but_calls(before)
    &&& after.next_call_id == before.next_call_id
    &&& after.active_calls@ == before.active_calls@.remove(call)
}

/// A call that starts is none of those that are running, and when it ends, the same calls are
/// running as before it started. Its ID is not used again.
pub proof fn law_call_ends_as_it_started(
    before: GlobalStateInner,
    during: GlobalStateInner,
    after: GlobalStateInner,
)
    requires
        before.wf(),
        call_started(before, during),
        call_ended(during, after, before.next_call_id),
    ensures
        !before.active_calls@.contains(before.next_call_id),
        during.active_calls@.contains(before.next_call_id),
        after.active_calls@ == before.active_calls@,
        after.next_call_id > before.next_call_id,
{
    assert(after.active_calls@ =~= before.active_calls@);
}

/// A protector lasts exactly until its call ends: ending the call lifts its protection, and that
/// of no other call.
pub proof fn law_protection_ends_with_the_call(
    before: GlobalStateInner,
    after: GlobalStateInner,
    call: CallId,
    item: Item,
)
    requires
        call_ended(before, after, call),
    ensures
        item.protector == Some(call) ==> !after.protects(item),
        item.protector != Some(call) ==> after.protects(item) == before.protects(item),
{
}

/// An allocation without a base tag gets the next pointer ID as one, and that is the only one that
/// is handed out. Nothing changes about other allocations. It is reported exactly if this pointer
/// ID is to be reported about.
pub proof fn law_base_tag_is_the_next_id(
    book: TagBook,
    id: AllocId,
    other: AllocId,
    traced: Set<PtrId>,
)
    requires
        0 <= book.next <= u64::MAX,
    ensures
        ({
            let after = book.asked(id);
            &&& after.table.contains_key(id) && after.table[id] == book.tag_of(id)
            &&& book.table.contains_key(id) ==> after == book && book.tag_of(id) == book.table[id]
                && book.notices(id, traced).len() == 0
            &&& !book.table.contains_key(id) ==> {
                &&& book.tag_of(id) matches SbTag::Tagged(n)
                &&& n == book.next
                &&& after.next == n + 1
                &&& traced.contains(n) ==> book.notices(id, traced) == seq![
                    DiagnosticView::CreatedPointerTag(n),
                ]
                &&& !traced.contains(n) ==> book.notices(id, traced).len() == 0
            }
            &&& other != id ==> after.table.contains_key(other) == book.table.contains_key(other)
                && after.table[other] == book.table[other]
        }),
{
}

/// A new call is reported exactly if its ID is to be reported about.
pub proof fn law_new_calls_are_reported(state: GlobalStateInner)
    ensures
        state.tracked_call_ids@.contains(state.next_call_id) ==> state.new_call_notices().len()
            == 1 && state.new_call_notices()[0] == DiagnosticView::CreatedCallId(
            state.next_call_id,
        ),
        !state.tracked_call_ids@.contains(state.next_call_id) ==> state.new_call_notices().len()
            == 0,
{
}

} // verus!
