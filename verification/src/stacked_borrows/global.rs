//! State shared by all allocations: which identifiers are in use, and what is to be reported.
use std::collections::HashSet;

use rustc_data_structures::fx::{FxHashMap, FxHashSet};
use vstd::prelude::*;

use crate::tables;
use crate::memory::AllocId;
use crate::stacked_borrows::diagnostics::{DiagnosticView, Diagnostics, NonHaltingDiagnostic};
use crate::stacked_borrows::global_laws;
use crate::stacked_borrows::item::{CallId, Item, PtrId, SbTag};

verus! {

broadcast use vstd::std_specs::hash::group_hash_axioms;

/// Extra global state, available to the memory access hooks.
#[derive(Debug)]
pub struct GlobalStateInner {
    /// Next unused pointer ID (tag).
    pub next_ptr_id: PtrId,
    /// Table storing the "base" tag for each allocation.
    /// The base tag is the one used for the initial pointer.
    /// We need this in a separate table to handle cyclic statics.
    pub base_ptr_ids: FxHashMap<AllocId, SbTag>,
    /// Next unused call ID (for protectors).
    pub next_call_id: CallId,
    /// Those call IDs corresponding to functions that are still running.
    pub active_calls: FxHashSet<CallId>,
    /// The pointer ids to trace
    pub tracked_pointer_tags: HashSet<PtrId>,
    /// The call ids to trace
    pub tracked_call_ids: HashSet<CallId>,
    /// The allocations that we want to print the stacks of
    pub tracked_alloced_location_ids: HashSet<AllocId>,
    /// Whether to track raw pointers.
    pub tag_raw: bool,
}

/// What a tag has in common with one that is handed out before the pointer ID `next`.
pub open spec fn tag_below(tag: SbTag, next: PtrId) -> bool {
    tag matches SbTag::Tagged(id) ==> 1 <= id < next
}

/// Which base tags have been chosen, and which pointer ID comes next.
#[verifier::ext_equal]
pub struct TagBook {
    pub next: int,
    pub table: Map<AllocId, SbTag>,
}

impl TagBook {
    /// The base tag that a request for the allocation gives.
    pub open spec fn tag_of(self, id: AllocId) -> SbTag {
        if self.table.contains_key(id) {
            self.table[id]
        } else {
            SbTag::Tagged(self.next as PtrId)
        }
    }

    /// The book after a request for the base tag of the allocation.
    pub open spec fn asked(self, id: AllocId) -> TagBook {
        if self.table.contains_key(id) {
            self
        } else {
            TagBook { next: self.next + 1, table: self.table.insert(id, self.tag_of(id)) }
        }
    }

    /// The book after requests for the base tags of the first `n` allocations, in order.
    pub open spec fn asked_for(self, ids: Seq<AllocId>, n: int) -> TagBook
        decreases n,
    {
        if n <= 0 {
            self
        } else {
            self.asked_for(ids, n - 1).asked(ids[n - 1])
        }
    }

    /// What a request for the base tag of the allocation reports, if the pointer IDs in `traced`
    /// are to be reported.
    pub open spec fn notices(self, id: AllocId, traced: Set<PtrId>) -> Seq<DiagnosticView> {
        if !self.table.contains_key(id) && traced.contains(self.next as PtrId) {
            seq![DiagnosticView::CreatedPointerTag(self.next as PtrId)]
        } else {
            Seq::empty()
        }
    }

    /// What requests for the base tags of the first `n` allocations report.
    pub open spec fn notices_for(
        self,
        ids: Seq<AllocId>,
        n: int,
        traced: Set<PtrId>,
    ) -> Seq<DiagnosticView>
        decreases n,
    {
        if n <= 0 {
            Seq::empty()
        } else {
            self.notices_for(ids, n - 1, traced) + self.asked_for(ids, n - 1).notices(
                ids[n - 1],
                traced,
            )
        }
    }

    /// More requests need more pointer IDs, and keep the tags that are in the book.
    pub proof fn lemma_asked_for(self, ids: Seq<AllocId>, m: int, n: int)
        requires
            m <= n,
        ensures
            self.asked_for(ids, m).next <= self.asked_for(ids, n).next,
            forall|id: AllocId| #[trigger]
                self.asked_for(ids, m).table.contains_key(id) ==> self.asked_for(
                    ids,
                    n,
                ).table.contains_key(id) && self.asked_for(ids, n).table[id] == self.asked_for(
                    ids,
                    m,
                ).table[id],
        decreases n,
    {
        if m < n && 0 < n {
            self.lemma_asked_for(ids, m, n - 1);
        }
    }
}

impl GlobalStateInner {
    /// The base tags that have been chosen.
    pub open spec fn book(self) -> TagBook {
        TagBook { next: self.next_ptr_id as int, table: self.base_ptr_ids@ }
    }

    /// Identifiers that are in use have been handed out, and no two allocations share a numbered
    /// base tag.
    pub open spec fn wf(self) -> bool {
        &&& 1 <= self.next_ptr_id
        &&& 1 <= self.next_call_id
        &&& forall|call: CallId| #[trigger]
            self.active_calls@.contains(call) ==> 1 <= call < self.next_call_id
        &&& forall|id: AllocId| #[trigger]
            self.base_ptr_ids@.contains_key(id) ==> tag_below(
                self.base_ptr_ids@[id],
                self.next_ptr_id,
            )
        &&& forall|a: AllocId, b: AllocId|
            #![trigger self.base_ptr_ids@[a], self.base_ptr_ids@[b]]
            a != b && self.base_ptr_ids@.contains_key(a) && self.base_ptr_ids@.contains_key(b)
                && self.base_ptr_ids@[a] == self.base_ptr_ids@[b] ==> self.base_ptr_ids@[a]
                == SbTag::Untagged
    }

    /// Whether the item is protected by a call that is still running.
    pub open spec fn protects(self, item: Item) -> bool {
        item.protector matches Some(call) && self.active_calls@.contains(call)
    }

    /// Whether what happens to items with this tag is to be reported.
    pub open spec fn traces_tag(self, tag: SbTag) -> bool {
        tag matches SbTag::Tagged(id) && self.tracked_pointer_tags@.contains(id)
    }

    /// Whether what happens to the stacks of this allocation is to be reported.
    pub open spec fn traces_alloc(self, id: AllocId) -> bool {
        self.tracked_alloced_location_ids@.contains(id)
    }

    /// Whether `self` is as `before`, but for pointer IDs being handed out and base tags being
    /// chosen.
    pub open spec fn same_but_pointers(self, before: Self) -> bool {
        &&& self.next_call_id == before.next_call_id
        &&& self.active_calls == before.active_calls
        &&& self.tracked_pointer_tags == before.tracked_pointer_tags
        &&& self.tracked_call_ids == before.tracked_call_ids
        &&& self.tracked_alloced_location_ids == before.tracked_alloced_location_ids
        &&& self.tag_raw == before.tag_raw
    }

    /// Whether `self` is as `before`, but for calls having started or ended.
    pub open spec fn same_but_calls(self, before: Self) -> bool {
        &&& self.next_ptr_id == before.next_ptr_id
        &&& self.base_ptr_ids == before.base_ptr_ids
        &&& self.tracked_pointer_tags == before.tracked_pointer_tags
        &&& self.tracked_call_ids == before.tracked_call_ids
        &&& self.tracked_alloced_location_ids == before.tracked_alloced_location_ids
        &&& self.tag_raw == before.tag_raw
    }

    /// What handing out the next pointer ID reports.
    pub open spec fn new_ptr_notices(self) -> Seq<DiagnosticView> {
        if self.tracked_pointer_tags@.contains(self.next_ptr_id) {
            seq![DiagnosticView::CreatedPointerTag(self.next_ptr_id)]
        } else {
            Seq::empty()
        }
    }

    /// What handing out the next call ID reports.
    pub open spec fn new_call_notices(self) -> Seq<DiagnosticView> {
        if self.tracked_call_ids@.contains(self.next_call_id) {
            seq![DiagnosticView::CreatedCallId(self.next_call_id)]
        } else {
            Seq::empty()
        }
    }

    /// The base tag that a request for the allocation gives.
    pub open spec fn base_tag_spec(self, id: AllocId) -> SbTag {
        self.book().tag_of(id)
    }

    /// What a request for the base tag of the allocation reports.
    pub open spec fn base_tag_notices(self, id: AllocId) -> Seq<DiagnosticView> {
        self.book().notices(id, self.tracked_pointer_tags@)
    }

    /// Whether a pointer ID is left for a request of the base tag, if it needs one.
    pub open spec fn can_choose_base_tag(self, id: AllocId) -> bool {
        self.base_ptr_ids@.contains_key(id) || self.next_ptr_id < u64::MAX
    }

    /// Whether `self` is what a request for the base tag of `id` leaves behind, starting from
    /// `before`.
    pub open spec fn after_base_tag(self, before: Self, id: AllocId) -> bool {
        &&& self.same_but_pointers(before)
        &&& self.book() == before.book().asked(id)
    }

    /// A fresh state: no identifier is in use yet, and the first ones are 1.
    pub fn new(
        tracked_pointer_tags: HashSet<PtrId>,
        tracked_call_ids: HashSet<CallId>,
        tracked_alloced_location_ids: HashSet<AllocId>,
        tag_raw: bool,
    ) -> (state: Self)
        ensures
            state.wf(),
            state.next_ptr_id == 1,
            state.base_ptr_ids@ == Map::<AllocId, SbTag>::empty(),
            state.next_call_id == 1,
            state.active_calls@ == Set::<CallId>::empty(),
            state.tracked_pointer_tags == tracked_pointer_tags,
            state.tracked_call_ids == tracked_call_ids,
            state.tracked_alloced_location_ids == tracked_alloced_location_ids,
            state.tag_raw == tag_raw,
    {
        GlobalStateInner {
            next_ptr_id: 1,
            base_ptr_ids: FxHashMap::default(),
            next_call_id: 1,
            active_calls: FxHashSet::default(),
            tracked_pointer_tags,
            tracked_call_ids,
            tracked_alloced_location_ids,
            tag_raw,
        }
    }

    /// Hands out the next pointer ID.
    pub fn new_ptr(&mut self, diagnostics: &mut Diagnostics) -> (id: PtrId)
        requires
            old(self).wf(),
            old(self).next_ptr_id < u64::MAX,
        ensures
            final(self).wf(),
            id == old(self).next_ptr_id,
            final(self).next_ptr_id == old(self).next_ptr_id + 1,
            final(self).base_ptr_ids == old(self).base_ptr_ids,
            final(self).same_but_pointers(*old(self)),
            final(diagnostics)@ == old(diagnostics)@ + old(self).new_ptr_notices(),
    {
        let id = self.next_ptr_id;
        if self.tracked_pointer_tags.contains(&id) {
            diagnostics.register_diagnostic(NonHaltingDiagnostic::CreatedPointerTag(id));
        }
        self.next_ptr_id = id + 1;
        assert(diagnostics@ =~= old(diagnostics)@ + old(self).new_ptr_notices());
        id
    }

    /// Hands out the next call ID; the call is active from now on.
    pub fn new_call(&mut self, diagnostics: &mut Diagnostics) -> (id: CallId)
        requires
            old(self).wf(),
            old(self).next_call_id < u64::MAX,
        ensures
            final(self).wf(),
            id == old(self).next_call_id,
            final(self).next_call_id == old(self).next_call_id + 1,
            !old(self).active_calls@.contains(id),
            final(self).active_calls@ == old(self).active_calls@.insert(id),
            final(self).same_but_calls(*old(self)),
            final(diagnostics)@ == old(diagnostics)@ + old(self).new_call_notices(),
            global_laws::call_started(*old(self), *final(self)),
    {
        let id = self.next_call_id;
        if self.tracked_call_ids.contains(&id) {
            diagnostics.register_diagnostic(NonHaltingDiagnostic::CreatedCallId(id));
        }
        let new = tables::calls_insert(&mut self.active_calls, id);
        assert(new);
        self.next_call_id = id + 1;
        assert(diagnostics@ =~= old(diagnostics)@ + old(self).new_call_notices());
        id
    }

    /// Ends a call that is active.
    pub fn end_call(&mut self, id: CallId)
        requires
            old(self).wf(),
            old(self).active_calls@.contains(id),
        ensures
            final(self).wf(),
            final(self).active_calls@ == old(self).active_calls@.remove(id),
            final(self).next_call_id == old(self).next_call_id,
            final(self).same_but_calls(*old(self)),
            global_laws::call_ended(*old(self), *final(self), id),
    {
        let found = tables::calls_remove(&mut self.active_calls, id);
        assert(found);
    }

    /// Whether the call is still running.
    pub fn is_active(&self, id: CallId) -> (active: bool)
        ensures
            active == self.active_calls@.contains(id),
    {
        tables::calls_contains(&self.active_calls, id)
    }

    /// The base tag of the allocation: the one it has, or else a new one, which it keeps.
    pub fn base_tag(&mut self, id: AllocId, diagnostics: &mut Diagnostics) -> (tag: SbTag)
        requires
            old(self).wf(),
            old(self).can_choose_base_tag(id),
        ensures
            final(self).wf(),
            tag == old(self).base_tag_spec(id),
            final(self).after_base_tag(*old(self), id),
            final(diagnostics)@ == old(diagnostics)@ + old(self).base_tag_notices(id),
    {
        match tables::base_tag_get(&self.base_ptr_ids, id) {
            Some(tag) => {
                assert(self.base_ptr_ids@ =~= self.base_ptr_ids@.insert(id, tag));
                assert(diagnostics@ =~= old(diagnostics)@ + old(self).base_tag_notices(id));
                tag
            },
            None => {
                let tag = SbTag::Tagged(self.new_ptr(diagnostics));
                tables::base_tag_insert(&mut self.base_ptr_ids, id, tag);
                tag
            },
        }
    }

    /// Gives an allocation that has no base tag yet the one that is not tracked.
    pub fn base_tag_untagged(&mut self, id: AllocId) -> (tag: SbTag)
        requires
            old(self).wf(),
            !old(self).base_ptr_ids@.contains_key(id),
        ensures
            final(self).wf(),
            tag == SbTag::Untagged,
            final(self).base_ptr_ids@ == old(self).base_ptr_ids@.insert(id, SbTag::Untagged),
            final(self).next_ptr_id == old(self).next_ptr_id,
            final(self).same_but_pointers(*old(self)),
    {
        let tag = SbTag::Untagged;
        tables::base_tag_insert(&mut self.base_ptr_ids, id, tag);
        tag
    }
}

} // verus!
