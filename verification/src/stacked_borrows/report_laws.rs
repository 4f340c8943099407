//! What is reported and recorded of the operations on a stack, and why they are refused.
use vstd::prelude::*;

use crate::memory;
use crate::memory::Size;
use crate::stacked_borrows::allocation_laws::SweepDone;
use crate::stacked_borrows::diagnostics;
use crate::stacked_borrows::diagnostics::{
    AccessSite, BorrowError, DiagnosticView, HistoryEvent, HistoryQuery, StackUpdateType,
};
use crate::stacked_borrows::effects;
use crate::stacked_borrows::global::GlobalStateInner;
use crate::stacked_borrows::item::{AccessKind, Item, Permission, SbTag};
use crate::stacked_borrows::stack;
use crate::stacked_borrows::stack::StackOp;
use crate::stacked_borrows::stacks::Sweep;

verus! {

/// The access that the operation is or needs, and the tag it is made with. Freeing is none.
pub open spec fn reason(op: StackOp) -> Option<(SbTag, AccessKind)> {
    match op {
        StackOp::Access { access, tag } => Some((tag, access)),
        StackOp::Dealloc { tag } => None,
        StackOp::Grant { derived_from, new } => if new.perm == Permission::Unique {
            Some((derived_from, AccessKind::Write))
        } else if effects::shares(new.perm) {
            None
        } else {
            Some((derived_from, AccessKind::Read))
        },
    }
}

/// The item at `j` goes, or loses something, when the operation succeeds.
pub open spec fn hit(s: Seq<Item>, op: StackOp, j: int) -> bool {
    0 <= j < s.len() && match reason(op) {
        Some((tag, AccessKind::Write)) => exists|g: int| #[trigger]
            effects::grants_write(s, tag, g) && !effects::stays(s, g, j),
        Some((tag, AccessKind::Read)) => exists|g: int| #[trigger]
            effects::grants_read(s, tag, g) && effects::loses(s, g, j),
        None => op is Dealloc,
    }
}

/// What happens to items with this tag is to be reported.
pub open spec fn followed(global: GlobalStateInner, tag: SbTag) -> bool {
    tag matches SbTag::Tagged(id) && global.tracked_pointer_tags@.contains(id)
}

/// An element of two sequences in a row is one of the one or of the other.
proof fn lemma_in_sum<A>(a: Seq<A>, b: Seq<A>, x: A)
    ensures
        (a + b).contains(x) <==> a.contains(x) || b.contains(x),
{
    if a.contains(x) {
        let i = choose|i: int| 0 <= i < a.len() && a[i] == x;
        assert((a + b)[i] == x);
    }
    if b.contains(x) {
        let i = choose|i: int| 0 <= i < b.len() && b[i] == x;
        assert((a + b)[a.len() + i] == x);
    }
}

/// What popping reports of the item at `j`.
spec fn pop_says(
    s: Seq<Item>,
    j: int,
    by: Option<(SbTag, AccessKind)>,
    traced: bool,
    global: GlobalStateInner,
    d: DiagnosticView,
) -> bool {
    ||| d == DiagnosticView::PoppedPointerTag(s[j], by) && followed(global, s[j].tag)
    ||| traced && d == DiagnosticView::StackUpdate(s.take(j), StackUpdateType::Remove(s[j].tag))
}

/// What popping the items from `bottom` up reports is what it reports of each of them.
proof fn lemma_pop_says(
    s: Seq<Item>,
    bottom: int,
    by: Option<(SbTag, AccessKind)>,
    traced: bool,
    global: GlobalStateInner,
    d: DiagnosticView,
)
    requires
        0 <= bottom,
    ensures
        stack::pop_notices(s, bottom, by, traced, global).contains(d) <==> exists|j: int|
            bottom <= j < s.len() && #[trigger] pop_says(s, j, by, traced, global, d),
    decreases s.len() - bottom,
{
    if bottom < s.len() {
        lemma_pop_says(s, bottom + 1, by, traced, global, d);
        let above = stack::pop_notices(s, bottom + 1, by, traced, global);
        let popped = stack::popped_notice(s[bottom], by, global);
        let update = stack::update_notice(
            s.take(bottom),
            StackUpdateType::Remove(s[bottom].tag),
            traced,
        );
        lemma_in_sum(above, popped, d);
        lemma_in_sum(above + popped, update, d);
        lemma_in_one(popped, DiagnosticView::PoppedPointerTag(s[bottom], by), d);
        lemma_in_one(
            update,
            DiagnosticView::StackUpdate(
                s.take(bottom),
                StackUpdateType::Remove(s[bottom].tag),
            ),
            d,
        );
        if pop_says(s, bottom, by, traced, global, d) {
            assert((above + popped + update).contains(d));
        }
        if exists|j: int|
            bottom <= j < s.len() && #[trigger] pop_says(s, j, by, traced, global, d) {
            let j = choose|j: int|
                bottom <= j < s.len() && #[trigger] pop_says(s, j, by, traced, global, d);
            if j > bottom {
                assert(above.contains(d));
            }
        }
    }
}

/// A sequence that is empty or has one given element has no other.
proof fn lemma_in_one<A>(a: Seq<A>, x: A, d: A)
    requires
        a == Seq::<A>::empty() || a == seq![x],
    ensures
        a.contains(d) <==> a.len() == 1 && d == x,
{
    if a == seq![x] {
        assert(a[0] == x);
    }
}

/// What a read through the item at `g` reports of the item at `j`.
spec fn read_says(
    s: Seq<Item>,
    g: int,
    j: int,
    by: (SbTag, AccessKind),
    traced: bool,
    global: GlobalStateInner,
    d: DiagnosticView,
) -> bool {
    &&& effects::loses(s, g, j)
    &&& {
        ||| d == DiagnosticView::PoppedPointerTag(s[j], Some(by)) && followed(global, s[j].tag)
        ||| traced && d == DiagnosticView::StackUpdate(
            stack::demoted_from(s, g, j),
            StackUpdateType::Changed(s[j].tag),
        )
    }
}

/// What a read reports is what it reports of each item.
proof fn lemma_read_says(
    s: Seq<Item>,
    g: int,
    bottom: int,
    by: (SbTag, AccessKind),
    traced: bool,
    global: GlobalStateInner,
    d: DiagnosticView,
)
    requires
        0 <= bottom,
    ensures
        stack::read_notices(s, g, bottom, by, traced, global).contains(d) <==> exists|j: int|
            bottom <= j < s.len() && #[trigger] read_says(s, g, j, by, traced, global, d),
    decreases s.len() - bottom,
{
    if bottom < s.len() {
        lemma_read_says(s, g, bottom + 1, by, traced, global, d);
        let above = stack::read_notices(s, g, bottom + 1, by, traced, global);
        let popped = stack::popped_notice(s[bottom], Some(by), global);
        let changed = stack::demoted_from(s, g, bottom);
        let update = stack::update_notice(
            changed,
            StackUpdateType::Changed(s[bottom].tag),
            traced,
        );
        let here = if stack::demotable(s, g, bottom) {
            popped + update
        } else {
            Seq::empty()
        };
        lemma_in_sum(above, here, d);
        lemma_in_sum(popped, update, d);
        lemma_in_one(popped, DiagnosticView::PoppedPointerTag(s[bottom], Some(by)), d);
        lemma_in_one(
            update,
            DiagnosticView::StackUpdate(changed, StackUpdateType::Changed(s[bottom].tag)),
            d,
        );
        if exists|j: int|
            bottom <= j < s.len() && #[trigger] read_says(s, g, j, by, traced, global, d) {
            let j = choose|j: int|
                bottom <= j < s.len() && #[trigger] read_says(s, g, j, by, traced, global, d);
            if j > bottom {
                assert(above.contains(d));
            } else {
                assert(here.contains(d));
            }
        }
        if here.contains(d) {
            assert(read_says(s, g, bottom, by, traced, global, d));
        }
    }
}

/// What a write that succeeds reports.
proof fn lemma_write_report(
    s: Seq<Item>,
    g: int,
    tag: SbTag,
    site: AccessSite,
    global: GlobalStateInner,
    d: DiagnosticView,
)
    requires
        stack::granting(s, AccessKind::Write, tag) == Some(g),
        stack::access_outcome(s, AccessKind::Write, tag, site, global).result is Ok,
    ensures
        ({
            let outcome = stack::access_outcome(s, AccessKind::Write, tag, site, global);
            let s1 = stack::activated(s, g);
            let by = Some((tag, AccessKind::Write));
            let traced = global.traces_alloc(site.alloc_id);
            outcome.notices.contains(d) <==> {
                ||| exists|j: int|
                    0 <= j < s.len() && !effects::stays(s, g, j) && #[trigger] pop_says(
                        s1,
                        j,
                        by,
                        traced,
                        global,
                        d,
                    )
                ||| traced && d == DiagnosticView::StackAccess(outcome.stack, tag)
                ||| traced && s[g].perm == Permission::TwoPhasedRW && d
                    == DiagnosticView::StackUpdate(s1, StackUpdateType::Changed(s[g].tag))
            }
        }),
{
    effects::lemma_found(s, tag);
    effects::lemma_stays(s, g);
    let outcome = stack::access_outcome(s, AccessKind::Write, tag, site, global);
    let s1 = stack::activated(s, g);
    let by = Some((tag, AccessKind::Write));
    let traced = global.traces_alloc(site.alloc_id);
    let bottom = stack::first_write_incompatible(s1, g);
    let first = if s[g].perm == Permission::TwoPhasedRW {
        stack::update_notice(s1, StackUpdateType::Changed(s[g].tag), traced)
    } else {
        Seq::empty()
    };
    let popped = stack::pop_notices(s1, bottom, by, traced, global);
    let last = stack::access_notice(outcome.stack, tag, traced);
    assert(outcome.notices == first + popped + last);
    lemma_in_sum(first, popped, d);
    lemma_in_sum(first + popped, last, d);
    lemma_in_one(
        first,
        DiagnosticView::StackUpdate(s1, StackUpdateType::Changed(s[g].tag)),
        d,
    );
    lemma_in_one(last, DiagnosticView::StackAccess(outcome.stack, tag), d);
    lemma_pop_says(s1, bottom, by, traced, global, d);
}

/// What a read that succeeds reports.
proof fn lemma_read_report(
    s: Seq<Item>,
    g: int,
    tag: SbTag,
    site: AccessSite,
    global: GlobalStateInner,
    d: DiagnosticView,
)
    requires
        stack::granting(s, AccessKind::Read, tag) == Some(g),
        stack::access_outcome(s, AccessKind::Read, tag, site, global).result is Ok,
    ensures
        ({
            let outcome = stack::access_outcome(s, AccessKind::Read, tag, site, global);
            let by = (tag, AccessKind::Read);
            let traced = global.traces_alloc(site.alloc_id);
            outcome.notices.contains(d) <==> {
                ||| exists|j: int|
                    0 <= j < s.len() && #[trigger] read_says(s, g, j, by, traced, global, d)
                ||| traced && d == DiagnosticView::StackAccess(outcome.stack, tag)
            }
        }),
{
    effects::lemma_found(s, tag);
    let outcome = stack::access_outcome(s, AccessKind::Read, tag, site, global);
    let by = (tag, AccessKind::Read);
    let traced = global.traces_alloc(site.alloc_id);
    let changes = stack::read_notices(s, g, g + 1, by, traced, global);
    let last = stack::access_notice(outcome.stack, tag, traced);
    assert(outcome.notices == changes + last);
    lemma_in_sum(changes, last, d);
    lemma_in_one(last, DiagnosticView::StackAccess(outcome.stack, tag), d);
    lemma_read_says(s, g, g + 1, by, traced, global, d);
}

/// What freeing that succeeds reports.
proof fn lemma_free_report(
    s: Seq<Item>,
    tag: SbTag,
    site: AccessSite,
    global: GlobalStateInner,
    d: DiagnosticView,
)
    requires
        stack::dealloc_outcome(s, tag, site, global).result is Ok,
    ensures
        stack::dealloc_outcome(s, tag, site, global).notices.contains(d) <==> exists|j: int|
            0 <= j < s.len() && #[trigger] pop_says(
                s,
                j,
                None,
                global.traces_alloc(site.alloc_id),
                global,
                d,
            ),
{
    lemma_pop_says(s, 0, None, global.traces_alloc(site.alloc_id), global, d);
}

/// When an operation succeeds, exactly the items that go or lose something and whose tag is
/// followed are reported, each as it was, with the access that did it.
pub proof fn law_lost_pointers_are_reported(
    s: Seq<Item>,
    op: StackOp,
    site: AccessSite,
    global: GlobalStateInner,
    item: Item,
    by: Option<(SbTag, AccessKind)>,
)
    requires
        stack::op_outcome(s, op, site, global).result is Ok,
    ensures
        stack::op_outcome(s, op, site, global).notices.contains(
            DiagnosticView::PoppedPointerTag(item, by),
        ) <==> followed(global, item.tag) && by == reason(op) && exists|j: int| #[trigger]
            hit(s, op, j) && s[j] == item,
{
    let d = DiagnosticView::PoppedPointerTag(item, by);
    let traced = global.traces_alloc(site.alloc_id);
    match reason(op) {
        None => {
            if let StackOp::Dealloc { tag } = op {
                lemma_free_report(s, tag, site, global, d);
                assert forall|j: int| 0 <= j < s.len() implies (#[trigger] pop_says(
                    s,
                    j,
                    None,
                    traced,
                    global,
                    d,
                ) <==> followed(global, item.tag) && by == reason(op) && hit(s, op, j) && s[j]
                    == item) by {}
                if exists|j: int|
                    0 <= j < s.len() && #[trigger] pop_says(s, j, None, traced, global, d) {
                    let j = choose|j: int|
                        0 <= j < s.len() && #[trigger] pop_says(s, j, None, traced, global, d);
                    assert(hit(s, op, j) && s[j] == item);
                }
                if exists|j: int| #[trigger] hit(s, op, j) && s[j] == item {
                    let j = choose|j: int| #[trigger] hit(s, op, j) && s[j] == item;
                    assert(pop_says(s, j, None, traced, global, d) || !(followed(
                        global,
                        item.tag,
                    ) && by == reason(op)));
                }
            } else {
                let added = op->new;
                lemma_in_one(
                    stack::op_outcome(s, op, site, global).notices,
                    DiagnosticView::StackUpdate(
                        stack::op_outcome(s, op, site, global).stack,
                        StackUpdateType::Added(added.tag),
                    ),
                    d,
                );
            }
        },
        Some((tag, access)) => {
            lemma_access_reports_lost(s, access, tag, site, global, item, by);
            let accessed = stack::access_outcome(s, access, tag, site, global);
            let plain = StackOp::Access { access, tag };
            assert forall|j: int| #[trigger] hit(s, op, j) == hit(s, plain, j) by {}
            assert forall|j: int| #[trigger] hit(s, plain, j) == hit(s, op, j) by {}
            if let StackOp::Grant { derived_from, new } = op {
                let outcome = stack::op_outcome(s, op, site, global);
                let last = stack::update_notice(
                    outcome.stack,
                    StackUpdateType::Added(new.tag),
                    traced,
                );
                lemma_in_sum(accessed.notices, last, d);
                lemma_in_one(
                    last,
                    DiagnosticView::StackUpdate(
                        outcome.stack,
                        StackUpdateType::Added(new.tag),
                    ),
                    d,
                );
            }
        },
    }
}

/// The same of an access.
proof fn lemma_access_reports_lost(
    s: Seq<Item>,
    access: AccessKind,
    tag: SbTag,
    site: AccessSite,
    global: GlobalStateInner,
    item: Item,
    by: Option<(SbTag, AccessKind)>,
)
    requires
        stack::access_outcome(s, access, tag, site, global).result is Ok,
    ensures
        stack::access_outcome(s, access, tag, site, global).notices.contains(
            DiagnosticView::PoppedPointerTag(item, by),
        ) <==> followed(global, item.tag) && by == Some((tag, access)) && exists|j: int|
            #[trigger] hit(s, StackOp::Access { access, tag }, j) && s[j] == item,
{
    let op = StackOp::Access { access, tag };
    let d = DiagnosticView::PoppedPointerTag(item, by);
    let traced = global.traces_alloc(site.alloc_id);
    let g = stack::granting(s, access, tag)->0;
    effects::lemma_found(s, tag);
    if access == AccessKind::Write {
        let s1 = stack::activated(s, g);
        lemma_write_report(s, g, tag, site, global, d);
        effects::lemma_stays(s, g);
        assert forall|j: int| #[trigger] hit(s, op, j) == (0 <= j < s.len() && !effects::stays(
            s,
            g,
            j,
        )) by {
            assert forall|h: int| #[trigger] effects::grants_write(s, tag, h) implies h == g by {
                effects::lemma_one_granting(s, tag, g, h);
            }
        }
        assert forall|j: int| hit(s, op, j) implies (#[trigger] pop_says(
            s1,
            j,
            Some((tag, access)),
            traced,
            global,
            d,
        ) <==> followed(global, item.tag) && by == Some((tag, access)) && s[j] == item) by {
            assert(s1[j] == s[j]);
        }
        if exists|j: int|
            0 <= j < s.len() && !effects::stays(s, g, j) && #[trigger] pop_says(
                s1,
                j,
                Some((tag, access)),
                traced,
                global,
                d,
            ) {
            let j = choose|j: int|
                0 <= j < s.len() && !effects::stays(s, g, j) && #[trigger] pop_says(
                    s1,
                    j,
                    Some((tag, access)),
                    traced,
                    global,
                    d,
                );
            assert(hit(s, op, j) && s[j] == item);
        }
        if exists|j: int| #[trigger] hit(s, op, j) && s[j] == item {
            let j = choose|j: int| #[trigger] hit(s, op, j) && s[j] == item;
            assert(pop_says(s1, j, Some((tag, access)), traced, global, d) || !(followed(
                global,
                item.tag,
            ) && by == Some((tag, access))));
        }
    } else {
        lemma_read_report(s, g, tag, site, global, d);
        assert forall|j: int| #[trigger] hit(s, op, j) == (0 <= j < s.len() && effects::loses(
            s,
            g,
            j,
        )) by {
            assert forall|h: int| #[trigger] effects::grants_read(s, tag, h) implies h == g by {
                effects::lemma_one_granting(s, tag, g, h);
            }
        }
        if exists|j: int| #[trigger] hit(s, op, j) && s[j] == item {
            let j = choose|j: int| #[trigger] hit(s, op, j) && s[j] == item;
            assert(read_says(s, g, j, (tag, access), traced, global, d) || !(followed(
                global,
                item.tag,
            ) && by == Some((tag, access))));
        }
        if exists|j: int|
            0 <= j < s.len() && #[trigger] read_says(s, g, j, (tag, access), traced, global, d) {
            let j = choose|j: int|
                0 <= j < s.len() && #[trigger] read_says(
                    s,
                    g,
                    j,
                    (tag, access),
                    traced,
                    global,
                    d,
                );
            assert(hit(s, op, j) && s[j] == item);
        }
    }
}

/// Nothing is reported if the allocation is not traced and no tag in its stack is followed.
pub proof fn law_untraced_operations_are_silent(
    s: Seq<Item>,
    op: StackOp,
    site: AccessSite,
    global: GlobalStateInner,
)
    requires
        !global.tracked_alloced_location_ids@.contains(site.alloc_id),
        forall|j: int| 0 <= j < s.len() ==> !followed(global, (#[trigger] s[j]).tag),
    ensures
        stack::op_outcome(s, op, site, global).notices.len() == 0,
{
    match op {
        StackOp::Dealloc { tag } => {
            if let Some(p) = stack::pop_blocker(s, 0, global) {
                lemma_pop_blocker(s, 0, global);
                lemma_silent_pop(s, p + 1, None, global);
            } else {
                lemma_silent_pop(s, 0, None, global);
            }
        },
        StackOp::Access { access, tag } => {
            lemma_silent_access(s, access, tag, site, global);
        },
        StackOp::Grant { derived_from, new } => {
            lemma_silent_access(s, stack::access_for(new.perm), derived_from, site, global);
        },
    }
}

proof fn lemma_silent_access(
    s: Seq<Item>,
    access: AccessKind,
    tag: SbTag,
    site: AccessSite,
    global: GlobalStateInner,
)
    requires
        !global.tracked_alloced_location_ids@.contains(site.alloc_id),
        forall|j: int| 0 <= j < s.len() ==> !followed(global, (#[trigger] s[j]).tag),
    ensures
        stack::access_outcome(s, access, tag, site, global).notices.len() == 0,
{
    effects::lemma_found(s, tag);
    if let Some(g) = stack::granting(s, access, tag) {
        if access == AccessKind::Write {
            let s1 = stack::activated(s, g);
            effects::lemma_stays(s, g);
            assert forall|j: int| 0 <= j < s1.len() implies !followed(
                global,
                (#[trigger] s1[j]).tag,
            ) by {
                assert(s1[j].tag == s[j].tag);
            }
            let bottom = stack::first_write_incompatible(s1, g);
            lemma_pop_blocker(s1, bottom, global);
            if let Some(p) = stack::pop_blocker(s1, bottom, global) {
                assert(!followed(global, s1[p].tag));
                lemma_silent_pop(s1, p + 1, Some((tag, access)), global);
            } else {
                lemma_silent_pop(s1, bottom, Some((tag, access)), global);
            }
        } else {
            lemma_read_blocker(s, g, global);
            if let Some(p) = stack::read_blocker(s, g, global) {
                assert(!followed(global, s[p].tag));
                lemma_silent_read(s, g, p + 1, (tag, access), global);
            } else {
                lemma_silent_read(s, g, g + 1, (tag, access), global);
            }
        }
    }
}

proof fn lemma_silent_pop(
    s: Seq<Item>,
    bottom: int,
    by: Option<(SbTag, AccessKind)>,
    global: GlobalStateInner,
)
    requires
        forall|j: int| 0 <= j < s.len() ==> !followed(global, (#[trigger] s[j]).tag),
    ensures
        stack::pop_notices(s, bottom, by, false, global).len() == 0,
    decreases s.len() - bottom,
{
    if 0 <= bottom < s.len() {
        lemma_silent_pop(s, bottom + 1, by, global);
        assert(!followed(global, s[bottom].tag));
    }
}

proof fn lemma_silent_read(
    s: Seq<Item>,
    g: int,
    bottom: int,
    by: (SbTag, AccessKind),
    global: GlobalStateInner,
)
    requires
        forall|j: int| 0 <= j < s.len() ==> !followed(global, (#[trigger] s[j]).tag),
    ensures
        stack::read_notices(s, g, bottom, by, false, global).len() == 0,
    decreases s.len() - bottom,
{
    if 0 <= bottom < s.len() {
        lemma_silent_read(s, g, bottom + 1, by, global);
        assert(!followed(global, s[bottom].tag));
    }
}

/// The item that stops popping is the highest protected one.
proof fn lemma_pop_blocker(s: Seq<Item>, bottom: int, global: GlobalStateInner)
    requires
        0 <= bottom,
    ensures
        match stack::pop_blocker(s, bottom, global) {
            Some(p) => {
                &&& bottom <= p < s.len()
                &&& effects::protected(s[p], global.active_calls@)
                &&& forall|j: int|
                    p < j < s.len() ==> !effects::protected(#[trigger] s[j], global.active_calls@)
            },
            None => forall|j: int|
                bottom <= j < s.len() ==> !effects::protected(
                    #[trigger] s[j],
                    global.active_calls@,
                ),
        },
{
    let p = |i: int| bottom <= i && global.protects(s[i]);
    stack::lemma_last_where(p, s.len() as int);
    assert forall|j: int|
        #![trigger s[j]]
        p(j) == (bottom <= j && effects::protected(s[j], global.active_calls@)) by {}
}

/// The item that stops a read is the highest protected one that loses something.
proof fn lemma_read_blocker(s: Seq<Item>, g: int, global: GlobalStateInner)
    ensures
        match stack::read_blocker(s, g, global) {
            Some(p) => {
                &&& 0 <= p < s.len()
                &&& effects::loses(s, g, p)
                &&& effects::protected(s[p], global.active_calls@)
                &&& forall|j: int|
                    p < j < s.len() && effects::loses(s, g, j) ==> !effects::protected(
                        #[trigger] s[j],
                        global.active_calls@,
                    )
            },
            None => forall|j: int|
                0 <= j < s.len() && effects::loses(s, g, j) ==> !effects::protected(
                    #[trigger] s[j],
                    global.active_calls@,
                ),
        },
{
    let p = |i: int| stack::demotable(s, g, i) && global.protects(s[i]);
    stack::lemma_last_where(p, s.len() as int);
    assert forall|j: int|
        #![trigger s[j]]
        p(j) == (effects::loses(s, g, j) && effects::protected(s[j], global.active_calls@)) by {}
}

/// The positions of the items whose invalidation is recorded, from the top down: those that a
/// write pops, and those that a read disables. The record has one event for each, and no more.
pub open spec fn recorded_at(
    s: Seq<Item>,
    op: StackOp,
    site: AccessSite,
    history: Seq<HistoryEvent>,
    at: Seq<int>,
) -> bool {
    &&& forall|a: int, b: int|
        #![trigger at[a], at[b]]
        0 <= a < b < at.len() ==> at[a] > at[b]
    &&& forall|j: int| #[trigger]
        at.contains(j) <==> {
            &&& hit(s, op, j)
            &&& reason(op) matches Some((tag, access))
            &&& access == AccessKind::Write || s[j].perm == Permission::Unique
        }
    &&& history.len() == at.len()
    &&& forall|k: int|
        0 <= k < at.len() ==> #[trigger] history[k] == (HistoryEvent::Invalidation {
            tag: s[at[k]].tag,
            range: site.range,
        })
}

/// When an operation succeeds, exactly the tags that it makes useless are recorded, the topmost
/// first. Freeing memory records nothing.
pub proof fn law_invalidations_are_recorded(
    s: Seq<Item>,
    op: StackOp,
    site: AccessSite,
    global: GlobalStateInner,
)
    requires
        stack::op_outcome(s, op, site, global).result is Ok,
    ensures
        exists|at: Seq<int>| #[trigger]
            recorded_at(s, op, site, stack::op_outcome(s, op, site, global).history, at),
{
    let history = stack::op_outcome(s, op, site, global).history;
    match reason(op) {
        None => {
            let at = Seq::<int>::empty();
            assert(recorded_at(s, op, site, history, at));
        },
        Some((tag, access)) => {
            let g = stack::granting(s, access, tag)->0;
            effects::lemma_found(s, tag);
            assert(history == stack::access_outcome(s, access, tag, site, global).history);
            if access == AccessKind::Write {
                effects::lemma_stays(s, g);
                let s1 = stack::activated(s, g);
                let bottom = stack::first_write_incompatible(s1, g);
                let at = Seq::new((s.len() - bottom) as nat, |k: int| s.len() - 1 - k);
                assert forall|j: int| #[trigger] at.contains(j) <==> hit(s, op, j) by {
                    assert forall|h: int| #[trigger] effects::grants_write(
                        s,
                        tag,
                        h,
                    ) implies h == g by {
                        effects::lemma_one_granting(s, tag, g, h);
                    }
                    if bottom <= j < s.len() {
                        assert(at[s.len() - 1 - j] == j);
                        assert(!effects::stays(s, g, j));
                    }
                }
                assert(recorded_at(s, op, site, history, at));
            } else {
                let at = lemma_read_record(s, g, g + 1, site);
                assert forall|j: int| #[trigger] at.contains(j) <==> hit(s, op, j) && s[j].perm
                    == Permission::Unique by {
                    assert forall|h: int| #[trigger] effects::grants_read(
                        s,
                        tag,
                        h,
                    ) implies h == g by {
                        effects::lemma_one_granting(s, tag, g, h);
                    }
                }
                assert(recorded_at(s, op, site, history, at));
            }
        },
    }
}

/// The record of a read, from the top down to `bottom`.
proof fn lemma_read_record(s: Seq<Item>, g: int, bottom: int, site: AccessSite) -> (at: Seq<int>)
    requires
        0 <= g < bottom,
    ensures
        forall|a: int, b: int|
            #![trigger at[a], at[b]]
            0 <= a < b < at.len() ==> at[a] > at[b],
        forall|j: int| #[trigger]
            at.contains(j) <==> bottom <= j < s.len() && s[j].perm == Permission::Unique,
        stack::read_history(s, g, bottom, site).len() == at.len(),
        forall|k: int|
            0 <= k < at.len() ==> #[trigger] stack::read_history(s, g, bottom, site)[k] == (
            HistoryEvent::Invalidation { tag: s[at[k]].tag, range: site.range }),
    decreases s.len() - bottom,
{
    if bottom >= s.len() {
        Seq::empty()
    } else {
        let above = lemma_read_record(s, g, bottom + 1, site);
        if s[bottom].perm == Permission::Unique {
            let at = above.push(bottom);
            assert forall|j: int| #[trigger] at.contains(j) <==> bottom <= j < s.len() && s[j].perm
                == Permission::Unique by {
                if at.contains(j) {
                    let k = choose|k: int| 0 <= k < at.len() && at[k] == j;
                    if k < above.len() {
                        assert(above[k] == j);
                        assert(above.contains(j));
                    }
                }
                if bottom < j < s.len() && s[j].perm == Permission::Unique {
                    assert(above.contains(j));
                    let k = choose|k: int| 0 <= k < above.len() && above[k] == j;
                    assert(at[k] == j);
                }
                if j == bottom {
                    assert(at[above.len() as int] == j);
                }
            }
            assert forall|a: int, b: int|
                #![trigger at[a], at[b]]
                0 <= a < b < at.len() implies at[a] > at[b] by {
                assert(above.contains(above[a]));
            }
            at
        } else {
            above
        }
    }
}

/// An operation on a stack records nothing but invalidations in the range, whether it succeeds or
/// not.
pub proof fn law_operations_record_invalidations(
    s: Seq<Item>,
    op: StackOp,
    site: AccessSite,
    global: GlobalStateInner,
)
    ensures
        forall|k: int|
            0 <= k < stack::op_outcome(s, op, site, global).history.len() ==> ((
            #[trigger] stack::op_outcome(
                s,
                op,
                site,
                global,
            ).history[k]) matches HistoryEvent::Invalidation { tag, range } && range
                == site.range),
{
    match op {
        StackOp::Access { access, tag } => {
            if let Some(g) = stack::granting(s, access, tag) {
                lemma_read_records_invalidations(s, g, g + 1, site);
                if let Some(p) = stack::read_blocker(s, g, global) {
                    lemma_read_records_invalidations(s, g, p + 1, site);
                }
            }
        },
        StackOp::Dealloc { tag } => {},
        StackOp::Grant { derived_from, new } => {
            let access = stack::access_for(new.perm);
            if let Some(g) = stack::granting(s, access, derived_from) {
                lemma_read_records_invalidations(s, g, g + 1, site);
                if let Some(p) = stack::read_blocker(s, g, global) {
                    lemma_read_records_invalidations(s, g, p + 1, site);
                }
            }
        },
    }
}

proof fn lemma_read_records_invalidations(s: Seq<Item>, g: int, bottom: int, site: AccessSite)
    ensures
        forall|k: int|
            0 <= k < stack::read_history(s, g, bottom, site).len() ==> ((
            #[trigger] stack::read_history(
                s,
                g,
                bottom,
                site,
            )[k]) matches HistoryEvent::Invalidation { tag, range } && range == site.range),
    decreases s.len() - bottom,
{
    if 0 <= bottom < s.len() {
        lemma_read_records_invalidations(s, g, bottom + 1, site);
    }
}

/// If the allocation is traced, its stack is shown as it is when an operation succeeds, and once
/// more for each item that goes or loses something.
pub proof fn law_traced_stacks_are_shown(
    s: Seq<Item>,
    op: StackOp,
    site: AccessSite,
    global: GlobalStateInner,
    j: int,
)
    requires
        stack::op_outcome(s, op, site, global).result is Ok,
        global.tracked_alloced_location_ids@.contains(site.alloc_id),
    ensures
        ({
            let outcome = stack::op_outcome(s, op, site, global);
            &&& op matches StackOp::Access { access, tag } ==> outcome.notices.len() > 0
                && outcome.notices.last() == DiagnosticView::StackAccess(outcome.stack, tag)
            &&& op matches StackOp::Grant { derived_from, new } ==> outcome.notices.len() > 0
                && outcome.notices.last() == DiagnosticView::StackUpdate(
                outcome.stack,
                StackUpdateType::Added(new.tag),
            )
            &&& hit(s, op, j) ==> exists|d: DiagnosticView| #[trigger]
                outcome.notices.contains(d) && shows_hit(s, op, j, d)
        }),
{
    let outcome = stack::op_outcome(s, op, site, global);
    if hit(s, op, j) {
        match reason(op) {
            None => {
                let d = DiagnosticView::StackUpdate(s.take(j), StackUpdateType::Remove(s[j].tag));
                lemma_free_report(s, op->Dealloc_tag, site, global, d);
                assert(pop_says(s, j, None, true, global, d));
                assert(outcome.notices.contains(d) && shows_hit(s, op, j, d));
            },
            Some((tag, access)) => {
                let g = stack::granting(s, access, tag)->0;
                effects::lemma_found(s, tag);
                let accessed = stack::access_outcome(s, access, tag, site, global);
                let d = if access == AccessKind::Write {
                    let h = choose|h: int| #[trigger]
                        effects::grants_write(s, tag, h) && !effects::stays(s, h, j);
                    effects::lemma_one_granting(s, tag, g, h);
                    let s1 = stack::activated(s, g);
                    let d = DiagnosticView::StackUpdate(
                        s1.take(j),
                        StackUpdateType::Remove(s1[j].tag),
                    );
                    lemma_write_report(s, g, tag, site, global, d);
                    assert(pop_says(s1, j, Some((tag, access)), true, global, d));
                    d
                } else {
                    let h = choose|h: int| #[trigger]
                        effects::grants_read(s, tag, h) && effects::loses(s, h, j);
                    effects::lemma_one_granting(s, tag, g, h);
                    let d = DiagnosticView::StackUpdate(
                        stack::demoted_from(s, g, j),
                        StackUpdateType::Changed(s[j].tag),
                    );
                    lemma_read_report(s, g, tag, site, global, d);
                    assert(read_says(s, g, j, (tag, access), true, global, d));
                    d
                };
                assert(accessed.notices.contains(d));
                if op is Grant {
                    lemma_in_sum(
                        accessed.notices,
                        stack::update_notice(
                            outcome.stack,
                            StackUpdateType::Added(op->new.tag),
                            true,
                        ),
                        d,
                    );
                }
                assert(outcome.notices.contains(d) && shows_hit(s, op, j, d));
            },
        }
    }
}

/// The notice shows the stack when the item at `j` has just gone, with all below it and nothing
/// above it; or, where items stay, when it has just lost something and those below did not yet.
pub open spec fn shows_hit(s: Seq<Item>, op: StackOp, j: int, d: DiagnosticView) -> bool {
    if reason(op) matches Some((tag, AccessKind::Read)) {
        &&& d matches DiagnosticView::StackUpdate(shown, StackUpdateType::Changed(changed))
        &&& changed == s[j].tag
        &&& shown.len() == s.len()
        &&& shown[j].perm == if s[j].perm == Permission::Unique {
            Permission::Disabled
        } else {
            Permission::SharedReadOnly
        }
        &&& forall|k: int| 0 <= k < j ==> #[trigger] shown[k] == s[k]
        &&& forall|k: int| 0 <= k < s.len() ==> (#[trigger] shown[k]).tag == s[k].tag
    } else {
        &&& d matches DiagnosticView::StackUpdate(shown, StackUpdateType::Remove(removed))
        &&& removed == s[j].tag
        &&& shown.len() == j
        &&& forall|k: int| 0 <= k < j ==> (#[trigger] shown[k]).tag == s[k].tag
    }
}

/// An access is refused for want of an item exactly if no item with the tag permits it, and then
/// nothing changes. Any other refusal is for the highest protected item that would have gone or
/// lost something.
pub proof fn law_refused_access_says_why(
    s: Seq<Item>,
    access: AccessKind,
    tag: SbTag,
    site: AccessSite,
    global: GlobalStateInner,
)
    ensures
        ({
            let outcome = stack::access_outcome(s, access, tag, site, global);
            let none = forall|k: int|
                0 <= k < s.len() ==> (#[trigger] s[k]).tag != tag || s[k].perm
                    == Permission::Disabled || (access == AccessKind::Write && s[k].perm
                    == Permission::SharedReadOnly);
            &&& none ==> outcome.result == Err::<(), BorrowError>(
                BorrowError::Access { access, tag, site },
            ) && outcome.stack == s && outcome.history.len() == 0 && outcome.notices.len() == 0
            &&& !none && outcome.result is Err ==> exists|p: int| #[trigger]
                stands_in_the_way(s, StackOp::Access { access, tag }, p, global)
                    && outcome.result->Err_0 == (BorrowError::Protected {
                    tag,
                    item: s[p],
                    history: HistoryQuery {
                        tag,
                        range: site.range,
                        offset: site.offset,
                        protector_tag: Some(s[p].tag),
                    },
                })
        }),
{
    let outcome = stack::access_outcome(s, access, tag, site, global);
    let op = StackOp::Access { access, tag };
    stack::lemma_granting(s, access, tag);
    effects::lemma_found(s, tag);
    if let Some(g) = stack::granting(s, access, tag) {
        let item = s[g];
        if outcome.result is Err {
            if access == AccessKind::Write {
                effects::lemma_stays(s, g);
                let s1 = stack::activated(s, g);
                let bottom = stack::first_write_incompatible(s1, g);
                lemma_pop_blocker(s1, bottom, global);
                let p = stack::pop_blocker(s1, bottom, global)->0;
                assert(s1[p] == s[p]);
                assert(!effects::stays(s, g, p));
                assert(hit(s, op, p));
                assert forall|j: int| p < j && hit(s, op, j) implies !effects::protected(
                    #[trigger] s[j],
                    global.active_calls@,
                ) by {
                    assert(s1[j] == s[j]);
                }
                assert(stands_in_the_way(s, op, p, global));
            } else {
                lemma_read_blocker(s, g, global);
                let p = stack::read_blocker(s, g, global)->0;
                assert(hit(s, op, p));
                assert forall|j: int| p < j && hit(s, op, j) implies !effects::protected(
                    #[trigger] s[j],
                    global.active_calls@,
                ) by {
                    let h = choose|h: int| #[trigger]
                        effects::grants_read(s, tag, h) && effects::loses(s, h, j);
                    effects::lemma_one_granting(s, tag, g, h);
                }
                assert(stands_in_the_way(s, op, p, global));
            }
        }
    }
}

/// The item at `p` would go or lose something, and a call that is running protects it. That is so
/// of no item above it.
pub open spec fn stands_in_the_way(
    s: Seq<Item>,
    op: StackOp,
    p: int,
    global: GlobalStateInner,
) -> bool {
    &&& hit(s, op, p)
    &&& effects::protected(s[p], global.active_calls@)
    &&& forall|j: int|
        p < j && hit(s, op, j) ==> !effects::protected(#[trigger] s[j], global.active_calls@)
}

/// Freeing memory is refused for want of an item exactly if no item with the tag may be written
/// through, and then nothing changes. Any other refusal is for the highest protected item.
pub proof fn law_refused_freeing_says_why(
    s: Seq<Item>,
    tag: SbTag,
    site: AccessSite,
    global: GlobalStateInner,
)
    ensures
        ({
            let outcome = stack::dealloc_outcome(s, tag, site, global);
            let none = forall|k: int|
                0 <= k < s.len() ==> (#[trigger] s[k]).tag != tag || s[k].perm
                    == Permission::Disabled || s[k].perm == Permission::SharedReadOnly;
            &&& none ==> outcome.result == Err::<(), BorrowError>(
                BorrowError::Dealloc {
                    tag,
                    alloc_id: site.alloc_id,
                    history: HistoryQuery {
                        tag,
                        range: site.range,
                        offset: site.offset,
                        protector_tag: None,
                    },
                },
            ) && outcome.stack == s && outcome.notices.len() == 0
            &&& !none && outcome.result is Err ==> exists|p: int| #[trigger]
                stands_in_the_way(s, StackOp::Dealloc { tag }, p, global) && outcome.result->Err_0
                    == (BorrowError::ProtectedDealloc { item: s[p] })
            &&& outcome.history.len() == 0
        }),
{
    let outcome = stack::dealloc_outcome(s, tag, site, global);
    stack::lemma_granting(s, AccessKind::Write, tag);
    if let Some(g) = stack::granting(s, AccessKind::Write, tag) {
        let item = s[g];
        lemma_pop_blocker(s, 0, global);
        if let Some(p) = stack::pop_blocker(s, 0, global) {
            assert(hit(s, StackOp::Dealloc { tag }, p));
            assert(stands_in_the_way(s, StackOp::Dealloc { tag }, p, global));
        }
    }
}

/// Deriving an item is refused for want of an item exactly if none with the tag permits what the
/// new one needs, and then nothing changes. Any other refusal is the one of the access that the
/// derivation amounts to.
pub proof fn law_refused_derivation_says_why(
    s: Seq<Item>,
    derived_from: SbTag,
    new: Item,
    site: AccessSite,
    global: GlobalStateInner,
)
    ensures
        ({
            let outcome = stack::grant_outcome(s, derived_from, new, site, global);
            let writes = new.perm == Permission::Unique || new.perm == Permission::SharedReadWrite
                || new.perm == Permission::TwoPhasedRW;
            let none = forall|k: int|
                0 <= k < s.len() ==> (#[trigger] s[k]).tag != derived_from || s[k].perm
                    == Permission::Disabled || (writes && s[k].perm
                    == Permission::SharedReadOnly);
            let access = if writes {
                AccessKind::Write
            } else {
                AccessKind::Read
            };
            &&& none ==> outcome.result == Err::<(), BorrowError>(
                BorrowError::Grant { derived_from, new, site },
            ) && outcome.stack == s && outcome.history.len() == 0 && outcome.notices.len() == 0
            &&& !none && outcome.result is Err ==> outcome == stack::access_outcome(
                s,
                access,
                derived_from,
                site,
                global,
            )
        }),
{
    stack::lemma_granting(s, stack::access_for(new.perm), derived_from);
    if let Some(g) = stack::granting(s, stack::access_for(new.perm), derived_from) {
        let item = s[g];
    }
}

/// Each location of a range is in one of the runs that it is divided into.
proof fn lemma_in_run(sweep: Sweep, cuts: Seq<Size>, n: int, i: int)
    requires
        sweep.divided_by(cuts),
        0 <= n < cuts.len(),
        sweep.range.start <= i < cuts[n],
    ensures
        exists|k: int| 0 <= k < n && #[trigger] cuts[k] <= i && i < cuts[k + 1],
    decreases n,
{
    if cuts[n - 1] <= i {
        let first = cuts[n - 1];
        assert(i < cuts[(n - 1) + 1]);
    } else {
        lemma_in_run(sweep, cuts, n - 1, i);
    }
}

/// What the runs report is what each of them does.
proof fn lemma_runs_report(sweep: Sweep, cuts: Seq<Size>, n: int, d: DiagnosticView)
    ensures
        sweep.notices(cuts, n).contains(d) <==> exists|k: int|
            0 <= k < n && sweep.outcome(#[trigger] cuts[k]).notices.contains(d),
    decreases n,
{
    if n > 0 {
        lemma_runs_report(sweep, cuts, n - 1, d);
        lemma_in_sum(sweep.notices(cuts, n - 1), sweep.outcome(cuts[n - 1]).notices, d);
        let last = cuts[n - 1];
    }
}

/// What the runs record is what each of them does.
proof fn lemma_runs_record(sweep: Sweep, cuts: Seq<Size>, n: int, event: HistoryEvent)
    ensures
        sweep.history(cuts, n).contains(event) <==> exists|k: int|
            0 <= k < n && sweep.outcome(#[trigger] cuts[k]).history.contains(event),
    decreases n,
{
    if n > 0 {
        lemma_runs_record(sweep, cuts, n - 1, event);
        lemma_in_sum(sweep.history(cuts, n - 1), sweep.outcome(cuts[n - 1]).history, event);
        let last = cuts[n - 1];
    }
}

/// The runs that an operation was performed on when it succeeded.
proof fn lemma_runs(done: SweepDone) -> (cuts: Seq<Size>)
    requires
        done.valid(),
        done.result is Ok,
    ensures
        done.sweep().divided_by(cuts),
        done.after.notices == done.before.notices + done.sweep().notices(cuts, cuts.len() - 1),
        done.after.history == done.before.history + done.sweep().history(cuts, cuts.len() - 1),
        forall|k: int|
            0 <= k < cuts.len() - 1 ==> done.sweep().outcome(#[trigger] cuts[k]).result is Ok
                && effects::inside(done.range, cuts[k] as int),
{
    let sweep = done.sweep();
    let (cuts, n) = choose|cuts: Seq<Size>, n: int|
        {
            &&& #[trigger] sweep.performed(cuts, n, done.after.locations, done.result)
            &&& done.after.notices == done.before.notices + sweep.notices(cuts, n)
            &&& done.after.history == done.before.history + sweep.history(cuts, n)
        };
    assert(sweep.performed(cuts, n, done.after.locations, done.result));
    assert forall|k: int| 0 <= k < cuts.len() - 1 implies sweep.outcome(
        #[trigger] cuts[k],
    ).result is Ok && effects::inside(done.range, cuts[k] as int) by {
        let first = cuts[0];
        let last = cuts[cuts.len() - 1];
        if k == n - 1 {
            assert(sweep.outcome(cuts[n - 1]).result == done.result);
        }
    }
    cuts
}

/// When an operation on a range succeeds, exactly the items that go or lose something at some byte
/// of the range, and whose tag is followed, are reported. What was reported before stays.
pub proof fn law_lost_pointers_are_reported_everywhere(
    done: SweepDone,
    item: Item,
    by: Option<(SbTag, AccessKind)>,
) -> (reports: Seq<DiagnosticView>)
    requires
        done.valid(),
        done.result is Ok,
    ensures
        done.after.notices == done.before.notices + reports,
        reports.contains(DiagnosticView::PoppedPointerTag(item, by)) <==> {
            &&& followed(done.global, item.tag)
            &&& by == reason(done.op)
            &&& exists|i: int, j: int|
                effects::inside(done.range, i) && #[trigger] hit(
                    done.before.locations[i],
                    done.op,
                    j,
                ) && done.before.locations[i][j] == item
        },
{
    let sweep = done.sweep();
    let before = done.before.locations;
    let cuts = lemma_runs(done);
    let n = cuts.len() - 1;
    let d = DiagnosticView::PoppedPointerTag(item, by);
    lemma_runs_report(sweep, cuts, n, d);
    assert forall|k: int| 0 <= k < n implies (sweep.outcome(#[trigger] cuts[k]).notices.contains(d)
        <==> followed(done.global, item.tag) && by == reason(done.op) && exists|j: int| #[trigger]
        hit(before[cuts[k] as int], done.op, j) && before[cuts[k] as int][j] == item) by {
        law_lost_pointers_are_reported(
            before[cuts[k] as int],
            done.op,
            sweep.site(cuts[k]),
            done.global,
            item,
            by,
        );
    }
    if exists|i: int, j: int|
        effects::inside(done.range, i) && #[trigger] hit(before[i], done.op, j) && before[i][j]
            == item {
        let (i, j) = choose|i: int, j: int|
            effects::inside(done.range, i) && #[trigger] hit(before[i], done.op, j) && before[i][j]
                == item;
        let end = cuts[cuts.len() - 1];
        lemma_in_run(sweep, cuts, n, i);
        let k = choose|k: int| 0 <= k < n && #[trigger] cuts[k] <= i && i < cuts[k + 1];
        assert(before[i] == before[cuts[k] as int]);
        assert(hit(before[cuts[k] as int], done.op, j));
    }
    if sweep.notices(cuts, n).contains(d) {
        let k = choose|k: int| 0 <= k < n && sweep.outcome(#[trigger] cuts[k]).notices.contains(d);
        let j = choose|j: int| #[trigger]
            hit(before[cuts[k] as int], done.op, j) && before[cuts[k] as int][j] == item;
        assert(effects::inside(done.range, cuts[k] as int));
        assert(hit(before[cuts[k] as int], done.op, j));
    }
    sweep.notices(cuts, n)
}

/// When an operation on a range succeeds, what it adds to the history of the allocation is exactly
/// the tags that it makes useless at some byte of the range, each with the whole range. What was
/// recorded before stays.
pub proof fn law_invalidations_are_recorded_everywhere(
    done: SweepDone,
    event: HistoryEvent,
) -> (events: Seq<HistoryEvent>)
    requires
        done.valid(),
        done.result is Ok,
    ensures
        done.after.history == done.before.history + events,
        events.contains(event) <==> exists|i: int, j: int|
            {
                &&& effects::inside(done.range, i)
                &&& #[trigger] hit(done.before.locations[i], done.op, j)
                &&& makes_useless(done.before.locations[i], done.op, j)
                &&& event == (HistoryEvent::Invalidation {
                    tag: done.before.locations[i][j].tag,
                    range: done.range,
                })
            },
{
    let sweep = done.sweep();
    let before = done.before.locations;
    let cuts = lemma_runs(done);
    let n = cuts.len() - 1;
    lemma_runs_record(sweep, cuts, n, event);
    assert forall|k: int| 0 <= k < n implies (sweep.outcome(
        #[trigger] cuts[k],
    ).history.contains(event) <==> exists|j: int|
        {
            &&& #[trigger] hit(before[cuts[k] as int], done.op, j)
            &&& makes_useless(before[cuts[k] as int], done.op, j)
            &&& event == (HistoryEvent::Invalidation {
                tag: before[cuts[k] as int][j].tag,
                range: done.range,
            })
        }) by {
        lemma_recorded_events(
            before[cuts[k] as int],
            done.op,
            sweep.site(cuts[k]),
            done.global,
            event,
        );
    }
    if exists|i: int, j: int|
        {
            &&& effects::inside(done.range, i)
            &&& #[trigger] hit(before[i], done.op, j)
            &&& makes_useless(before[i], done.op, j)
            &&& event == (HistoryEvent::Invalidation { tag: before[i][j].tag, range: done.range })
        } {
        let (i, j) = choose|i: int, j: int|
            {
                &&& effects::inside(done.range, i)
                &&& #[trigger] hit(before[i], done.op, j)
                &&& makes_useless(before[i], done.op, j)
                &&& event == (HistoryEvent::Invalidation {
                    tag: before[i][j].tag,
                    range: done.range,
                })
            };
        let end = cuts[cuts.len() - 1];
        lemma_in_run(sweep, cuts, n, i);
        let k = choose|k: int| 0 <= k < n && #[trigger] cuts[k] <= i && i < cuts[k + 1];
        assert(before[i] == before[cuts[k] as int]);
        assert(hit(before[cuts[k] as int], done.op, j));
    }
    if sweep.history(cuts, n).contains(event) {
        let k = choose|k: int|
            0 <= k < n && sweep.outcome(#[trigger] cuts[k]).history.contains(event);
        assert(effects::inside(done.range, cuts[k] as int));
        let j = choose|j: int|
            {
                &&& #[trigger] hit(before[cuts[k] as int], done.op, j)
                &&& makes_useless(before[cuts[k] as int], done.op, j)
                &&& event == (HistoryEvent::Invalidation {
                    tag: before[cuts[k] as int][j].tag,
                    range: done.range,
                })
            };
        assert(hit(before[cuts[k] as int], done.op, j));
    }
    sweep.history(cuts, n)
}

/// An item that the operation hits is of no use afterwards, and that is worth recording: it was
/// popped by a write, or disabled by a read.
pub open spec fn makes_useless(s: Seq<Item>, op: StackOp, j: int) -> bool {
    &&& reason(op) matches Some((tag, access))
    &&& access == AccessKind::Write || s[j].perm == Permission::Unique
}

/// Which events an operation on one stack records.
proof fn lemma_recorded_events(
    s: Seq<Item>,
    op: StackOp,
    site: AccessSite,
    global: GlobalStateInner,
    event: HistoryEvent,
)
    requires
        stack::op_outcome(s, op, site, global).result is Ok,
    ensures
        stack::op_outcome(s, op, site, global).history.contains(event) <==> exists|j: int|
            {
                &&& #[trigger] hit(s, op, j)
                &&& makes_useless(s, op, j)
                &&& event == (HistoryEvent::Invalidation { tag: s[j].tag, range: site.range })
            },
{
    law_invalidations_are_recorded(s, op, site, global);
    let history = stack::op_outcome(s, op, site, global).history;
    let at = choose|at: Seq<int>| #[trigger] recorded_at(s, op, site, history, at);
    if history.contains(event) {
        let k = choose|k: int| 0 <= k < history.len() && history[k] == event;
        assert(at.contains(at[k]));
        assert(hit(s, op, at[k]));
    }
    if exists|j: int|
        {
            &&& #[trigger] hit(s, op, j)
            &&& makes_useless(s, op, j)
            &&& event == (HistoryEvent::Invalidation { tag: s[j].tag, range: site.range })
        } {
        let j = choose|j: int|
            {
                &&& #[trigger] hit(s, op, j)
                &&& makes_useless(s, op, j)
                &&& event == (HistoryEvent::Invalidation { tag: s[j].tag, range: site.range })
            };
        assert(at.contains(j));
        let k = choose|k: int| 0 <= k < at.len() && at[k] == j;
        assert(history[k] == event);
    }
}

/// The operation can be performed on the stack.
pub open spec fn possible(s: Seq<Item>, op: StackOp, global: GlobalStateInner) -> bool {
    match op {
        StackOp::Access { access: AccessKind::Read, tag } => effects::readable(
            s,
            tag,
            global.active_calls@,
        ),
        StackOp::Access { access: AccessKind::Write, tag } => effects::writable(
            s,
            tag,
            global.active_calls@,
        ),
        StackOp::Dealloc { tag } => effects::freeable(s, tag, global.active_calls@),
        StackOp::Grant { derived_from, new } => effects::derivable(
            s,
            derived_from,
            new,
            global.active_calls@,
        ),
    }
}

/// The violation is one of the operation on the range, found at the byte `i`.
pub open spec fn found_at(error: BorrowError, done: SweepDone, i: int) -> bool {
    match error {
        BorrowError::Access { access, tag, site } => site.alloc_id == done.alloc_id && site.range
            == done.range && site.offset == i && done.op == (StackOp::Access { access, tag }),
        BorrowError::Grant { derived_from, new, site } => site.alloc_id == done.alloc_id
            && site.range == done.range && site.offset == i && done.op == (StackOp::Grant {
            derived_from,
            new,
        }),
        BorrowError::Protected { tag, item, history } => history.range == done.range
            && history.offset == i && history.tag == tag && history.protector_tag == Some(item.tag)
            && done.before.locations[i].contains(item) && reason(done.op) is Some && tag == reason(
            done.op,
        )->Some_0.0,
        BorrowError::ProtectedDealloc { item } => done.op is Dealloc
            && done.before.locations[i].contains(item),
        BorrowError::Dealloc { tag, alloc_id, history } => alloc_id == done.alloc_id
            && history.range == done.range && history.offset == i && history.tag == tag
            && history.protector_tag is None && done.op == (StackOp::Dealloc { tag }),
    }
}

/// An operation on a range that fails does so for the first byte at which it is not possible, and
/// says so.
pub proof fn law_first_violation_is_reported(done: SweepDone)
    requires
        done.valid(),
        done.range.within(done.before.locations.len() as int),
        done.result is Err,
    ensures
        exists|i: int|
            {
                &&& effects::inside(done.range, i)
                &&& !#[trigger] possible(done.before.locations[i], done.op, done.global)
                &&& forall|k: int|
                    done.range.start <= k < i ==> #[trigger] possible(
                        done.before.locations[k],
                        done.op,
                        done.global,
                    )
                &&& found_at(done.result->Err_0, done, i)
            },
{
    let sweep = done.sweep();
    let before = done.before.locations;
    let i = choose|i: Size|
        {
            &&& sweep.range.covers(i as int)
            &&& #[trigger] sweep.outcome(i).result == done.result
            &&& sweep.permitted_below(i as int)
        };
    assert(effects::inside(done.range, i as int));
    lemma_possible(before[i as int], done.op, sweep.site(i), done.global);
    assert forall|k: int| done.range.start <= k < i implies #[trigger] possible(
        before[k],
        done.op,
        done.global,
    ) by {
        assert(sweep.outcome(k as Size).result is Ok);
        lemma_possible(before[k], done.op, sweep.site(k as Size), done.global);
    }
    lemma_found_at(done, i);
}

/// An operation succeeds exactly if it is possible.
proof fn lemma_possible(s: Seq<Item>, op: StackOp, site: AccessSite, global: GlobalStateInner)
    ensures
        stack::op_outcome(s, op, site, global).result is Ok <==> possible(s, op, global),
{
    match op {
        StackOp::Access { access: AccessKind::Read, tag } => {
            effects::law_read_effect(s, tag, site, global);
        },
        StackOp::Access { access: AccessKind::Write, tag } => {
            effects::law_write_effect(s, tag, site, global);
        },
        StackOp::Dealloc { tag } => {
            effects::law_free_effect(s, tag, site, global);
        },
        StackOp::Grant { derived_from, new } => {
            effects::law_derivation_effect(s, derived_from, new, site, global);
        },
    }
}

/// The error of one byte says where it was found.
proof fn lemma_found_at(done: SweepDone, i: Size)
    requires
        done.result is Err,
        done.sweep().outcome(i).result == done.result,
    ensures
        found_at(done.result->Err_0, done, i as int),
{
    let s = done.before.locations[i as int];
    let site = done.sweep().site(i);
    match done.op {
        StackOp::Access { access, tag } => {
            law_refused_access_says_why(s, access, tag, site, done.global);
        },
        StackOp::Dealloc { tag } => {
            law_refused_freeing_says_why(s, tag, site, done.global);
        },
        StackOp::Grant { derived_from, new } => {
            law_refused_derivation_says_why(s, derived_from, new, site, done.global);
            law_refused_access_says_why(s, AccessKind::Write, derived_from, site, done.global);
            law_refused_access_says_why(s, AccessKind::Read, derived_from, site, done.global);
        },
    }
}

/// The history that belongs to a violation is that of the tag that was used, of the bytes of the
/// whole operation, as of the byte where it failed; and of the protected item in the way, if there
/// was one. Only memory that is freed under a protected item needs none.
pub proof fn law_history_is_of_the_violation(error: BorrowError, done: SweepDone, i: int)
    requires
        found_at(error, done, i),
    ensures
        error.history_spec() is None <==> error is ProtectedDealloc,
        error.history_spec() matches Some(query) ==> {
            &&& query.range == done.range
            &&& query.offset == i
            &&& query.tag == match done.op {
                StackOp::Access { access, tag } => tag,
                StackOp::Dealloc { tag } => tag,
                StackOp::Grant { derived_from, new } => derived_from,
            }
            &&& error matches BorrowError::Protected { tag, item, history }
                ==> query.protector_tag == Some(item.tag)
            &&& !(error is Protected) ==> query.protector_tag is None
        },
{
}

/// An access that is refused for want of an item is explained truthfully: the tag is said to grant
/// nothing but reading exactly if it has an item for that, and not to be in the stack otherwise.
pub proof fn law_explanation_is_true(
    s: Seq<Item>,
    access: AccessKind,
    tag: SbTag,
    site: AccessSite,
    global: GlobalStateInner,
)
    requires
        stack::access_outcome(s, access, tag, site, global).result == Err::<(), BorrowError>(
            BorrowError::Access { access, tag, site },
        ),
    ensures
        ({
            let read_only = exists|k: int|
                0 <= k < s.len() && (#[trigger] s[k]).tag == tag && s[k].perm
                    == Permission::SharedReadOnly;
            &&& read_only ==> access == AccessKind::Write && diagnostics::cause_chars(s, tag)
                == ", but that tag only grants SharedReadOnly permission for this location"@
            &&& !read_only ==> diagnostics::cause_chars(s, tag)
                == ", but that tag does not exist in the borrow stack for this location"@
        }),
{
    stack::lemma_granting(s, access, tag);
    law_refused_access_says_why(s, access, tag, site, global);
    if diagnostics::has_live_item(s, tag) {
        let k = choose|k: int|
            0 <= k < s.len() && (#[trigger] s[k]).tag == tag && s[k].perm.permits(
                AccessKind::Read,
            );
        assert(!s[k].perm.permits(access));
        assert(s[k].perm == Permission::SharedReadOnly);
    }
    if exists|k: int|
        0 <= k < s.len() && (#[trigger] s[k]).tag == tag && s[k].perm
            == Permission::SharedReadOnly {
        let k = choose|k: int|
            0 <= k < s.len() && (#[trigger] s[k]).tag == tag && s[k].perm
                == Permission::SharedReadOnly;
        assert(!s[k].perm.permits(access));
        assert(diagnostics::has_live_item(s, tag));
    }
}

/// The notice is about an item of a stack, or about a stack.
pub open spec fn about_a_stack(d: DiagnosticView) -> bool {
    d is PoppedPointerTag || d is StackUpdate || d is StackAccess
}

/// An operation on a stack reports nothing but what happened to the stack and its items, whether it
/// succeeds or not.
pub proof fn law_operations_report_on_stacks(
    s: Seq<Item>,
    op: StackOp,
    site: AccessSite,
    global: GlobalStateInner,
)
    ensures
        forall|k: int|
            0 <= k < stack::op_outcome(s, op, site, global).notices.len() ==> about_a_stack(
                #[trigger] stack::op_outcome(s, op, site, global).notices[k],
            ),
{
    match op {
        StackOp::Access { access, tag } => {
            lemma_access_reports_on_stacks(s, access, tag, site, global);
        },
        StackOp::Dealloc { tag } => {
            let traced = global.traces_alloc(site.alloc_id);
            lemma_pops_report_on_stacks(s, 0, None, traced, global);
            if let Some(p) = stack::pop_blocker(s, 0, global) {
                lemma_pops_report_on_stacks(s, p + 1, None, traced, global);
            }
        },
        StackOp::Grant { derived_from, new } => {
            let access = stack::access_for(new.perm);
            lemma_access_reports_on_stacks(s, access, derived_from, site, global);
        },
    }
}

proof fn lemma_access_reports_on_stacks(
    s: Seq<Item>,
    access: AccessKind,
    tag: SbTag,
    site: AccessSite,
    global: GlobalStateInner,
)
    ensures
        forall|k: int|
            0 <= k < stack::access_outcome(s, access, tag, site, global).notices.len()
                ==> about_a_stack(
                #[trigger] stack::access_outcome(s, access, tag, site, global).notices[k],
            ),
{
    let traced = global.traces_alloc(site.alloc_id);
    if let Some(g) = stack::granting(s, access, tag) {
        if access == AccessKind::Write {
            let s1 = stack::activated(s, g);
            let bottom = stack::first_write_incompatible(s1, g);
            lemma_pops_report_on_stacks(s1, bottom, Some((tag, access)), traced, global);
            if let Some(p) = stack::pop_blocker(s1, bottom, global) {
                lemma_pops_report_on_stacks(s1, p + 1, Some((tag, access)), traced, global);
            }
        } else {
            lemma_reads_report_on_stacks(s, g, g + 1, (tag, access), traced, global);
            if let Some(p) = stack::read_blocker(s, g, global) {
                lemma_reads_report_on_stacks(s, g, p + 1, (tag, access), traced, global);
            }
        }
    }
}

proof fn lemma_pops_report_on_stacks(
    s: Seq<Item>,
    bottom: int,
    by: Option<(SbTag, AccessKind)>,
    traced: bool,
    global: GlobalStateInner,
)
    ensures
        forall|k: int|
            0 <= k < stack::pop_notices(s, bottom, by, traced, global).len() ==> about_a_stack(
                #[trigger] stack::pop_notices(s, bottom, by, traced, global)[k],
            ),
    decreases s.len() - bottom,
{
    if 0 <= bottom < s.len() {
        lemma_pops_report_on_stacks(s, bottom + 1, by, traced, global);
        let above = stack::pop_notices(s, bottom + 1, by, traced, global);
        let all = stack::pop_notices(s, bottom, by, traced, global);
        assert forall|k: int| 0 <= k < all.len() implies about_a_stack(#[trigger] all[k]) by {
            if k < above.len() {
                assert(all[k] == above[k]);
            }
        }
    }
}

proof fn lemma_reads_report_on_stacks(
    s: Seq<Item>,
    g: int,
    bottom: int,
    by: (SbTag, AccessKind),
    traced: bool,
    global: GlobalStateInner,
)
    ensures
        forall|k: int|
            0 <= k < stack::read_notices(s, g, bottom, by, traced, global).len() ==> about_a_stack(
                #[trigger] stack::read_notices(s, g, bottom, by, traced, global)[k],
            ),
    decreases s.len() - bottom,
{
    if 0 <= bottom < s.len() {
        lemma_reads_report_on_stacks(s, g, bottom + 1, by, traced, global);
        let above = stack::read_notices(s, g, bottom + 1, by, traced, global);
        let all = stack::read_notices(s, g, bottom, by, traced, global);
        assert forall|k: int| 0 <= k < all.len() implies about_a_stack(#[trigger] all[k]) by {
            if k < above.len() {
                assert(all[k] == above[k]);
            }
        }
    }
}

/// What a refused operation leaves where the item at `p` stood in the way. Where items go, that
/// item and everything above it is gone, and below it nothing happened but that a two-phase borrow
/// that was written through got over its first phase. Where items stay, what is above it lost what
/// it had to, and nothing else happened.
pub open spec fn stopped_at(s: Seq<Item>, op: StackOp, p: int, after: Seq<Item>) -> bool {
    if reason(op) matches Some((tag, AccessKind::Read)) {
        &&& after.len() == s.len()
        &&& forall|k: int|
            0 <= k < s.len() && (k <= p || !hit(s, op, k)) ==> #[trigger] after[k] == s[k]
        &&& forall|k: int|
            p < k < s.len() && hit(s, op, k) ==> (#[trigger] after[k]).tag == s[k].tag
                && after[k].protector == s[k].protector && after[k].perm == if s[k].perm
                == Permission::Unique {
                Permission::Disabled
            } else {
                Permission::SharedReadOnly
            }
    } else {
        &&& after.len() == p
        &&& forall|k: int|
            0 <= k < p ==> {
                ||| #[trigger] after[k] == s[k]
                ||| reason(op) matches Some((tag, access)) && s[k].tag == tag && after[k]
                    == effects::used(s[k])
            }
    }
}

/// An operation that a protected item stops does nothing to what is below that item. The item is
/// reported all the same, if its tag is followed.
pub proof fn law_refused_operation_stops(
    s: Seq<Item>,
    op: StackOp,
    site: AccessSite,
    global: GlobalStateInner,
)
    requires
        stack::op_outcome(s, op, site, global).result matches Err(error) && (error is Protected
            || error is ProtectedDealloc),
    ensures
        exists|p: int|
            {
                &&& #[trigger] stands_in_the_way(s, op, p, global)
                &&& stopped_at(s, op, p, stack::op_outcome(s, op, site, global).stack)
                &&& followed(global, s[p].tag) ==> stack::op_outcome(
                    s,
                    op,
                    site,
                    global,
                ).notices.contains(DiagnosticView::PoppedPointerTag(s[p], reason(op)))
            },
{
    match op {
        StackOp::Access { access, tag } => {
            lemma_refused_access_stops(s, access, tag, site, global);
        },
        StackOp::Dealloc { tag } => {
            lemma_pop_blocker(s, 0, global);
            let p = stack::pop_blocker(s, 0, global)->0;
            let traced = global.traces_alloc(site.alloc_id);
            let outcome = stack::dealloc_outcome(s, tag, site, global);
            assert(hit(s, op, p));
            assert(stands_in_the_way(s, op, p, global));
            assert(stopped_at(s, op, p, outcome.stack));
            let d = DiagnosticView::PoppedPointerTag(s[p], None);
            let last = stack::popped_notice(s[p], None, global);
            lemma_in_sum(stack::pop_notices(s, p + 1, None, traced, global), last, d);
            lemma_in_one(last, d, d);
        },
        StackOp::Grant { derived_from, new } => {
            law_refused_derivation_says_why(s, derived_from, new, site, global);
            let access = stack::access_for(new.perm);
            lemma_refused_access_stops(s, access, derived_from, site, global);
            let plain = StackOp::Access { access, tag: derived_from };
            let outcome = stack::op_outcome(s, op, site, global);
            assert(outcome == stack::access_outcome(s, access, derived_from, site, global));
            assert(reason(op) == reason(plain));
            assert forall|j: int| #[trigger] hit(s, op, j) == hit(s, plain, j) by {}
            assert forall|j: int| #[trigger] hit(s, plain, j) == hit(s, op, j) by {}
            let p = choose|p: int|
                {
                    &&& #[trigger] stands_in_the_way(s, plain, p, global)
                    &&& stopped_at(s, plain, p, outcome.stack)
                    &&& followed(global, s[p].tag) ==> outcome.notices.contains(
                        DiagnosticView::PoppedPointerTag(s[p], Some((derived_from, access))),
                    )
                };
            assert(stands_in_the_way(s, op, p, global));
            assert(stopped_at(s, op, p, outcome.stack));
        },
    }
}

/// The same of an access.
proof fn lemma_refused_access_stops(
    s: Seq<Item>,
    access: AccessKind,
    tag: SbTag,
    site: AccessSite,
    global: GlobalStateInner,
)
    requires
        stack::access_outcome(s, access, tag, site, global).result matches Err(error) && error
            is Protected,
    ensures
        exists|p: int|
            {
                &&& #[trigger] stands_in_the_way(s, StackOp::Access { access, tag }, p, global)
                &&& stopped_at(
                    s,
                    StackOp::Access { access, tag },
                    p,
                    stack::access_outcome(s, access, tag, site, global).stack,
                )
                &&& followed(global, s[p].tag) ==> stack::access_outcome(
                    s,
                    access,
                    tag,
                    site,
                    global,
                ).notices.contains(DiagnosticView::PoppedPointerTag(s[p], Some((tag, access))))
            },
{
    let op = StackOp::Access { access, tag };
    let outcome = stack::access_outcome(s, access, tag, site, global);
    let traced = global.traces_alloc(site.alloc_id);
    let by = (tag, access);
    effects::lemma_found(s, tag);
    let g = stack::granting(s, access, tag)->0;
    if access == AccessKind::Write {
        effects::lemma_stays(s, g);
        let s1 = stack::activated(s, g);
        let bottom = stack::first_write_incompatible(s1, g);
        lemma_pop_blocker(s1, bottom, global);
        let p = stack::pop_blocker(s1, bottom, global)->0;
        assert(s1[p] == s[p]);
        assert(!effects::stays(s, g, p));
        assert(hit(s, op, p));
        assert forall|j: int| p < j && hit(s, op, j) implies !effects::protected(
            #[trigger] s[j],
            global.active_calls@,
        ) by {
            assert(s1[j] == s[j]);
        }
        assert(stands_in_the_way(s, op, p, global));
        assert(outcome.stack == s1.take(p));
        assert(stopped_at(s, op, p, outcome.stack));
        let d = DiagnosticView::PoppedPointerTag(s[p], Some(by));
        let first = if s[g].perm == Permission::TwoPhasedRW {
            stack::update_notice(s1, StackUpdateType::Changed(s[g].tag), traced)
        } else {
            Seq::empty()
        };
        let above = stack::pop_notices(s1, p + 1, Some(by), traced, global);
        let last = stack::popped_notice(s[p], Some(by), global);
        assert(outcome.notices =~= first + (above + last));
        lemma_in_sum(first, above + last, d);
        lemma_in_sum(above, last, d);
        lemma_in_one(last, d, d);
    } else {
        lemma_read_blocker(s, g, global);
        let p = stack::read_blocker(s, g, global)->0;
        assert forall|j: int| #[trigger] hit(s, op, j) == (0 <= j < s.len() && effects::loses(
            s,
            g,
            j,
        )) by {
            assert forall|h: int| #[trigger] effects::grants_read(s, tag, h) implies h == g by {
                effects::lemma_one_granting(s, tag, g, h);
            }
        }
        assert(hit(s, op, p));
        assert(stands_in_the_way(s, op, p, global));
        assert(outcome.stack == stack::demoted_from(s, g, p + 1));
        assert(stopped_at(s, op, p, outcome.stack));
        let d = DiagnosticView::PoppedPointerTag(s[p], Some(by));
        let above = stack::read_notices(s, g, p + 1, by, traced, global);
        let last = stack::popped_notice(s[p], Some(by), global);
        lemma_in_sum(above, last, d);
        lemma_in_one(last, d, d);
    }
}

/// The text has the other text in it, between the two given ones.
pub open spec fn names(all: Seq<char>, part: Seq<char>, front: Seq<char>, back: Seq<char>) -> bool {
    all == front + part + back
}

/// A violation in words names the tag that was used and the place, and the item in the way if it is
/// for one.
pub proof fn law_message_names_what_was_used(error: BorrowError, s: Seq<Item>)
    ensures
        error matches BorrowError::Access { access, tag, site } ==> {
            &&& exists|a: Seq<char>, b: Seq<char>| #[trigger]
                names(error.chars(s), tag.chars(), a, b)
            &&& exists|a: Seq<char>, b: Seq<char>| #[trigger]
                names(error.chars(s), access.chars(), a, b)
            &&& exists|a: Seq<char>, b: Seq<char>| #[trigger]
                names(error.chars(s), diagnostics::site_chars(site), a, b)
        },
        error matches BorrowError::Grant { derived_from, new, site } ==> {
            &&& exists|a: Seq<char>, b: Seq<char>| #[trigger]
                names(error.chars(s), derived_from.chars(), a, b)
            &&& exists|a: Seq<char>, b: Seq<char>| #[trigger]
                names(error.chars(s), new.perm.chars(), a, b)
            &&& exists|a: Seq<char>, b: Seq<char>| #[trigger]
                names(error.chars(s), diagnostics::site_chars(site), a, b)
        },
        error matches BorrowError::Protected { tag, item, history } ==> {
            &&& exists|a: Seq<char>, b: Seq<char>| #[trigger]
                names(error.chars(s), tag.chars(), a, b)
            &&& exists|a: Seq<char>, b: Seq<char>| #[trigger]
                names(error.chars(s), item.chars(), a, b)
        },
        error matches BorrowError::ProtectedDealloc { item } ==> exists|
            a: Seq<char>,
            b: Seq<char>,
        | #[trigger]
            names(error.chars(s), item.chars(), a, b),
        error matches BorrowError::Dealloc { tag, alloc_id, history } ==> exists|
            a: Seq<char>,
            b: Seq<char>,
        | #[trigger]
            names(error.chars(s), tag.chars(), a, b),
{
    let all = error.chars(s);
    match error {
        BorrowError::Access { access, tag, site } => {
            let cause = diagnostics::cause_chars(s, tag);
            let place = diagnostics::site_chars(site);
            let a0 = "attempting a "@;
            let a1 = a0 + access.chars() + " using "@;
            let a2 = a1 + tag.chars() + " at "@;
            assert(all =~= a2 + place + cause);
            assert(all =~= a1 + tag.chars() + (" at "@ + place + cause));
            assert(all =~= a0 + access.chars() + (" using "@ + tag.chars() + " at "@ + place
                + cause));
            assert(names(all, place, a2, cause));
            assert(names(all, tag.chars(), a1, " at "@ + place + cause));
            assert(names(
                all,
                access.chars(),
                a0,
                " using "@ + tag.chars() + " at "@ + place + cause,
            ));
        },
        BorrowError::Grant { derived_from, new, site } => {
            let cause = diagnostics::cause_chars(s, derived_from);
            let place = diagnostics::site_chars(site);
            let a0 = "trying to reborrow "@;
            let a1 = a0 + derived_from.chars() + " for "@;
            let a2 = a1 + new.perm.chars() + " permission at "@;
            assert(all =~= a2 + place + cause);
            assert(all =~= a1 + new.perm.chars() + (" permission at "@ + place + cause));
            assert(all =~= a0 + derived_from.chars() + (" for "@ + new.perm.chars()
                + " permission at "@ + place + cause));
            assert(names(all, place, a2, cause));
            assert(names(all, new.perm.chars(), a1, " permission at "@ + place + cause));
            assert(names(
                all,
                derived_from.chars(),
                a0,
                " for "@ + new.perm.chars() + " permission at "@ + place + cause,
            ));
        },
        BorrowError::Protected { tag, item, history } => {
            let a0 = "not granting access to tag "@;
            let between = " because incompatible item is protected: "@;
            let none = Seq::<char>::empty();
            assert(all =~= a0 + tag.chars() + (between + item.chars()));
            assert(all =~= (a0 + tag.chars() + between) + item.chars() + none);
            assert(names(all, tag.chars(), a0, between + item.chars()));
            assert(names(all, item.chars(), a0 + tag.chars() + between, none));
        },
        BorrowError::ProtectedDealloc { item } => {
            let a0 = "deallocating while item is protected: "@;
            let none = Seq::<char>::empty();
            assert(all =~= a0 + item.chars() + none);
            assert(names(all, item.chars(), a0, none));
        },
        BorrowError::Dealloc { tag, alloc_id, history } => {
            let a0 = "no item granting write access for deallocation to tag "@;
            let rest = " at "@ + memory::alloc_id_chars(alloc_id, false)
                + " found in borrow stack"@;
            assert(all =~= a0 + tag.chars() + rest);
            assert(names(all, tag.chars(), a0, rest));
        },
    }
}

/// A violation is explained by the stack of a location exactly if it is for want of an item there,
/// and then by the one that was looked at.
pub proof fn law_wanting_items_are_explained(error: BorrowError)
    ensures
        error.place() is Some <==> error is Access || error is Grant,
        error matches BorrowError::Access { access, tag, site } ==> error.place() == Some(
            site.offset,
        ),
        error matches BorrowError::Grant { derived_from, new, site } ==> error.place() == Some(
            site.offset,
        ),
{
}

/// The operation was performed on the stack `s` and left `after`.
pub open spec fn performed_on(s: Seq<Item>, op: StackOp, after: Seq<Item>) -> bool {
    match op {
        StackOp::Access { access: AccessKind::Read, tag } => effects::was_read(s, tag, after),
        StackOp::Access { access: AccessKind::Write, tag } => effects::written(s, tag, after),
        StackOp::Dealloc { tag } => after.len() == 0,
        StackOp::Grant { derived_from, new } => effects::derived(s, derived_from, new, after),
    }
}

/// An operation on a range that fails was performed on every byte before the first one, `i`, at
/// which it is not possible. Behind that one nothing happened, but where the stacks are the same as
/// there.
pub proof fn law_failed_operation_stops(done: SweepDone)
    requires
        done.valid(),
        done.range.within(done.before.locations.len() as int),
        done.result is Err,
    ensures
        exists|i: int|
            {
                &&& effects::inside(done.range, i)
                &&& !#[trigger] possible(done.before.locations[i], done.op, done.global)
                &&& forall|k: int|
                    done.range.start <= k < i ==> performed_on(
                        done.before.locations[k],
                        done.op,
                        #[trigger] done.after.locations[k],
                    )
                &&& forall|k: int|
                    i < k < done.before.locations.len() && done.before.locations[k]
                        != done.before.locations[i] ==> #[trigger] done.after.locations[k]
                        == done.before.locations[k]
            },
{
    let sweep = done.sweep();
    let before = done.before.locations;
    let after = done.after.locations;
    let (cuts, n) = choose|cuts: Seq<Size>, n: int|
        {
            &&& #[trigger] sweep.performed(cuts, n, after, done.result)
            &&& done.after.notices == done.before.notices + sweep.notices(cuts, n)
            &&& done.after.history == done.before.history + sweep.history(cuts, n)
        };
    assert(sweep.performed(cuts, n, after, done.result));
    let i = cuts[n - 1];
    let first = cuts[0];
    let last = cuts[cuts.len() - 1];
    let end = cuts[n];
    assert(effects::inside(done.range, i as int));
    assert(sweep.outcome(i).result == done.result);
    lemma_possible(before[i as int], done.op, sweep.site(i), done.global);
    assert forall|k: int| done.range.start <= k < i implies performed_on(
        before[k],
        done.op,
        #[trigger] after[k],
    ) by {
        lemma_in_run(sweep, cuts, n - 1, k);
        let r = choose|r: int| 0 <= r < n - 1 && #[trigger] cuts[r] <= k && k < cuts[r + 1];
        assert(before[k] == before[cuts[r] as int]);
        assert(sweep.outcome(cuts[r]).result is Ok);
        lemma_possible(before[k], done.op, sweep.site(cuts[r]), done.global);
        lemma_performed_on(before[k], done.op, sweep.site(k as Size), done.global);
        assert(after[k] == sweep.outcome(k as Size).stack);
    }
    assert forall|k: int|
        i < k < before.len() && before[k] != before[i as int] implies #[trigger] after[k]
        == before[k] by {
        if k < end {
            assert(before[k] == before[cuts[n - 1] as int]);
        }
    }
}

/// An operation that is possible is performed.
proof fn lemma_performed_on(s: Seq<Item>, op: StackOp, site: AccessSite, global: GlobalStateInner)
    requires
        possible(s, op, global),
    ensures
        performed_on(s, op, stack::op_outcome(s, op, site, global).stack),
{
    match op {
        StackOp::Access { access: AccessKind::Read, tag } => {
            effects::law_read_effect(s, tag, site, global);
        },
        StackOp::Access { access: AccessKind::Write, tag } => {
            effects::law_write_effect(s, tag, site, global);
        },
        StackOp::Dealloc { tag } => {
            effects::law_free_effect(s, tag, site, global);
        },
        StackOp::Grant { derived_from, new } => {
            effects::law_derivation_effect(s, derived_from, new, site, global);
        },
    }
}

} // verus!
