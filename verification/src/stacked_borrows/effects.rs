//! What accesses, freeing and derivations do to the stack of a location, said of the items in it.
//! Nothing here refers to how the operations are carried out.
use vstd::prelude::*;

use crate::memory::AllocRange;
use crate::stacked_borrows::diagnostics::AccessSite;
use crate::stacked_borrows::global::GlobalStateInner;
use crate::stacked_borrows::item::{AccessKind, CallId, Item, Permission, SbTag};
use crate::stacked_borrows::stack;

verus! {

/// Reading needs any permission that is not disabled.
pub open spec fn may_read(perm: Permission) -> bool {
    perm == Permission::Unique || perm == Permission::SharedReadWrite || perm
        == Permission::TwoPhasedRW || perm == Permission::SharedReadOnly
}

/// Writing needs a permission that is neither read-only nor disabled.
pub open spec fn may_write(perm: Permission) -> bool {
    perm == Permission::Unique || perm == Permission::SharedReadWrite || perm
        == Permission::TwoPhasedRW
}

/// Some permissions allow writing through several pointers in turn.
pub open spec fn shares(perm: Permission) -> bool {
    perm == Permission::SharedReadWrite || perm == Permission::TwoPhasedRW
}

/// The item is protected by one of the calls.
pub open spec fn protected(item: Item, active: Set<CallId>) -> bool {
    item.protector matches Some(call) && active.contains(call)
}

/// The item at `g` is the highest with the tag that may be read through.
pub open spec fn grants_read(s: Seq<Item>, tag: SbTag, g: int) -> bool {
    &&& 0 <= g < s.len()
    &&& s[g].tag == tag
    &&& may_read(s[g].perm)
    &&& forall|j: int| g < j < s.len() ==> !((#[trigger] s[j]).tag == tag && may_read(s[j].perm))
}

/// The item at `g` is the highest with the tag that may be written through.
pub open spec fn grants_write(s: Seq<Item>, tag: SbTag, g: int) -> bool {
    &&& 0 <= g < s.len()
    &&& s[g].tag == tag
    &&& may_write(s[g].perm)
    &&& forall|j: int| g < j < s.len() ==> !((#[trigger] s[j]).tag == tag && may_write(s[j].perm))
}

/// The item at `j` can stay when there is a write through the item at `g`: it is not above that
/// one, or everything from that one up to it shares its right to write.
pub open spec fn stays(s: Seq<Item>, g: int, j: int) -> bool {
    j <= g || forall|k: int| g <= k <= j ==> shares((#[trigger] s[k]).perm)
}

/// The item once it was written through.
pub open spec fn used(item: Item) -> Item {
    if item.perm == Permission::TwoPhasedRW {
        Item { perm: Permission::SharedReadWrite, tag: item.tag, protector: item.protector }
    } else {
        item
    }
}

/// No item that a write through the item at `g` makes go is protected.
pub open spec fn write_harms_none(s: Seq<Item>, g: int, active: Set<CallId>) -> bool {
    forall|j: int| 0 <= j < s.len() && !stays(s, g, j) ==> !protected(#[trigger] s[j], active)
}

/// What a write through the item at `g` leaves: exactly the items that can stay, and those as they
/// are, but for the one that was written through.
pub open spec fn written_through(s: Seq<Item>, g: int, after: Seq<Item>) -> bool {
    &&& g < after.len() <= s.len()
    &&& forall|j: int| 0 <= j < s.len() ==> (j < after.len() <==> #[trigger] stays(s, g, j))
    &&& forall|j: int| 0 <= j < after.len() && j != g ==> #[trigger] after[j] == s[j]
    &&& after[g] == used(s[g])
}

/// A write with the tag succeeds.
pub open spec fn writable(s: Seq<Item>, tag: SbTag, active: Set<CallId>) -> bool {
    exists|g: int| #[trigger] grants_write(s, tag, g) && write_harms_none(s, g, active)
}

/// What a write with the tag leaves.
pub open spec fn written(s: Seq<Item>, tag: SbTag, after: Seq<Item>) -> bool {
    exists|g: int| #[trigger] grants_write(s, tag, g) && written_through(s, g, after)
}

/// The item at `j` loses something when there is a read through the item at `g`: a `Unique` above
/// that one does, and if that one does not share a right to write, so does a `SharedReadWrite`.
pub open spec fn loses(s: Seq<Item>, g: int, j: int) -> bool {
    g < j && (s[j].perm == Permission::Unique || (s[j].perm == Permission::SharedReadWrite && (
    s[g].perm == Permission::Unique || s[g].perm == Permission::SharedReadOnly)))
}

/// No item from which a read through the item at `g` takes something is protected.
pub open spec fn read_harms_none(s: Seq<Item>, g: int, active: Set<CallId>) -> bool {
    forall|j: int| 0 <= j < s.len() && loses(s, g, j) ==> !protected(#[trigger] s[j], active)
}

/// What a read through the item at `g` leaves: every item in its place, a `Unique` that loses
/// something disabled, and anything else that loses something read-only.
pub open spec fn read_through(s: Seq<Item>, g: int, after: Seq<Item>) -> bool {
    &&& after.len() == s.len()
    &&& forall|j: int|
        #![trigger after[j]]
        0 <= j < s.len() ==> {
            &&& after[j].tag == s[j].tag
            &&& after[j].protector == s[j].protector
            &&& !loses(s, g, j) ==> after[j].perm == s[j].perm
            &&& loses(s, g, j) && s[j].perm == Permission::Unique ==> after[j].perm
                == Permission::Disabled
            &&& loses(s, g, j) && s[j].perm != Permission::Unique ==> after[j].perm
                == Permission::SharedReadOnly
        }
}

/// A read with the tag succeeds.
pub open spec fn readable(s: Seq<Item>, tag: SbTag, active: Set<CallId>) -> bool {
    exists|g: int| #[trigger] grants_read(s, tag, g) && read_harms_none(s, g, active)
}

/// What a read with the tag leaves.
pub open spec fn was_read(s: Seq<Item>, tag: SbTag, after: Seq<Item>) -> bool {
    exists|g: int| #[trigger] grants_read(s, tag, g) && read_through(s, g, after)
}

/// The memory can be freed with the tag.
pub open spec fn freeable(s: Seq<Item>, tag: SbTag, active: Set<CallId>) -> bool {
    &&& exists|g: int| #[trigger] grants_write(s, tag, g)
    &&& forall|j: int| 0 <= j < s.len() ==> !protected(#[trigger] s[j], active)
}

/// The new item is on top of `mid`; it is not added if it is there already.
pub open spec fn topped(mid: Seq<Item>, new: Item, after: Seq<Item>) -> bool {
    &&& after.len() > 0
    &&& after.last() == new
    &&& after == mid || after == mid.push(new)
    &&& after == mid ==> mid.len() > 0 && mid.last() == new
}

/// The new item was put at `at`, above all that can stay when the item at `g` is written through;
/// it is not added if it is next to that place already. Nothing else changes.
pub open spec fn put_above(s: Seq<Item>, g: int, at: int, new: Item, after: Seq<Item>) -> bool {
    &&& g < at <= s.len()
    &&& forall|j: int| 0 <= j < s.len() ==> (j < at <==> #[trigger] stays(s, g, j))
    &&& if s[at - 1] == new || (at < s.len() && s[at] == new) {
        after == s
    } else {
        &&& after.len() == s.len() + 1
        &&& after[at] == new
        &&& forall|j: int| 0 <= j < at ==> #[trigger] after[j] == s[j]
        &&& forall|j: int| at < j < after.len() ==> #[trigger] after[j] == s[j - 1]
    }
}

/// A new item can be derived from the tag.
pub open spec fn derivable(s: Seq<Item>, from: SbTag, new: Item, active: Set<CallId>) -> bool {
    if shares(new.perm) {
        exists|g: int| #[trigger] grants_write(s, from, g)
    } else if new.perm == Permission::Unique {
        writable(s, from, active)
    } else {
        readable(s, from, active)
    }
}

/// What deriving a new item from the tag leaves: one that shares its right to write is put next to
/// what it is derived from; any other is an access, and on top afterwards.
pub open spec fn derived(s: Seq<Item>, from: SbTag, new: Item, after: Seq<Item>) -> bool {
    if shares(new.perm) {
        exists|g: int, at: int| #[trigger]
            grants_write(s, from, g) && #[trigger] put_above(s, g, at, new, after)
    } else if new.perm == Permission::Unique {
        exists|mid: Seq<Item>| #[trigger] written(s, from, mid) && topped(mid, new, after)
    } else {
        exists|mid: Seq<Item>| #[trigger] was_read(s, from, mid) && topped(mid, new, after)
    }
}

/// The offset is one of the `size` bytes from `start` on.
pub open spec fn inside(range: AllocRange, i: int) -> bool {
    range.start <= i && i < range.start + range.size
}

/// Nothing but the stacks of the range changed.
pub open spec fn only_inside(
    before: Seq<Seq<Item>>,
    after: Seq<Seq<Item>>,
    range: AllocRange,
) -> bool {
    &&& after.len() == before.len()
    &&& forall|i: int|
        0 <= i < before.len() && !inside(range, i) ==> #[trigger] after[i] == before[i]
}

/// Reading the range with the tag is a read of each of its bytes. It succeeds exactly if each of
/// them can be read.
pub open spec fn range_read(
    before: Seq<Seq<Item>>,
    after: Seq<Seq<Item>>,
    range: AllocRange,
    tag: SbTag,
    active: Set<CallId>,
    ok: bool,
) -> bool {
    &&& only_inside(before, after, range)
    &&& ok <==> forall|i: int|
        inside(range, i) ==> readable(#[trigger] before[i], tag, active)
    &&& ok ==> forall|i: int| inside(range, i) ==> was_read(before[i], tag, #[trigger] after[i])
}

/// Writing the range with the tag is a write of each of its bytes. It succeeds exactly if each of
/// them can be written.
pub open spec fn range_written(
    before: Seq<Seq<Item>>,
    after: Seq<Seq<Item>>,
    range: AllocRange,
    tag: SbTag,
    active: Set<CallId>,
    ok: bool,
) -> bool {
    &&& only_inside(before, after, range)
    &&& ok <==> forall|i: int|
        inside(range, i) ==> writable(#[trigger] before[i], tag, active)
    &&& ok ==> forall|i: int| inside(range, i) ==> written(before[i], tag, #[trigger] after[i])
}

/// Freeing the range with the tag succeeds exactly if each of its bytes can be freed, and then
/// leaves no item for any of them.
pub open spec fn range_freed(
    before: Seq<Seq<Item>>,
    after: Seq<Seq<Item>>,
    range: AllocRange,
    tag: SbTag,
    active: Set<CallId>,
    ok: bool,
) -> bool {
    &&& only_inside(before, after, range)
    &&& ok <==> forall|i: int|
        inside(range, i) ==> freeable(#[trigger] before[i], tag, active)
    &&& ok ==> forall|i: int| inside(range, i) ==> (#[trigger] after[i]).len() == 0
}

/// Deriving the item from the tag for the range is a derivation for each of its bytes. It succeeds
/// exactly if each of these can be made.
pub open spec fn range_derived(
    before: Seq<Seq<Item>>,
    after: Seq<Seq<Item>>,
    range: AllocRange,
    from: SbTag,
    new: Item,
    active: Set<CallId>,
    ok: bool,
) -> bool {
    &&& only_inside(before, after, range)
    &&& ok <==> forall|i: int|
        inside(range, i) ==> derivable(#[trigger] before[i], from, new, active)
    &&& ok ==> forall|i: int|
        inside(range, i) ==> derived(before[i], from, new, #[trigger] after[i])
}

/// There is at most one granting item.
pub proof fn lemma_one_granting(s: Seq<Item>, tag: SbTag, g: int, h: int)
    ensures
        grants_write(s, tag, g) && grants_write(s, tag, h) ==> g == h,
        grants_read(s, tag, g) && grants_read(s, tag, h) ==> g == h,
{
}

/// The granting item is the one that is found.
pub proof fn lemma_found(s: Seq<Item>, tag: SbTag)
    ensures
        match stack::granting(s, AccessKind::Write, tag) {
            Some(g) => grants_write(s, tag, g),
            None => forall|g: int| !#[trigger] grants_write(s, tag, g),
        },
        match stack::granting(s, AccessKind::Read, tag) {
            Some(g) => grants_read(s, tag, g),
            None => forall|g: int| !#[trigger] grants_read(s, tag, g),
        },
{
    stack::lemma_granting(s, AccessKind::Write, tag);
    stack::lemma_granting(s, AccessKind::Read, tag);
    assert forall|g: int| stack::granting(s, AccessKind::Write, tag) is None implies !#[trigger]
        grants_write(s, tag, g) by {
        if 0 <= g < s.len() {
            let item = s[g];
        }
    }
    assert forall|g: int| stack::granting(s, AccessKind::Read, tag) is None implies !#[trigger]
        grants_read(s, tag, g) by {
        if 0 <= g < s.len() {
            let item = s[g];
        }
    }
}

/// Among the items with a tag that may be written through, one is the highest.
pub proof fn law_some_writer_is_the_highest(s: Seq<Item>, tag: SbTag, j: int)
    requires
        0 <= j < s.len(),
        s[j].tag == tag,
        may_write(s[j].perm),
    ensures
        exists|g: int| #[trigger] grants_write(s, tag, g),
{
    lemma_found(s, tag);
    stack::lemma_granting(s, AccessKind::Write, tag);
}

/// Among the items with a tag that may be read through, one is the highest.
pub proof fn law_some_reader_is_the_highest(s: Seq<Item>, tag: SbTag, j: int)
    requires
        0 <= j < s.len(),
        s[j].tag == tag,
        may_read(s[j].perm),
    ensures
        exists|g: int| #[trigger] grants_read(s, tag, g),
{
    lemma_found(s, tag);
    stack::lemma_granting(s, AccessKind::Read, tag);
}

/// What can stay is what is below the first incompatible item, also once the item that is written
/// through was used.
pub proof fn lemma_stays(s: Seq<Item>, g: int)
    requires
        0 <= g < s.len(),
        may_write(s[g].perm),
    ensures
        g < stack::first_write_incompatible(s, g) <= s.len(),
        stack::first_write_incompatible(stack::activated(s, g), g)
            == stack::first_write_incompatible(s, g),
        forall|j: int|
            0 <= j < s.len() ==> (j < stack::first_write_incompatible(s, g) <==> #[trigger] stays(
                s,
                g,
                j,
            )),
{
    let s1 = stack::activated(s, g);
    stack::lemma_shared_run_end(s, g + 1);
    stack::lemma_shared_run_end(s1, g + 1);
    let end = stack::first_write_incompatible(s, g);
    let end1 = stack::first_write_incompatible(s1, g);
    assert(end == end1) by {
        if end < end1 && end < s.len() {
            assert(s1[end] == s[end]);
        }
        if end1 < end {
            assert(s1[end1] == s[end1]);
        }
    }
    assert forall|j: int| 0 <= j < s.len() implies (j < end <==> #[trigger] stays(s, g, j)) by {
        if j >= end {
            if s[g].perm == Permission::Unique {
                assert(!shares(s[g].perm));
            } else {
                assert(!shares(s[end].perm));
            }
        }
    }
}

/// A write succeeds exactly if it may, and leaves what it should.
pub proof fn law_write_effect(
    s: Seq<Item>,
    tag: SbTag,
    site: AccessSite,
    global: GlobalStateInner,
)
    ensures
        ({
            let outcome = stack::access_outcome(s, AccessKind::Write, tag, site, global);
            &&& outcome.result is Ok <==> writable(s, tag, global.active_calls@)
            &&& outcome.result is Ok ==> written(s, tag, outcome.stack)
        }),
{
    lemma_found(s, tag);
    if let Some(g) = stack::granting(s, AccessKind::Write, tag) {
        lemma_stays(s, g);
        let s1 = stack::activated(s, g);
        let bottom = stack::first_write_incompatible(s1, g);
        let p = |i: int| bottom <= i && global.protects(s1[i]);
        stack::lemma_last_where(p, s1.len() as int);
        let outcome = stack::access_outcome(s, AccessKind::Write, tag, site, global);
        assert(stack::pop_blocker(s1, bottom, global) == stack::last_where(p, s1.len() as int));
        if outcome.result is Ok {
            assert forall|j: int| 0 <= j < s.len() && !stays(s, g, j) implies !protected(
                #[trigger] s[j],
                global.active_calls@,
            ) by {
                assert(!p(j));
                assert(s1[j] == s[j]);
            }
            assert(write_harms_none(s, g, global.active_calls@));
            assert(written_through(s, g, outcome.stack));
        } else {
            let b = stack::pop_blocker(s1, bottom, global)->0;
            assert(p(b));
            assert(s1[b] == s[b]);
            assert(!stays(s, g, b));
            assert forall|h: int| #[trigger] grants_write(s, tag, h) implies !write_harms_none(
                s,
                h,
                global.active_calls@,
            ) by {
                lemma_one_granting(s, tag, g, h);
                assert(protected(s[b], global.active_calls@));
            }
        }
    }
}

/// A read succeeds exactly if it may, and leaves what it should.
pub proof fn law_read_effect(
    s: Seq<Item>,
    tag: SbTag,
    site: AccessSite,
    global: GlobalStateInner,
)
    ensures
        ({
            let outcome = stack::access_outcome(s, AccessKind::Read, tag, site, global);
            &&& outcome.result is Ok <==> readable(s, tag, global.active_calls@)
            &&& outcome.result is Ok ==> was_read(s, tag, outcome.stack)
        }),
{
    lemma_found(s, tag);
    if let Some(g) = stack::granting(s, AccessKind::Read, tag) {
        let p = |i: int| stack::demotable(s, g, i) && global.protects(s[i]);
        stack::lemma_last_where(p, s.len() as int);
        let outcome = stack::access_outcome(s, AccessKind::Read, tag, site, global);
        assert(stack::read_blocker(s, g, global) == stack::last_where(p, s.len() as int));
        if outcome.result is Ok {
            assert forall|j: int| 0 <= j < s.len() && loses(s, g, j) implies !protected(
                #[trigger] s[j],
                global.active_calls@,
            ) by {
                assert(!p(j));
            }
            assert(read_harms_none(s, g, global.active_calls@));
            assert(read_through(s, g, outcome.stack));
        } else {
            let b = stack::read_blocker(s, g, global)->0;
            assert(p(b));
            assert forall|h: int| #[trigger] grants_read(s, tag, h) implies !read_harms_none(
                s,
                h,
                global.active_calls@,
            ) by {
                lemma_one_granting(s, tag, g, h);
                assert(loses(s, g, b) && protected(s[b], global.active_calls@));
            }
        }
    }
}

/// Memory is freed exactly if it may be, and then nothing is left.
pub proof fn law_free_effect(
    s: Seq<Item>,
    tag: SbTag,
    site: AccessSite,
    global: GlobalStateInner,
)
    ensures
        ({
            let outcome = stack::dealloc_outcome(s, tag, site, global);
            &&& outcome.result is Ok <==> freeable(s, tag, global.active_calls@)
            &&& outcome.result is Ok ==> outcome.stack.len() == 0
        }),
{
    lemma_found(s, tag);
    let p = |i: int| 0 <= i && global.protects(s[i]);
    stack::lemma_last_where(p, s.len() as int);
    assert forall|j: int| 0 <= j < s.len() implies p(j) == protected(
        #[trigger] s[j],
        global.active_calls@,
    ) by {}
    assert(stack::pop_blocker(s, 0, global) == stack::last_where(p, s.len() as int));
}

/// An item is derived exactly if it can be, and then what should be is left.
pub proof fn law_derivation_effect(
    s: Seq<Item>,
    from: SbTag,
    new: Item,
    site: AccessSite,
    global: GlobalStateInner,
)
    ensures
        ({
            let outcome = stack::grant_outcome(s, from, new, site, global);
            &&& outcome.result is Ok <==> derivable(s, from, new, global.active_calls@)
            &&& outcome.result is Ok ==> derived(s, from, new, outcome.stack)
        }),
{
    lemma_found(s, from);
    let outcome = stack::grant_outcome(s, from, new, site, global);
    if shares(new.perm) {
        if let Some(g) = stack::granting(s, AccessKind::Write, from) {
            lemma_stays(s, g);
            let at = stack::first_write_incompatible(s, g);
            assert(put_above(s, g, at, new, outcome.stack));
        }
    } else {
        law_write_effect(s, from, site, global);
        law_read_effect(s, from, site, global);
        let access = stack::access_for(new.perm);
        let mid = stack::access_outcome(s, access, from, site, global).stack;
        if outcome.result is Ok {
            assert(mid.len() > 0);
            assert(outcome.stack == mid || outcome.stack =~= mid.push(new));
            assert(topped(mid, new, outcome.stack));
        }
    }
}

/// What a derivation leaves has the new item; if that does not share a right to write, it is on
/// top.
pub proof fn law_derivation_adds_its_item(s: Seq<Item>, from: SbTag, new: Item, after: Seq<Item>)
    requires
        derived(s, from, new, after),
    ensures
        exists|m: int| 0 <= m < after.len() && #[trigger] after[m] == new,
        !shares(new.perm) ==> after.len() > 0 && after.last() == new,
{
    if shares(new.perm) {
        let (g, at) = choose|g: int, at: int| #[trigger]
            grants_write(s, from, g) && #[trigger] put_above(
                s,
                g,
                at,
                new,
                after,
            );
        assert(put_above(s, g, at, new, after));
        if s[at - 1] == new {
            assert(after[at - 1] == new);
        } else {
            assert(after[at] == new);
        }
    } else if new.perm == Permission::Unique {
        let mid = choose|mid: Seq<Item>| #[trigger]
            written(s, from, mid) && topped(mid, new, after);
        assert(after[after.len() - 1] == new);
    } else {
        let mid = choose|mid: Seq<Item>| #[trigger]
            was_read(s, from, mid) && topped(mid, new, after);
        assert(after[after.len() - 1] == new);
    }
}

/// What a derivation leaves was there, or is the new item.
pub proof fn law_derivation_adds_nothing_else(s: Seq<Item>, from: SbTag, new: Item, after: Seq<Item>, m: int)
    requires
        derived(s, from, new, after),
        0 <= m < after.len(),
    ensures
        after[m] == new || exists|j: int|
            0 <= j < s.len() && (#[trigger] s[j]).tag == after[m].tag && s[j].protector
                == after[m].protector,
{
    if shares(new.perm) {
        let (g, at) = choose|g: int, at: int| #[trigger]
            grants_write(s, from, g) && #[trigger] put_above(
                s,
                g,
                at,
                new,
                after,
            );
        assert(put_above(s, g, at, new, after));
        if after == s || m < at {
            assert(s[m].tag == after[m].tag);
        } else if m > at {
            assert(s[m - 1].tag == after[m].tag);
        }
    } else {
        let mid = if new.perm == Permission::Unique {
            choose|mid: Seq<Item>| #[trigger]
                written(s, from, mid) && topped(mid, new, after)
        } else {
            choose|mid: Seq<Item>| #[trigger]
                was_read(s, from, mid) && topped(mid, new, after)
        };
        if m < mid.len() {
            assert(mid[m] == after[m]);
            if new.perm == Permission::Unique {
                let g = choose|g: int| #[trigger]
                    grants_write(s, from, g) && written_through(s, g, mid);
                assert(mid[m].tag == s[m].tag && mid[m].protector == s[m].protector);
            } else {
                let g = choose|g: int| #[trigger]
                    grants_read(s, from, g) && read_through(s, g, mid);
                assert(mid[m].tag == s[m].tag && mid[m].protector == s[m].protector);
            }
        }
    }
}

} // verus!
