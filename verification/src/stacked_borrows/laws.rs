//! What the operations on a borrow stack guarantee, whatever program performs them.
use vstd::prelude::*;

use crate::stacked_borrows::diagnostics::AccessSite;
use crate::stacked_borrows::global;
use crate::stacked_borrows::global::GlobalStateInner;
use crate::stacked_borrows::item::{AccessKind, Item, Permission, PtrId, SbTag};
use crate::stacked_borrows::stack;
use crate::stacked_borrows::stack::Outcome;

verus! {

/// Above a `SharedReadOnly` there are only more `SharedReadOnly`.
pub open spec fn read_only_on_top(s: Seq<Item>) -> bool {
    forall|i: int, j: int|
        #![trigger s[i], s[j]]
        0 <= i < j < s.len() && s[i].perm == Permission::SharedReadOnly ==> s[j].perm
            == Permission::SharedReadOnly
}

/// Except for `Untagged`, no tag occurs in the stack more than once.
pub open spec fn tags_unique(s: Seq<Item>) -> bool {
    forall|i: int, j: int|
        #![trigger s[i], s[j]]
        0 <= i < j < s.len() && s[i].tag == s[j].tag ==> s[i].tag == SbTag::Untagged
}

/// Every tag in the stack was handed out before the pointer ID `next`.
pub open spec fn tags_below(s: Seq<Item>, next: PtrId) -> bool {
    forall|i: int| 0 <= i < s.len() ==> global::tag_below((#[trigger] s[i]).tag, next)
}

/// The tag has no item in the stack.
pub open spec fn tag_absent(s: Seq<Item>, tag: SbTag) -> bool {
    forall|i: int| 0 <= i < s.len() ==> (#[trigger] s[i]).tag != tag
}

/// The item is in the stack, and there is no `SharedReadOnly` below it.
pub open spec fn above_no_read_only(s: Seq<Item>, item: Item) -> bool {
    exists|at: int|
        0 <= at < s.len() && #[trigger] s[at] == item && forall|i: int|
            0 <= i < at ==> (#[trigger] s[i]).perm != Permission::SharedReadOnly
}

/// The item at `i` is a `SharedReadOnly`, and there are only more `SharedReadOnly` above it.
pub open spec fn frozen_from(s: Seq<Item>, i: int) -> bool {
    0 <= i < s.len() && forall|j: int|
        i <= j < s.len() ==> (#[trigger] s[j]).perm == Permission::SharedReadOnly
}

/// The item is still there as it was, but for the end of a two-phase borrow's first phase.
pub open spec fn kept(item: Item, now: Item) -> bool {
    now == item || (item.perm == Permission::TwoPhasedRW && now == stack::with_perm(
        item,
        Permission::SharedReadWrite,
    ))
}

/// The item that was at `i` is still in the stack, where it was or one place higher.
pub open spec fn survives(s: Seq<Item>, i: int, after: Seq<Item>) -> bool {
    exists|k: int| i <= k <= i + 1 && k < after.len() && kept(s[i], #[trigger] after[k])
}

/// Whether a read through the item at `g` makes a `SharedReadWrite` above it read-only while an
/// item above that one stays, or becomes, something else than `SharedReadOnly`.
pub open spec fn splits_read_only(s: Seq<Item>, g: int) -> bool {
    s[g].perm == Permission::Unique && exists|i: int, j: int|
        #![trigger s[i], s[j]]
        g < i < j < s.len() && s[i].perm == Permission::SharedReadWrite && s[j].perm
            != Permission::SharedReadWrite && s[j].perm != Permission::SharedReadOnly
}

/// A successful access has a granting item in the stack, which keeps its place, and its
/// permission but for the end of a two-phase borrow's first phase.
proof fn lemma_access_shape(
    s: Seq<Item>,
    access: AccessKind,
    tag: SbTag,
    site: AccessSite,
    global: GlobalStateInner,
)
    ensures
        ({
            let outcome = stack::access_outcome(s, access, tag, site, global);
            &&& outcome.result is Ok ==> stack::granting(s, access, tag) is Some
            &&& stack::granting(s, access, tag) matches Some(g) ==> {
                &&& 0 <= g < outcome.stack.len() <= s.len()
                &&& s[g].tag == tag
                &&& s[g].perm.permits(access)
                &&& forall|j: int|
                    g < j < s.len() ==> !((#[trigger] s[j]).tag == tag && s[j].perm.permits(access))
                &&& access == AccessKind::Write ==> {
                    &&& outcome.stack =~= stack::activated(s, g).take(outcome.stack.len() as int)
                    &&& outcome.result is Ok ==> outcome.stack.len()
                        == stack::first_write_incompatible(stack::activated(s, g), g)
                    &&& outcome.result is Ok ==> forall|j: int|
                        g < j < outcome.stack.len() ==> (
                        #[trigger] outcome.stack[j]).perm.is_shared_write()
                    &&& outcome.result is Ok ==> forall|j: int|
                        outcome.stack.len() <= j < s.len() ==> !#[trigger] global.protects(s[j])
                }
                &&& access == AccessKind::Read ==> {
                    &&& outcome.stack.len() == s.len()
                    &&& outcome.result is Ok ==> outcome.stack == stack::demoted_from(s, g, g + 1)
                    &&& outcome.result is Ok ==> forall|j: int|
                        stack::demotable(s, g, j) && j < s.len() ==> !#[trigger] global.protects(
                            s[j],
                        )
                    &&& forall|j: int|
                        0 <= j < s.len() ==> (#[trigger] outcome.stack[j] == s[j] || (
                        stack::demotable(s, g, j) && outcome.stack[j] == stack::demoted(s[j])))
                }
            }
        }),
{
    stack::lemma_granting(s, access, tag);
    if let Some(g) = stack::granting(s, access, tag) {
        if access == AccessKind::Write {
            let s1 = stack::activated(s, g);
            stack::lemma_shared_run_end(s1, g + 1);
            let bottom = stack::first_write_incompatible(s1, g);
            let p = |i: int| bottom <= i && global.protects(s1[i]);
            stack::lemma_last_where(p, s1.len() as int);
            assert forall|j: int| bottom <= j < s.len() implies #[trigger] global.protects(s[j])
                == p(j) by {
                assert(s1[j] == s[j]);
            }
        } else {
            let p = |i: int| stack::demotable(s, g, i) && global.protects(s[i]);
            stack::lemma_last_where(p, s.len() as int);
            assert forall|j: int|
                stack::demotable(s, g, j) && 0 <= j < s.len() implies #[trigger] global.protects(
                s[j],
            ) == p(j) by {}
        }
    }
}

/// An operation that is refused for want of an item leaves the stack as it was.
pub proof fn lemma_refusals(
    s: Seq<Item>,
    access: AccessKind,
    tag: SbTag,
    new: Item,
    site: AccessSite,
    global: GlobalStateInner,
)
    ensures
        refused_here(stack::access_outcome(s, access, tag, site, global), s, site),
        refused_here(stack::dealloc_outcome(s, tag, site, global), s, site),
        refused_here(stack::grant_outcome(s, tag, new, site, global), s, site),
{
}

/// If the operation is refused for a reason that the stack explains, it is for the stack of the
/// site, which stays as it was.
pub open spec fn refused_here(outcome: Outcome, s: Seq<Item>, site: AccessSite) -> bool {
    outcome.result matches Err(error) ==> error.place() matches Some(offset) ==> offset
        == site.offset && outcome.stack == s
}

/// U1: After creating a `Unique`, it is at the top.
pub proof fn law_unique_is_created_on_top(
    s: Seq<Item>,
    derived_from: SbTag,
    new: Item,
    site: AccessSite,
    global: GlobalStateInner,
)
    requires
        new.perm == Permission::Unique,
        stack::grant_outcome(s, derived_from, new, site, global).result is Ok,
    ensures
        stack::grant_outcome(s, derived_from, new, site, global).stack.len() > 0,
        stack::grant_outcome(s, derived_from, new, site, global).stack.last() == new,
{
    lemma_access_shape(s, stack::access_for(new.perm), derived_from, site, global);
}

/// F1: After creating a `&`, the parts outside `UnsafeCell` have our `SharedReadOnly` on top.
pub proof fn law_read_only_is_created_on_top(
    s: Seq<Item>,
    derived_from: SbTag,
    new: Item,
    site: AccessSite,
    global: GlobalStateInner,
)
    requires
        new.perm == Permission::SharedReadOnly,
        stack::grant_outcome(s, derived_from, new, site, global).result is Ok,
    ensures
        stack::grant_outcome(s, derived_from, new, site, global).stack.len() > 0,
        stack::grant_outcome(s, derived_from, new, site, global).stack.last() == new,
{
    lemma_access_shape(s, stack::access_for(new.perm), derived_from, site, global);
}

/// U2: If the top is `Unique`, accesses must be through that `Unique` or remove it: a write with
/// another tag takes it off the stack, a read with another tag disables it.
pub proof fn law_unique_on_top_is_used_or_lost(
    s: Seq<Item>,
    access: AccessKind,
    tag: SbTag,
    site: AccessSite,
    global: GlobalStateInner,
)
    requires
        s.len() > 0,
        s.last().perm == Permission::Unique,
        s.last().tag != tag,
        stack::access_outcome(s, access, tag, site, global).result is Ok,
    ensures
        ({
            let after = stack::access_outcome(s, access, tag, site, global).stack;
            match access {
                AccessKind::Write => after.len() < s.len(),
                AccessKind::Read => after.len() == s.len() && after.last().perm
                    == Permission::Disabled,
            }
        }),
{
    lemma_access_shape(s, access, tag, site, global);
}

/// U3 and F3: An access requires an item with the tag, and with a permission for it, to be in the
/// stack.
pub proof fn law_access_needs_an_item(
    s: Seq<Item>,
    access: AccessKind,
    tag: SbTag,
    site: AccessSite,
    global: GlobalStateInner,
)
    requires
        forall|i: int|
            0 <= i < s.len() ==> !((#[trigger] s[i]).tag == tag && s[i].perm.permits(access)),
    ensures
        stack::access_outcome(s, access, tag, site, global).result is Err,
        stack::access_outcome(s, access, tag, site, global).stack == s,
{
    stack::lemma_granting(s, access, tag);
}

/// F2a: If a write happens granted by an item below our `SharedReadOnly`, the `SharedReadOnly`
/// gets popped. More: only items for shared mutable access stay above the granting one.
pub proof fn law_write_pops_read_only(
    s: Seq<Item>,
    tag: SbTag,
    site: AccessSite,
    global: GlobalStateInner,
)
    requires
        stack::access_outcome(s, AccessKind::Write, tag, site, global).result is Ok,
    ensures
        ({
            let after = stack::access_outcome(s, AccessKind::Write, tag, site, global).stack;
            stack::granting(s, AccessKind::Write, tag) matches Some(g) && forall|i: int|
                g < i < after.len() ==> (#[trigger] after[i]).perm.is_shared_write()
        }),
{
    lemma_access_shape(s, AccessKind::Write, tag, site, global);
}

/// F2: An access either pops our `SharedReadOnly`, if it is a write, or leaves it where it is with
/// only more `SharedReadOnly` above it, if it is a read. Whatever is below it in the stack does not
/// matter.
pub proof fn law_access_and_frozen(
    s: Seq<Item>,
    i: int,
    access: AccessKind,
    tag: SbTag,
    site: AccessSite,
    global: GlobalStateInner,
)
    requires
        frozen_from(s, i),
        stack::access_outcome(s, access, tag, site, global).result is Ok,
    ensures
        ({
            let after = stack::access_outcome(s, access, tag, site, global).stack;
            match access {
                AccessKind::Write => after.len() <= i,
                AccessKind::Read => frozen_from(after, i) && after[i] == s[i],
            }
        }),
{
    lemma_access_shape(s, access, tag, site, global);
    let after = stack::access_outcome(s, access, tag, site, global).stack;
    let g = stack::granting(s, access, tag)->0;
    match access {
        AccessKind::Write => {
            if after.len() > i {
                assert(g < i);
                assert(after[i] == stack::activated(s, g)[i]);
            }
        },
        AccessKind::Read => {
            assert forall|j: int| i <= j < after.len() implies #[trigger] after[j] == s[j] by {}
        },
    }
}

/// F2b: No `SharedReadWrite` or `Unique` is added on top of our `SharedReadOnly`. Deriving a
/// `Unique` pops it; after deriving anything else it has only more `SharedReadOnly` above it, and
/// is where it was, or one place higher because the new item went below it. Whatever else is below
/// it in the stack does not matter.
pub proof fn law_grant_and_frozen(
    s: Seq<Item>,
    i: int,
    derived_from: SbTag,
    new: Item,
    site: AccessSite,
    global: GlobalStateInner,
)
    requires
        frozen_from(s, i),
        new.perm != Permission::Disabled,
        stack::grant_outcome(s, derived_from, new, site, global).result is Ok,
    ensures
        ({
            let after = stack::grant_outcome(s, derived_from, new, site, global).stack;
            if new.perm == Permission::Unique {
                after.len() <= i + 1 && after.last() == new
            } else {
                (frozen_from(after, i) && after[i] == s[i]) || (frozen_from(after, i + 1)
                    && after[i + 1] == s[i])
            }
        }),
{
    let access = stack::access_for(new.perm);
    let after = stack::grant_outcome(s, derived_from, new, site, global).stack;
    stack::lemma_granting(s, access, derived_from);
    let g = stack::granting(s, access, derived_from)->0;
    if new.perm.is_shared_write() {
        stack::lemma_shared_run_end(s, g + 1);
        let at = stack::first_write_incompatible(s, g);
        assert(g < i);
        assert(at <= i) by {
            if at > i {
                assert(s[i].perm.is_shared_write());
            }
        }
        if after != s {
            assert forall|j: int| i + 1 <= j < after.len() implies #[trigger] after[j] == s[j
                - 1] by {}
        }
    } else {
        law_access_and_frozen(s, i, access, derived_from, site, global);
        lemma_access_shape(s, access, derived_from, site, global);
        let accessed = stack::access_outcome(s, access, derived_from, site, global).stack;
        if new.perm != Permission::Unique {
            assert(after == accessed || after =~= accessed.push(new));
        }
    }
}

/// In a stack whose `SharedReadOnly` are all at the top, no `SharedReadWrite` or `Unique` is added
/// on top of any of them.
pub proof fn law_no_writer_above_read_only(
    s: Seq<Item>,
    derived_from: SbTag,
    new: Item,
    site: AccessSite,
    global: GlobalStateInner,
)
    requires
        read_only_on_top(s),
        new.perm.permits(AccessKind::Write),
        stack::grant_outcome(s, derived_from, new, site, global).result is Ok,
    ensures
        above_no_read_only(
            stack::grant_outcome(s, derived_from, new, site, global).stack,
            new,
        ),
{
    assert(stack::access_for(new.perm) == AccessKind::Write);
    stack::lemma_granting(s, AccessKind::Write, derived_from);
    let g = stack::granting(s, AccessKind::Write, derived_from)->0;
    if new.perm.is_shared_write() {
        lemma_no_read_only_below_run(s, g);
        lemma_placed(s, stack::first_write_incompatible(s, g), new);
    } else {
        lemma_write_leaves_no_read_only(s, derived_from, site, global);
        let accessed = stack::access_outcome(
            s,
            AccessKind::Write,
            derived_from,
            site,
            global,
        ).stack;
        lemma_placed(accessed, accessed.len() as int, new);
    }
}

/// Below the place for an item derived from the one at `g` there is no `SharedReadOnly`.
proof fn lemma_no_read_only_below_run(s: Seq<Item>, g: int)
    requires
        read_only_on_top(s),
        0 <= g < s.len(),
        s[g].perm.permits(AccessKind::Write),
    ensures
        g < stack::first_write_incompatible(s, g) <= s.len(),
        forall|i: int|
            0 <= i < stack::first_write_incompatible(s, g) ==> (#[trigger] s[i]).perm
                != Permission::SharedReadOnly,
{
    stack::lemma_shared_run_end(s, g + 1);
    assert forall|i: int| 0 <= i < stack::first_write_incompatible(s, g) implies (
    #[trigger] s[i]).perm != Permission::SharedReadOnly by {
        let granting = s[g];
    }
}

/// An item that is put on top of items that are not `SharedReadOnly` is above none.
proof fn lemma_placed(s: Seq<Item>, place: int, new: Item)
    requires
        0 < place <= s.len(),
        forall|i: int| 0 <= i < place ==> (#[trigger] s[i]).perm != Permission::SharedReadOnly,
    ensures
        above_no_read_only(stack::placed(s, place, new), new),
{
    let after = stack::placed(s, place, new);
    let at = if s[place - 1] == new {
        place - 1
    } else {
        place
    };
    assert(after[at] == new);
    assert forall|i: int| 0 <= i < at implies (#[trigger] after[i]).perm
        != Permission::SharedReadOnly by {
        assert(after[i] == s[i]);
    }
}

/// A successful write leaves no `SharedReadOnly` behind, if they were all at the top.
proof fn lemma_write_leaves_no_read_only(
    s: Seq<Item>,
    tag: SbTag,
    site: AccessSite,
    global: GlobalStateInner,
)
    requires
        read_only_on_top(s),
        stack::access_outcome(s, AccessKind::Write, tag, site, global).result is Ok,
    ensures
        ({
            let after = stack::access_outcome(s, AccessKind::Write, tag, site, global).stack;
            after.len() > 0 && forall|i: int|
                0 <= i < after.len() ==> (#[trigger] after[i]).perm != Permission::SharedReadOnly
        }),
{
    lemma_access_shape(s, AccessKind::Write, tag, site, global);
    let after = stack::access_outcome(s, AccessKind::Write, tag, site, global).stack;
    let g = stack::granting(s, AccessKind::Write, tag)->0;
    assert forall|i: int| 0 <= i < after.len() implies (#[trigger] after[i]).perm
        != Permission::SharedReadOnly by {
        if i <= g {
            assert(after[i] == stack::activated(s, g)[i]);
            assert(s[g].perm != Permission::SharedReadOnly);
            assert(s[i].perm != Permission::SharedReadOnly);
        }
    }
}

/// A write, and deriving an item that may be written through, leave the `SharedReadOnly` at the
/// top of the stack.
pub proof fn law_writes_keep_read_only_on_top(
    s: Seq<Item>,
    tag: SbTag,
    new: Item,
    site: AccessSite,
    global: GlobalStateInner,
)
    requires
        read_only_on_top(s),
        new.perm.permits(AccessKind::Write),
    ensures
        read_only_on_top(stack::access_outcome(s, AccessKind::Write, tag, site, global).stack),
        read_only_on_top(stack::grant_outcome(s, tag, new, site, global).stack),
{
    lemma_access_shape(s, AccessKind::Write, tag, site, global);
    let accessed = stack::access_outcome(s, AccessKind::Write, tag, site, global).stack;
    let granted = stack::grant_outcome(s, tag, new, site, global).stack;
    if let Some(g) = stack::granting(s, AccessKind::Write, tag) {
        assert forall|i: int, j: int|
            #![trigger accessed[i], accessed[j]]
            0 <= i < j < accessed.len() && accessed[i].perm
                == Permission::SharedReadOnly implies accessed[j].perm
            == Permission::SharedReadOnly by {
            assert(accessed[i] == stack::activated(s, g)[i]);
            assert(accessed[j] == stack::activated(s, g)[j]);
            assert(s[i].perm == Permission::SharedReadOnly);
            assert(s[j].perm == Permission::SharedReadOnly);
        }
        if stack::grant_outcome(s, tag, new, site, global).result is Ok {
            law_no_writer_above_read_only(s, tag, new, site, global);
            if new.perm.is_shared_write() {
                stack::lemma_shared_run_end(s, g + 1);
                let at = stack::first_write_incompatible(s, g);
                assert(forall|i: int|
                    0 <= i < at ==> (#[trigger] s[i]).perm != Permission::SharedReadOnly) by {
                    assert(s[g].perm != Permission::SharedReadOnly);
                }
                assert forall|i: int, j: int|
                    #![trigger granted[i], granted[j]]
                    0 <= i < j < granted.len() && granted[i].perm
                        == Permission::SharedReadOnly implies granted[j].perm
                    == Permission::SharedReadOnly by {
                    if granted.len() > s.len() {
                        assert(granted == s.insert(at, new));
                        assert(i > at) by {
                            if i < at {
                                assert(granted[i] == s[i]);
                            }
                        }
                        assert(granted[i] == s[i - 1]);
                        assert(granted[j] == s[j - 1]);
                    }
                }
            } else {
                lemma_write_leaves_no_read_only(s, tag, site, global);
            }
        }
    }
}

/// A successful read keeps the `SharedReadOnly` at the top of the stack exactly if it does not
/// make an item read-only below one that is anything else.
pub proof fn law_read_keeps_read_only_on_top(
    s: Seq<Item>,
    tag: SbTag,
    site: AccessSite,
    global: GlobalStateInner,
)
    requires
        read_only_on_top(s),
        stack::access_outcome(s, AccessKind::Read, tag, site, global).result is Ok,
    ensures
        stack::granting(s, AccessKind::Read, tag) matches Some(g) && (read_only_on_top(
            stack::access_outcome(s, AccessKind::Read, tag, site, global).stack,
        ) <==> !splits_read_only(s, g)),
{
    lemma_access_shape(s, AccessKind::Read, tag, site, global);
    let after = stack::access_outcome(s, AccessKind::Read, tag, site, global).stack;
    let g = stack::granting(s, AccessKind::Read, tag)->0;
    if splits_read_only(s, g) {
        let (i, j) = choose|i: int, j: int|
            #![trigger s[i], s[j]]
            g < i < j < s.len() && s[i].perm == Permission::SharedReadWrite && s[j].perm
                != Permission::SharedReadWrite && s[j].perm != Permission::SharedReadOnly;
        assert(after[i].perm == Permission::SharedReadOnly);
        assert(after[j].perm != Permission::SharedReadOnly);
    } else {
        assert forall|i: int, j: int|
            #![trigger after[i], after[j]]
            0 <= i < j < after.len() && after[i].perm
                == Permission::SharedReadOnly implies after[j].perm
            == Permission::SharedReadOnly by {
            let a = s[i];
            let b = s[j];
        }
    }
}

/// Deriving a `SharedReadOnly` keeps the `SharedReadOnly` at the top of the stack exactly if the
/// read that it counts as does.
pub proof fn law_read_only_grant_keeps_read_only_on_top(
    s: Seq<Item>,
    derived_from: SbTag,
    new: Item,
    site: AccessSite,
    global: GlobalStateInner,
)
    requires
        read_only_on_top(s),
        new.perm == Permission::SharedReadOnly,
        stack::grant_outcome(s, derived_from, new, site, global).result is Ok,
    ensures
        stack::granting(s, AccessKind::Read, derived_from) matches Some(g) && (read_only_on_top(
            stack::grant_outcome(s, derived_from, new, site, global).stack,
        ) <==> !splits_read_only(s, g)),
{
    law_read_keeps_read_only_on_top(s, derived_from, site, global);
    lemma_access_shape(s, AccessKind::Read, derived_from, site, global);
    let accessed = stack::access_outcome(s, AccessKind::Read, derived_from, site, global).stack;
    let granted = stack::grant_outcome(s, derived_from, new, site, global).stack;
    assert(granted == accessed || granted =~= accessed.push(new));
    if granted != accessed {
        assert(forall|i: int| 0 <= i < accessed.len() ==> #[trigger] accessed[i] == granted[i]);
        if !read_only_on_top(accessed) {
            let (i, j) = choose|i: int, j: int|
                #![trigger accessed[i], accessed[j]]
                0 <= i < j < accessed.len() && accessed[i].perm == Permission::SharedReadOnly
                    && accessed[j].perm != Permission::SharedReadOnly;
            assert(granted[i].perm == Permission::SharedReadOnly && granted[j].perm
                != Permission::SharedReadOnly);
        }
    }
}

/// Accessing and freeing memory never make a tag occur twice, nor does deriving an item whose
/// tag is `Untagged` or not in the stack.
pub proof fn law_tags_stay_unique(
    s: Seq<Item>,
    access: AccessKind,
    tag: SbTag,
    new: Item,
    site: AccessSite,
    global: GlobalStateInner,
)
    requires
        tags_unique(s),
        new.tag == SbTag::Untagged || tag_absent(s, new.tag),
    ensures
        tags_unique(stack::access_outcome(s, access, tag, site, global).stack),
        tags_unique(stack::dealloc_outcome(s, tag, site, global).stack),
        tags_unique(stack::grant_outcome(s, tag, new, site, global).stack),
{
    lemma_access_tags(s, access, tag, site, global);
    let accessed = stack::access_outcome(s, access, tag, site, global).stack;
    lemma_unique_tags_but_one(s, accessed, accessed.len() as int, new);
    lemma_dealloc_tags(s, tag, site, global);
    let freed = stack::dealloc_outcome(s, tag, site, global).stack;
    lemma_unique_tags_but_one(s, freed, freed.len() as int, new);
    let granted = stack::grant_outcome(s, tag, new, site, global).stack;
    let at = lemma_granted_tags(s, tag, new, site, global);
    lemma_unique_tags_but_one(s, granted, at, new);
}

/// If the tags of `s` are unique, so are those of a stack that has at most one item more, at
/// `at`, with a tag that `s` does not have.
proof fn lemma_unique_tags_but_one(s: Seq<Item>, after: Seq<Item>, at: int, new: Item)
    requires
        tags_unique(s),
        new.tag == SbTag::Untagged || tag_absent(s, new.tag),
        0 <= at <= after.len() <= s.len() + 1,
        at < after.len() ==> after[at] == new,
        forall|i: int| 0 <= i < at ==> i < s.len() && (#[trigger] after[i]).tag == s[i].tag,
        forall|i: int|
            at < i < after.len() ==> i <= s.len() && (#[trigger] after[i]).tag == s[i - 1].tag,
    ensures
        tags_unique(after),
{
    assert forall|i: int, j: int|
        #![trigger after[i], after[j]]
        0 <= i < j < after.len() && after[i].tag == after[j].tag implies after[i].tag
        == SbTag::Untagged by {
        let a = if i < at {
            s[i]
        } else {
            s[i - 1]
        };
        let b = if j < at {
            s[j]
        } else {
            s[j - 1]
        };
        assert(i != at ==> a.tag == after[i].tag);
        assert(j != at ==> b.tag == after[j].tag);
    }
}

/// Freeing memory leaves the items that stay as they are.
proof fn lemma_dealloc_tags(s: Seq<Item>, tag: SbTag, site: AccessSite, global: GlobalStateInner)
    ensures
        ({
            let after = stack::dealloc_outcome(s, tag, site, global).stack;
            after.len() <= s.len() && forall|i: int|
                0 <= i < after.len() ==> #[trigger] after[i] == s[i]
        }),
{
    let p = |i: int| 0 <= i && global.protects(s[i]);
    stack::lemma_last_where(p, s.len() as int);
}

/// An access leaves the tags and the protectors of the items that stay as they are.
proof fn lemma_access_tags(
    s: Seq<Item>,
    access: AccessKind,
    tag: SbTag,
    site: AccessSite,
    global: GlobalStateInner,
)
    ensures
        ({
            let after = stack::access_outcome(s, access, tag, site, global).stack;
            &&& after.len() <= s.len()
            &&& forall|i: int|
                0 <= i < after.len() ==> (#[trigger] after[i]).tag == s[i].tag
                    && after[i].protector == s[i].protector
        }),
{
    lemma_access_shape(s, access, tag, site, global);
    let after = stack::access_outcome(s, access, tag, site, global).stack;
    if let Some(g) = stack::granting(s, access, tag) {
        if access == AccessKind::Write {
            assert(forall|i: int|
                0 <= i < after.len() ==> #[trigger] after[i] == stack::activated(s, g)[i]);
        }
    }
}

/// A derivation adds at most the new item; at which place, it says. Beyond the end, nothing was
/// added.
proof fn lemma_granted_tags(
    s: Seq<Item>,
    derived_from: SbTag,
    new: Item,
    site: AccessSite,
    global: GlobalStateInner,
) -> (at: int)
    ensures
        ({
            let after = stack::grant_outcome(s, derived_from, new, site, global).stack;
            &&& 0 <= at <= after.len() <= s.len() + 1
            &&& at < after.len() ==> after[at] == new
            &&& forall|i: int|
                0 <= i < at ==> i < s.len() && (#[trigger] after[i]).tag == s[i].tag
            &&& forall|i: int|
                at < i < after.len() ==> i <= s.len() && (#[trigger] after[i]).tag == s[i - 1].tag
        }),
{
    let access = stack::access_for(new.perm);
    lemma_access_shape(s, access, derived_from, site, global);
    lemma_access_tags(s, access, derived_from, site, global);
    let after = stack::grant_outcome(s, derived_from, new, site, global).stack;
    match stack::granting(s, access, derived_from) {
        None => after.len() as int,
        Some(g) => {
            stack::lemma_shared_run_end(s, g + 1);
            if new.perm.is_shared_write() {
                let place = stack::first_write_incompatible(s, g);
                if after == s {
                    after.len() as int
                } else {
                    place
                }
            } else {
                let accessed = stack::access_outcome(s, access, derived_from, site, global);
                if accessed.result is Err || after == accessed.stack {
                    after.len() as int
                } else {
                    assert(after == accessed.stack.insert(accessed.stack.len() as int, new));
                    accessed.stack.len() as int
                }
            }
        },
    }
}

/// Tags that were handed out stay tags that were handed out: no operation brings another tag into
/// a stack than that of the item it adds.
pub proof fn law_tags_stay_below(
    s: Seq<Item>,
    access: AccessKind,
    tag: SbTag,
    new: Item,
    site: AccessSite,
    global: GlobalStateInner,
    next: PtrId,
)
    requires
        tags_below(s, next),
        global::tag_below(new.tag, next),
    ensures
        tags_below(stack::access_outcome(s, access, tag, site, global).stack, next),
        tags_below(stack::dealloc_outcome(s, tag, site, global).stack, next),
        tags_below(stack::grant_outcome(s, tag, new, site, global).stack, next),
{
    lemma_access_tags(s, access, tag, site, global);
    let accessed = stack::access_outcome(s, access, tag, site, global).stack;
    assert forall|i: int| 0 <= i < accessed.len() implies global::tag_below(
        (#[trigger] accessed[i]).tag,
        next,
    ) by {
        let a = s[i];
    }
    lemma_dealloc_tags(s, tag, site, global);
    let granted = stack::grant_outcome(s, tag, new, site, global).stack;
    let at = lemma_granted_tags(s, tag, new, site, global);
    assert forall|i: int| 0 <= i < granted.len() implies global::tag_below(
        (#[trigger] granted[i]).tag,
        next,
    ) by {
        let a = if i < at {
            s[i]
        } else {
            s[i - 1]
        };
    }
}

/// A tag that is handed out next has no item in a stack whose tags were handed out before.
pub proof fn law_fresh_tag_is_absent(s: Seq<Item>, next: PtrId)
    requires
        tags_below(s, next),
    ensures
        tag_absent(s, SbTag::Tagged(next)),
{
    assert forall|i: int| 0 <= i < s.len() implies (#[trigger] s[i]).tag != SbTag::Tagged(
        next,
    ) by {
        assert(global::tag_below(s[i].tag, next));
    }
}

/// An item cannot get popped, nor lose its permission, while the call that protects it is
/// running.
pub proof fn law_protected_items_stay(
    s: Seq<Item>,
    access: AccessKind,
    tag: SbTag,
    site: AccessSite,
    global: GlobalStateInner,
    i: int,
)
    requires
        0 <= i < s.len(),
        global.protects(s[i]),
        stack::access_outcome(s, access, tag, site, global).result is Ok,
    ensures
        ({
            let after = stack::access_outcome(s, access, tag, site, global).stack;
            i < after.len() && kept(s[i], after[i])
        }),
{
    lemma_access_shape(s, access, tag, site, global);
    let after = stack::access_outcome(s, access, tag, site, global).stack;
    if access == AccessKind::Write {
        let g = stack::granting(s, access, tag)->0;
        assert(i < after.len());
        assert(after[i] == stack::activated(s, g)[i]);
    }
}

/// Nor can an item get popped or lose its permission because a pointer is derived, while the call
/// that protects it is running. At most it moves up by the new item.
pub proof fn law_protected_items_stay_when_deriving(
    s: Seq<Item>,
    derived_from: SbTag,
    new: Item,
    site: AccessSite,
    global: GlobalStateInner,
    i: int,
)
    requires
        0 <= i < s.len(),
        global.protects(s[i]),
        stack::grant_outcome(s, derived_from, new, site, global).result is Ok,
    ensures
        survives(s, i, stack::grant_outcome(s, derived_from, new, site, global).stack),
{
    let access = stack::access_for(new.perm);
    let after = stack::grant_outcome(s, derived_from, new, site, global).stack;
    stack::lemma_granting(s, access, derived_from);
    let g = stack::granting(s, access, derived_from)->0;
    if new.perm.is_shared_write() {
        stack::lemma_shared_run_end(s, g + 1);
        let at = stack::first_write_incompatible(s, g);
        let k = if after == s || i < at {
            i
        } else {
            i + 1
        };
        assert(kept(s[i], after[k]));
    } else {
        law_protected_items_stay(s, access, derived_from, site, global, i);
        let accessed = stack::access_outcome(s, access, derived_from, site, global).stack;
        assert(after[i] == accessed[i]);
        assert(kept(s[i], after[i]));
    }
}

/// Memory can be freed exactly with a tag that may write to it and while no item is protected.
/// Then no item is left.
pub proof fn law_dealloc_needs_no_protectors(
    s: Seq<Item>,
    tag: SbTag,
    site: AccessSite,
    global: GlobalStateInner,
)
    ensures
        stack::dealloc_outcome(s, tag, site, global).result is Ok <==> (exists|i: int|
            0 <= i < s.len() && (#[trigger] s[i]).tag == tag && s[i].perm.permits(
                AccessKind::Write,
            )) && (forall|i: int| 0 <= i < s.len() ==> !global.protects(#[trigger] s[i])),
        stack::dealloc_outcome(s, tag, site, global).result is Ok ==> stack::dealloc_outcome(
            s,
            tag,
            site,
            global,
        ).stack.len() == 0,
{
    stack::lemma_granting(s, AccessKind::Write, tag);
    let p = |i: int| 0 <= i && global.protects(s[i]);
    stack::lemma_last_where(p, s.len() as int);
    assert forall|i: int| 0 <= i < s.len() implies global.protects(#[trigger] s[i]) == p(i) by {}
}

/// Reading removes nothing: every item keeps its place, its tag and its protector.
pub proof fn law_read_removes_nothing(
    s: Seq<Item>,
    tag: SbTag,
    site: AccessSite,
    global: GlobalStateInner,
)
    ensures
        ({
            let after = stack::access_outcome(s, AccessKind::Read, tag, site, global).stack;
            &&& after.len() == s.len()
            &&& forall|i: int|
                0 <= i < s.len() ==> (#[trigger] after[i]).tag == s[i].tag && after[i].protector
                    == s[i].protector
        }),
{
    lemma_access_shape(s, AccessKind::Read, tag, site, global);
    lemma_access_tags(s, AccessKind::Read, tag, site, global);
}

/// No access lets an item permit anything that it did not permit before.
pub proof fn law_access_gives_no_rights(
    s: Seq<Item>,
    access: AccessKind,
    tag: SbTag,
    site: AccessSite,
    global: GlobalStateInner,
    i: int,
    wanted: AccessKind,
)
    requires
        0 <= i < stack::access_outcome(s, access, tag, site, global).stack.len(),
        stack::access_outcome(s, access, tag, site, global).stack[i].perm.permits(wanted),
    ensures
        i < s.len(),
        s[i].perm.permits(wanted),
{
    lemma_access_shape(s, access, tag, site, global);
    let after = stack::access_outcome(s, access, tag, site, global).stack;
    if let Some(g) = stack::granting(s, access, tag) {
        if access == AccessKind::Write {
            assert(after[i] == stack::activated(s, g)[i]);
        }
    }
}

/// A stack that is not empty stays so, whatever is accessed or derived, and however that ends.
pub proof fn law_stack_stays_non_empty(
    s: Seq<Item>,
    access: AccessKind,
    tag: SbTag,
    new: Item,
    site: AccessSite,
    global: GlobalStateInner,
)
    requires
        s.len() > 0,
    ensures
        stack::access_outcome(s, access, tag, site, global).stack.len() > 0,
        stack::grant_outcome(s, tag, new, site, global).stack.len() > 0,
{
    lemma_access_shape(s, access, tag, site, global);
    lemma_access_shape(s, stack::access_for(new.perm), tag, site, global);
    if let Some(g) = stack::granting(s, stack::access_for(new.perm), tag) {
        stack::lemma_shared_run_end(s, g + 1);
    }
}

/// After a successful access the same access succeeds again, and changes nothing.
pub proof fn law_access_can_be_repeated(
    s: Seq<Item>,
    access: AccessKind,
    tag: SbTag,
    site: AccessSite,
    global: GlobalStateInner,
)
    requires
        stack::access_outcome(s, access, tag, site, global).result is Ok,
    ensures
        ({
            let after = stack::access_outcome(s, access, tag, site, global).stack;
            let again = stack::access_outcome(after, access, tag, site, global);
            again.result is Ok && again.stack == after
        }),
{
    lemma_access_shape(s, access, tag, site, global);
    let after = stack::access_outcome(s, access, tag, site, global).stack;
    let again = stack::access_outcome(after, access, tag, site, global);
    let g = stack::granting(s, access, tag)->0;
    lemma_access_shape(after, access, tag, site, global);
    stack::lemma_granting(after, access, tag);
    if access == AccessKind::Write {
        let s1 = stack::activated(s, g);
        assert(forall|i: int| 0 <= i < after.len() ==> #[trigger] after[i] == s1[i]);
        assert(stack::granting(after, access, tag) == Some(g)) by {
            assert(after[g].tag == tag && after[g].perm.permits(access));
            assert forall|j: int| g < j < after.len() implies !((#[trigger] after[j]).tag == tag
                && after[j].perm.permits(access)) by {
                assert(after[j] == s[j]);
            }
        }
        assert(stack::activated(after, g) == after);
        stack::lemma_shared_run_end(after, g + 1);
        stack::lemma_shared_run_end(s1, g + 1);
        assert(stack::first_write_incompatible(after, g) == after.len()) by {
            if after[g].perm != Permission::Unique {
                let e = stack::shared_run_end(after, g + 1);
                if e < after.len() {
                    assert(after[e].perm.is_shared_write());
                }
            }
        }
        let p = |i: int| after.len() <= i && global.protects(after[i]);
        stack::lemma_last_where(p, after.len() as int);
        assert(again.stack =~= after);
    } else {
        assert(stack::granting(after, access, tag) == Some(g)) by {
            assert(after[g] == s[g]);
            assert forall|j: int| g < j < after.len() implies !((#[trigger] after[j]).tag == tag
                && after[j].perm.permits(access)) by {
                let b = s[j];
            }
        }
        assert forall|j: int| 0 <= j < after.len() implies !#[trigger] stack::demotable(
            after,
            g,
            j,
        ) by {
            let b = s[j];
            let c = after[j];
        }
        let p = |i: int| stack::demotable(after, g, i) && global.protects(after[i]);
        stack::lemma_last_where(p, after.len() as int);
        assert(again.stack =~= after);
    }
}

/// After writing through a `Unique`, it is at the top.
pub proof fn law_written_unique_is_on_top(
    s: Seq<Item>,
    tag: SbTag,
    site: AccessSite,
    global: GlobalStateInner,
)
    requires
        stack::access_outcome(s, AccessKind::Write, tag, site, global).result is Ok,
        stack::granting(s, AccessKind::Write, tag) matches Some(g) && s[g].perm
            == Permission::Unique,
    ensures
        ({
            let after = stack::access_outcome(s, AccessKind::Write, tag, site, global).stack;
            after.len() > 0 && after.last().tag == tag && after.last().perm == Permission::Unique
        }),
{
    lemma_access_shape(s, AccessKind::Write, tag, site, global);
}

/// Between the item that a `SharedReadWrite` is derived from and the new item there are only
/// items for shared mutable access, and none at all if it is derived from a `Unique`. Nothing
/// else is moved or changed.
pub proof fn law_shared_grant_is_next_to_its_parent(
    s: Seq<Item>,
    derived_from: SbTag,
    new: Item,
    site: AccessSite,
    global: GlobalStateInner,
)
    requires
        new.perm.is_shared_write(),
        stack::grant_outcome(s, derived_from, new, site, global).result is Ok,
    ensures
        ({
            let after = stack::grant_outcome(s, derived_from, new, site, global).stack;
            stack::granting(s, AccessKind::Write, derived_from) matches Some(g) && exists|at: int|
                {
                    &&& g < at <= s.len()
                    &&& after == #[trigger] s.insert(at, new) || (after == s && (s[at - 1] == new
                        || (at < s.len() && s[at] == new)))
                    &&& s[g].perm == Permission::Unique ==> at == g + 1
                    &&& forall|i: int| g < i < at ==> (#[trigger] s[i]).perm.is_shared_write()
                }
        }),
{
    stack::lemma_granting(s, AccessKind::Write, derived_from);
    let g = stack::granting(s, AccessKind::Write, derived_from)->0;
    stack::lemma_shared_run_end(s, g + 1);
    let at = stack::first_write_incompatible(s, g);
    let inserted = s.insert(at, new);
}

} // verus!
