//! What the operations on a whole allocation guarantee.
use vstd::prelude::*;

use crate::memory::{AllocId, AllocRange, Size};
use crate::stacked_borrows::diagnostics::{AccessSite, BorrowError};
use crate::stacked_borrows::effects;
use crate::stacked_borrows::global;
use crate::stacked_borrows::global::GlobalStateInner;
use crate::stacked_borrows::item::{AccessKind, Item, Permission, PtrId, SbTag};
use crate::stacked_borrows::laws;
use crate::stacked_borrows::stack;
use crate::stacked_borrows::stack::{Outcome, StackOp};
use crate::stacked_borrows::stacks;
use crate::stacked_borrows::stacks::{Stacks, Sweep, Track};

verus! {

/// An operation performed on every location of a range, with what it was performed on, what came
/// out, and how it ended.
pub struct SweepDone {
    pub op: StackOp,
    pub alloc_id: AllocId,
    pub range: AllocRange,
    pub global: GlobalStateInner,
    pub before: Track,
    pub after: Track,
    pub result: Result<(), BorrowError>,
}

impl SweepDone {
    /// Whether this can have happened.
    pub open spec fn valid(self) -> bool {
        &&& self.before.locations.len() <= u64::MAX
        &&& stacks::swept(
            self.op,
            self.alloc_id,
            self.range,
            self.global,
            self.before,
            self.after,
            self.result,
        )
    }

    pub open spec fn sweep(self) -> Sweep {
        Sweep {
            before: self.before.locations,
            op: self.op,
            alloc_id: self.alloc_id,
            range: self.range,
            global: self.global,
        }
    }

    /// A location of the range has what the operation makes of its stack, or, behind one where it
    /// failed, what it had. A location outside of the range has what it had.
    proof fn lemma_location(self, i: int)
        requires
            self.valid(),
            0 <= i < self.before.locations.len(),
        ensures
            self.after.locations.len() == self.before.locations.len(),
            self.after.locations[i] == self.before.locations[i] || (self.range.covers(i)
                && self.after.locations[i] == self.sweep().outcome(i as Size).stack),
    {
        let sweep = self.sweep();
        let (cuts, done) = choose|cuts: Seq<Size>, done: int|
            {
                &&& #[trigger] sweep.performed(cuts, done, self.after.locations, self.result)
                &&& self.after.notices == self.before.notices + sweep.notices(cuts, done)
                &&& self.after.history == self.before.history + sweep.history(cuts, done)
            };
        assert(sweep.performed(cuts, done, self.after.locations, self.result));
        let end = cuts[cuts.len() - 1];
        assert(cuts[done] <= end);
    }
}

/// The kind of access, the tag and the new item of an operation. What it does not have is filled
/// up with an access or an item that brings no tag along.
spec fn ingredients(op: StackOp) -> (AccessKind, SbTag, Item) {
    let nothing = Item { perm: Permission::Unique, tag: SbTag::Untagged, protector: None };
    match op {
        StackOp::Access { access, tag } => (access, tag, nothing),
        StackOp::Dealloc { tag } => (AccessKind::Write, tag, nothing),
        StackOp::Grant { derived_from, new } => (AccessKind::Write, derived_from, new),
    }
}

/// What holds of the stacks of memory that is allocated: they are never empty, except for
/// `Untagged` no tag occurs in a stack more than once, and every tag was handed out before the
/// pointer ID `next`.
pub open spec fn sound(locations: Seq<Seq<Item>>, next: PtrId) -> bool {
    forall|i: int|
        0 <= i < locations.len() ==> sound_stack(#[trigger] locations[i], next)
}

/// What holds of the stack of a location that is allocated.
pub open spec fn sound_stack(s: Seq<Item>, next: PtrId) -> bool {
    &&& s.len() > 0
    &&& laws::tags_unique(s)
    &&& laws::tags_below(s, next)
}

/// The stacks of a new allocation are sound.
pub proof fn law_new_allocation_is_sound(
    new: Stacks,
    size: Size,
    perm: Permission,
    tag: SbTag,
    next: PtrId,
)
    requires
        new.fresh(size, perm, tag),
        global::tag_below(tag, next),
    ensures
        sound(new.locations(), next),
{
    assert forall|i: int| 0 <= i < new.locations().len() implies sound_stack(
        #[trigger] new.locations()[i],
        next,
    ) by {}
}

/// Sound stacks stay so when more pointer IDs are handed out.
pub proof fn law_sound_stacks_stay_so(locations: Seq<Seq<Item>>, next: PtrId, later: PtrId)
    requires
        sound(locations, next),
        next <= later,
    ensures
        sound(locations, later),
{
    assert forall|i: int| 0 <= i < locations.len() implies sound_stack(
        #[trigger] locations[i],
        later,
    ) by {
        let s = locations[i];
        assert(sound_stack(s, next));
        assert forall|j: int| 0 <= j < s.len() implies global::tag_below(
            (#[trigger] s[j]).tag,
            later,
        ) by {}
    }
}

/// Accessing memory keeps its stacks sound, and so does deriving a pointer that is `Untagged`, or
/// whose tag is nowhere in the range.
pub proof fn law_stacks_stay_sound(done: SweepDone, next: PtrId)
    requires
        done.valid(),
        sound(done.before.locations, next),
        !(done.op is Dealloc),
        done.op matches StackOp::Grant { derived_from, new } ==> {
            &&& global::tag_below(new.tag, next)
            &&& new.tag == SbTag::Untagged || forall|i: int|
                done.range.covers(i) && i < done.before.locations.len() ==> laws::tag_absent(
                    #[trigger] done.before.locations[i],
                    new.tag,
                )
        },
    ensures
        sound(done.after.locations, next),
{
    assert forall|i: int| 0 <= i < done.after.locations.len() implies sound_stack(
        #[trigger] done.after.locations[i],
        next,
    ) by {
        done.lemma_location(i);
        let s = done.before.locations[i];
        assert(sound_stack(s, next));
        if done.range.covers(i) {
            let site = done.sweep().site(i as Size);
            let global = done.global;
            let (access, tag, new) = ingredients(done.op);
            laws::law_tags_stay_unique(s, access, tag, new, site, global);
            laws::law_tags_stay_below(s, access, tag, new, site, global, next);
            laws::law_stack_stays_non_empty(s, access, tag, new, site, global);
        }
    }
}

/// An operation leaves the locations outside of its range alone, however it ends.
pub proof fn law_sweep_stays_in_its_range(done: SweepDone, i: int)
    requires
        done.valid(),
        0 <= i < done.before.locations.len(),
        !done.range.covers(i),
    ensures
        i < done.after.locations.len(),
        done.after.locations[i] == done.before.locations[i],
{
    done.lemma_location(i);
}

/// An operation succeeds exactly if it does at every location of its range.
pub proof fn law_sweep_succeeds_everywhere(done: SweepDone)
    requires
        done.valid(),
    ensures
        done.result is Ok <==> forall|i: Size|
            done.range.covers(i as int) ==> stack::op_outcome(
                #[trigger] done.before.locations[i as int],
                done.op,
                done.sweep().site(i),
                done.global,
            ).result is Ok,
{
    let sweep = done.sweep();
    if sweep.permitted() {
        assert forall|i: Size| done.range.covers(i as int) implies stack::op_outcome(
            #[trigger] done.before.locations[i as int],
            done.op,
            sweep.site(i),
            done.global,
        ).result is Ok by {
            assert(sweep.outcome(i).result is Ok);
        }
    }
    if !sweep.permitted() {
        let i = choose|i: Size|
            sweep.range.covers(i as int) && i < sweep.range.end() && (
            #[trigger] sweep.outcome(i)).result is Err;
        let s = done.before.locations[i as int];
    }
}

/// Accessing and freeing memory never make a tag occur twice in the stack of a location, nor does
/// deriving a pointer whose tag is `Untagged` or nowhere in the range.
pub proof fn law_tags_stay_unique_everywhere(done: SweepDone)
    requires
        done.valid(),
        forall|i: int|
            0 <= i < done.before.locations.len() ==> laws::tags_unique(
                #[trigger] done.before.locations[i],
            ),
        done.op matches StackOp::Grant { derived_from, new } ==> new.tag == SbTag::Untagged
            || forall|i: int|
            done.range.covers(i) && i < done.before.locations.len() ==> laws::tag_absent(
                #[trigger] done.before.locations[i],
                new.tag,
            ),
    ensures
        forall|i: int|
            0 <= i < done.after.locations.len() ==> laws::tags_unique(
                #[trigger] done.after.locations[i],
            ),
{
    assert forall|i: int| 0 <= i < done.after.locations.len() implies laws::tags_unique(
        #[trigger] done.after.locations[i],
    ) by {
        done.lemma_location(i);
        let s = done.before.locations[i];
        let site = done.sweep().site(i as Size);
        if done.range.covers(i) {
            let (access, tag, new) = ingredients(done.op);
            laws::law_tags_stay_unique(s, access, tag, new, site, done.global);
        }
    }
}

/// Tags that were handed out stay tags that were handed out, at every location.
pub proof fn law_tags_stay_below_everywhere(done: SweepDone, next: PtrId)
    requires
        done.valid(),
        forall|i: int|
            0 <= i < done.before.locations.len() ==> laws::tags_below(
                #[trigger] done.before.locations[i],
                next,
            ),
        done.op matches StackOp::Grant { derived_from, new } ==> global::tag_below(new.tag, next),
    ensures
        forall|i: int|
            0 <= i < done.after.locations.len() ==> laws::tags_below(
                #[trigger] done.after.locations[i],
                next,
            ),
{
    assert forall|i: int| 0 <= i < done.after.locations.len() implies laws::tags_below(
        #[trigger] done.after.locations[i],
        next,
    ) by {
        done.lemma_location(i);
        let s = done.before.locations[i];
        let site = done.sweep().site(i as Size);
        let (access, tag, new) = ingredients(done.op);
        laws::law_tags_stay_below(s, access, tag, new, site, done.global, next);
    }
}

/// As long as memory is not freed, no stack of it becomes empty.
pub proof fn law_stacks_stay_non_empty(done: SweepDone)
    requires
        done.valid(),
        forall|i: int|
            0 <= i < done.before.locations.len() ==> (#[trigger] done.before.locations[i]).len()
                > 0,
        !(done.op is Dealloc),
    ensures
        forall|i: int|
            0 <= i < done.after.locations.len() ==> (#[trigger] done.after.locations[i]).len() > 0,
{
    assert forall|i: int| 0 <= i < done.after.locations.len() implies (
    #[trigger] done.after.locations[i]).len() > 0 by {
        done.lemma_location(i);
        let s = done.before.locations[i];
        let site = done.sweep().site(i as Size);
        let (access, tag, new) = ingredients(done.op);
        laws::law_stack_stays_non_empty(s, access, tag, new, site, done.global);
    }
}

/// An item cannot get popped from the stack of any location, nor lose its permission there, while
/// the call that protects it is running: neither by an access, nor because a pointer is derived or
/// memory is freed. An access does not even move it.
pub proof fn law_protected_items_stay_everywhere(done: SweepDone, i: Size, j: int)
    requires
        done.valid(),
        done.result is Ok,
        i < done.before.locations.len(),
        0 <= j < done.before.locations[i as int].len(),
        done.global.protects(done.before.locations[i as int][j]),
    ensures
        laws::survives(done.before.locations[i as int], j, done.after.locations[i as int]),
        done.op is Access ==> j < done.after.locations[i as int].len() && laws::kept(
            done.before.locations[i as int][j],
            done.after.locations[i as int][j],
        ),
{
    let s = done.before.locations[i as int];
    let after = done.after.locations[i as int];
    let site = done.sweep().site(i);
    if done.range.covers(i as int) {
        assert(done.sweep().outcome(i).result is Ok);
        assert(after == done.sweep().outcome(i).stack);
        match done.op {
            StackOp::Access { access, tag } => {
                laws::law_protected_items_stay(s, access, tag, site, done.global, j);
                assert(laws::kept(s[j], after[j]));
            },
            StackOp::Dealloc { tag } => {
                laws::law_dealloc_needs_no_protectors(s, tag, site, done.global);
            },
            StackOp::Grant { derived_from, new } => {
                laws::law_protected_items_stay_when_deriving(
                    s,
                    derived_from,
                    new,
                    site,
                    done.global,
                    j,
                );
            },
        }
    } else {
        law_sweep_stays_in_its_range(done, i as int);
        assert(laws::kept(s[j], after[j]));
    }
}

/// F2: At every location of the range, a write pops our `SharedReadOnly`, and a read leaves it
/// where it is with only more `SharedReadOnly` above it.
pub proof fn law_access_and_frozen_everywhere(done: SweepDone, i: Size, j: int)
    requires
        done.valid(),
        done.op is Access,
        done.result is Ok,
        i < done.before.locations.len(),
        done.range.covers(i as int),
        laws::frozen_from(done.before.locations[i as int], j),
    ensures
        ({
            let s = done.before.locations[i as int];
            let after = done.after.locations[i as int];
            match done.op->access {
                AccessKind::Write => after.len() <= j,
                AccessKind::Read => laws::frozen_from(after, j) && after[j] == s[j],
            }
        }),
{
    assert(done.sweep().outcome(i).result is Ok);
    assert(done.after.locations[i as int] == done.sweep().outcome(i).stack);
    laws::law_access_and_frozen(
        done.before.locations[i as int],
        j,
        done.op->access,
        done.op->Access_tag,
        done.sweep().site(i),
        done.global,
    );
}

/// F2b: At every location of the range, deriving a `Unique` pops our `SharedReadOnly`; after
/// deriving anything else it has only more `SharedReadOnly` above it, and is where it was, or one
/// place higher.
pub proof fn law_grant_and_frozen_everywhere(done: SweepDone, i: Size, j: int)
    requires
        done.valid(),
        done.op matches StackOp::Grant { derived_from, new } && new.perm != Permission::Disabled,
        done.result is Ok,
        i < done.before.locations.len(),
        done.range.covers(i as int),
        laws::frozen_from(done.before.locations[i as int], j),
    ensures
        ({
            let s = done.before.locations[i as int];
            let after = done.after.locations[i as int];
            let new = done.op->new;
            if new.perm == Permission::Unique {
                after.len() <= j + 1 && after.last() == new
            } else {
                (laws::frozen_from(after, j) && after[j] == s[j]) || (laws::frozen_from(
                    after,
                    j + 1,
                ) && after[j + 1] == s[j])
            }
        }),
{
    assert(done.sweep().outcome(i).result is Ok);
    assert(done.after.locations[i as int] == done.sweep().outcome(i).stack);
    laws::law_grant_and_frozen(
        done.before.locations[i as int],
        j,
        done.op->derived_from,
        done.op->new,
        done.sweep().site(i),
        done.global,
    );
}

/// A violation that is explained by the stack of a location is one at a location of the range, and
/// leaves its stack as it was, so that it can be explained afterwards.
pub proof fn law_violations_can_be_explained(done: SweepDone, offset: Size)
    requires
        done.valid(),
        done.range.within(done.before.locations.len() as int),
        done.result matches Err(error) && error.place() == Some(offset),
    ensures
        done.range.covers(offset as int),
        offset < done.after.locations.len(),
        done.after.locations[offset as int] == done.before.locations[offset as int],
{
    let sweep = done.sweep();
    let i = choose|i: Size|
        {
            &&& sweep.range.covers(i as int)
            &&& #[trigger] sweep.outcome(i).result == done.result
            &&& sweep.permitted_below(i as int)
        };
    done.lemma_location(i as int);
    let s = done.before.locations[i as int];
    let (access, tag, new) = ingredients(done.op);
    laws::lemma_refusals(s, access, tag, new, sweep.site(i), done.global);
}

/// An operation on a range of an allocation is what it should be on each byte of the range, and
/// nothing anywhere else.
pub proof fn law_range_effects(done: SweepDone)
    requires
        done.valid(),
        done.range.within(done.before.locations.len() as int),
    ensures
        ({
            let before = done.before.locations;
            let after = done.after.locations;
            let active = done.global.active_calls@;
            let ok = done.result is Ok;
            match done.op {
                StackOp::Access { access: AccessKind::Read, tag } => effects::range_read(
                    before,
                    after,
                    done.range,
                    tag,
                    active,
                    ok,
                ),
                StackOp::Access { access: AccessKind::Write, tag } => effects::range_written(
                    before,
                    after,
                    done.range,
                    tag,
                    active,
                    ok,
                ),
                StackOp::Dealloc { tag } => effects::range_freed(
                    before,
                    after,
                    done.range,
                    tag,
                    active,
                    ok,
                ),
                StackOp::Grant { derived_from, new } => effects::range_derived(
                    before,
                    after,
                    done.range,
                    derived_from,
                    new,
                    active,
                    ok,
                ),
            }
        }),
{
    let before = done.before.locations;
    let after = done.after.locations;
    let sweep = done.sweep();
    assert forall|i: int| 0 <= i < before.len() && !effects::inside(
        done.range,
        i,
    ) implies #[trigger] after[i] == before[i] by {
        law_sweep_stays_in_its_range(done, i);
    }
    assert forall|i: int| #[trigger] effects::inside(done.range, i) implies i < before.len()
        && done.range.covers(i) && effect_at(done, i, sweep.outcome(i as Size)) by {
        let s = before[i];
        let site = sweep.site(i as Size);
        match done.op {
            StackOp::Access { access: AccessKind::Read, tag } => {
                effects::law_read_effect(s, tag, site, done.global);
            },
            StackOp::Access { access: AccessKind::Write, tag } => {
                effects::law_write_effect(s, tag, site, done.global);
            },
            StackOp::Dealloc { tag } => {
                effects::law_free_effect(s, tag, site, done.global);
            },
            StackOp::Grant { derived_from, new } => {
                effects::law_derivation_effect(s, derived_from, new, site, done.global);
            },
        }
    }
    if done.result is Ok {
        assert forall|i: int| #[trigger] effects::inside(done.range, i) implies after[i]
            == sweep.outcome(i as Size).stack && sweep.outcome(i as Size).result is Ok by {
            let outcome = sweep.outcome(i as Size);
        }
    } else {
        let i = choose|i: Size|
            {
                &&& sweep.range.covers(i as int)
                &&& #[trigger] sweep.outcome(i).result == done.result
                &&& sweep.permitted_below(i as int)
            };
        assert(effects::inside(done.range, i as int));
        let s = before[i as int];
    }
}

/// Whether what the operation does at the location is what it should do.
spec fn effect_at(done: SweepDone, i: int, outcome: Outcome) -> bool {
    let s = done.before.locations[i];
    let active = done.global.active_calls@;
    let ok = outcome.result is Ok;
    match done.op {
        StackOp::Access { access: AccessKind::Read, tag } => {
            &&& ok <==> effects::readable(s, tag, active)
            &&& ok ==> effects::was_read(s, tag, outcome.stack)
        },
        StackOp::Access { access: AccessKind::Write, tag } => {
            &&& ok <==> effects::writable(s, tag, active)
            &&& ok ==> effects::written(s, tag, outcome.stack)
        },
        StackOp::Dealloc { tag } => {
            &&& ok <==> effects::freeable(s, tag, active)
            &&& ok ==> outcome.stack.len() == 0
        },
        StackOp::Grant { derived_from, new } => {
            &&& ok <==> effects::derivable(s, derived_from, new, active)
            &&& ok ==> effects::derived(s, derived_from, new, outcome.stack)
        },
    }
}

/// Once memory is freed, there is nothing left that an access could go through.
pub proof fn law_freed_memory_cannot_be_accessed(
    done: SweepDone,
    access: AccessKind,
    tag: SbTag,
    i: Size,
)
    requires
        done.valid(),
        done.op is Dealloc,
        done.result is Ok,
        done.range.covers(i as int),
        i < done.before.locations.len(),
    ensures
        done.after.locations[i as int].len() == 0,
        stack::access_outcome(
            done.after.locations[i as int],
            access,
            tag,
            done.sweep().site(i),
            done.global,
        ).result is Err,
{
    let freed_with = done.op->Dealloc_tag;
    let site = done.sweep().site(i);
    assert(done.sweep().outcome(i).result is Ok);
    assert(done.after.locations[i as int] == done.sweep().outcome(i).stack);
    laws::law_dealloc_needs_no_protectors(
        done.before.locations[i as int],
        freed_with,
        site,
        done.global,
    );
    laws::law_access_needs_an_item(done.after.locations[i as int], access, tag, site, done.global);
}

/// An access that succeeded succeeds again, and then changes no stack.
pub proof fn law_allocation_access_can_be_repeated(first: SweepDone, second: SweepDone)
    requires
        first.valid(),
        first.op is Access,
        first.result is Ok,
        first.range.within(first.before.locations.len() as int),
        second.valid(),
        second == (SweepDone {
            before: first.after,
            after: second.after,
            result: second.result,
            ..first
        }),
    ensures
        second.result is Ok,
        second.after.locations == first.after.locations,
{
    let access = first.op->access;
    let tag = first.op->Access_tag;
    assert forall|i: Size| first.range.covers(i as int) implies {
        let again = #[trigger] second.sweep().outcome(i);
        again.result is Ok && again.stack == first.after.locations[i as int]
    } by {
        assert(first.sweep().outcome(i).result is Ok);
        assert(first.after.locations[i as int] == first.sweep().outcome(i).stack);
        laws::law_access_can_be_repeated(
            first.before.locations[i as int],
            access,
            tag,
            first.sweep().site(i),
            first.global,
        );
    }
    assert(second.sweep().permitted());
    assert forall|i: int| 0 <= i < first.after.locations.len() implies (
    #[trigger] second.after.locations[i]) == first.after.locations[i] by {
        if first.range.covers(i) {
            let again = second.sweep().outcome(i as Size);
        }
    }
    assert(second.after.locations =~= first.after.locations);
}

/// The first pointer to a new allocation may be used to access any part of it in any way, and to
/// free it; a pointer with another tag may not be used for anything.
pub proof fn law_new_allocation_is_accessible(
    new: Stacks,
    size: Size,
    perm: Permission,
    tag: SbTag,
    done: SweepDone,
)
    requires
        new.fresh(size, perm, tag),
        perm.permits(AccessKind::Write),
        done.valid(),
        done.before.locations == new.locations(),
        done.range.within(size as int),
    ensures
        done.op is Access && done.op->Access_tag == tag ==> done.result is Ok,
        done.op is Dealloc && done.op->Dealloc_tag == tag ==> done.result is Ok,
        done.op is Access && done.op->Access_tag != tag && done.range.size > 0
            ==> done.result is Err,
        done.op is Dealloc && done.op->Dealloc_tag != tag && done.range.size > 0
            ==> done.result is Err,
{
    let item = Item { perm, tag, protector: None };
    let sweep = done.sweep();
    assert forall|i: Size| done.range.covers(i as int) implies {
        let outcome = #[trigger] sweep.outcome(i);
        &&& done.op matches StackOp::Access { access, tag: used } ==> (outcome.result is Ok
            <==> used == tag)
        &&& done.op matches StackOp::Dealloc { tag: used } ==> (outcome.result is Ok
            <==> used == tag)
    } by {
        let s = done.before.locations[i as int];
        assert(s == seq![item]);
        assert(s[0] == item);
        let site = sweep.site(i);
        match done.op {
            StackOp::Access { access, tag: used } => {
                lemma_single_item_access(item, access, used, site, done.global);
            },
            StackOp::Dealloc { tag: used } => {
                laws::law_dealloc_needs_no_protectors(s, used, site, done.global);
            },
            StackOp::Grant { derived_from, new } => {},
        }
    }
    if done.range.size > 0 {
        let first = sweep.outcome(done.range.start);
        assert(done.range.covers(done.range.start as int));
    }
}

/// In a stack of one item that is not protected, an access goes through exactly with its tag.
proof fn lemma_single_item_access(
    item: Item,
    access: AccessKind,
    tag: SbTag,
    site: AccessSite,
    global: GlobalStateInner,
)
    requires
        item.perm.permits(AccessKind::Write),
        item.protector is None,
    ensures
        stack::access_outcome(seq![item], access, tag, site, global).result is Ok <==> tag
            == item.tag,
{
    let s = seq![item];
    assert(s[0] == item);
    stack::lemma_granting(s, access, tag);
    if tag == item.tag {
        let s1 = stack::activated(s, 0);
        assert(s1.len() == 1);
        stack::lemma_shared_run_end(s1, 1);
        let p = |i: int| 1 <= i && global.protects(s1[i]);
        stack::lemma_last_where(p, 1);
        let q = |i: int| stack::demotable(s, 0, i) && global.protects(s[i]);
        stack::lemma_last_where(q, 1);
    }
}

} // verus!
