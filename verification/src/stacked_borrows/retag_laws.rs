//! What retagging guarantees.
use vstd::prelude::*;

use crate::error::InterpError;
use crate::machine::tag::{Pointer, Tag};
use crate::memory::{AllocRange, Size};
use crate::stacked_borrows::allocation_laws;
use crate::stacked_borrows::allocation_laws::SweepDone;
use crate::stacked_borrows::diagnostics::AccessSite;
use crate::stacked_borrows::global;
use crate::stacked_borrows::global::GlobalStateInner;
use crate::stacked_borrows::item::{AccessKind, Item, Permission, PtrId, SbTag};
use crate::stacked_borrows::laws;
use crate::stacked_borrows::retag;
use crate::stacked_borrows::retag::{Derivation, RetagKind, Retagging, TyKind};
use crate::stacked_borrows::stack;
use crate::stacked_borrows::stacks::{Sweep, Track};

verus! {

/// A protector is added exactly to references, and exactly on function entry.
pub proof fn law_protectors_are_for_function_arguments(ty: TyKind, kind: RetagKind)
    ensures
        (retag::qualification(ty, kind) matches Some((_, protect)) && protect) <==> ty is Ref
            && kind == RetagKind::FnEntry,
{
}

/// Raw pointers are retagged exactly if that is asked for; references and boxes always are, and
/// nothing else is.
pub proof fn law_bare_pointers_are_retagged(ty: TyKind, kind: RetagKind)
    ensures
        retag::qualification(ty, kind) is Some <==> ty is Ref || ty is Box || (ty is RawPtr && kind
            == RetagKind::Raw),
{
}

/// A pointer to nothing can always be derived, and nothing happens to memory.
pub proof fn law_pointer_to_nothing_changes_nothing(
    derivation: Derivation,
    global: GlobalStateInner,
    before: Track,
    after: Track,
    result: Result<(), InterpError>,
)
    requires
        derivation.performed(global, before, after, result),
        derivation.size == 0,
    ensures
        result is Ok,
        after == before,
{
}

/// A pointer beyond the end of its allocation is refused, and no stack changes.
pub proof fn law_out_of_bounds_pointer_is_refused(
    derivation: Derivation,
    global: GlobalStateInner,
    before: Track,
    after: Track,
    result: Result<(), InterpError>,
)
    requires
        derivation.performed(global, before, after, result),
        derivation.size > 0,
        derivation.range().end() > before.locations.len(),
    ensures
        result matches Err(error) && error is PointerOutOfBounds,
        after.locations == before.locations,
{
}

/// U1: After deriving a `&mut` to something that can be moved, its `Unique` is on top at every
/// location that it points to.
pub proof fn law_mutable_reference_is_on_top(
    derivation: Derivation,
    global: GlobalStateInner,
    before: Track,
    after: Track,
    i: Size,
)
    requires
        derivation.performed(global, before, after, Ok(())),
        retag::uniform_perm(derivation.kind, derivation.place.unpin) == Some(Permission::Unique),
        derivation.range().covers(i as int),
    ensures
        i < after.locations.len(),
        after.locations[i as int].len() > 0,
        after.locations[i as int].last() == derivation.item(Permission::Unique),
{
    let sweep = Sweep {
        before: before.locations,
        op: derivation.grant(Permission::Unique),
        alloc_id: derivation.place.alloc_id,
        range: derivation.range(),
        global,
    };
    assert(sweep.outcome(i).result is Ok);
    assert(after.locations[i as int] == sweep.outcome(i).stack);
    laws::law_unique_is_created_on_top(
        before.locations[i as int],
        derivation.place.tag,
        derivation.item(Permission::Unique),
        sweep.site(i),
        global,
    );
}

/// No two parts of what the pointer points to overlap in the allocation.
spec fn ranges_disjoint(derivation: Derivation) -> bool {
    forall|j: int, k: int, i: int|
        #![trigger derivation.part_range(j).covers(i), derivation.part_range(k).covers(i)]
        0 <= j < k < derivation.place.parts@.len() && derivation.part_range(j).covers(i)
            ==> !derivation.part_range(k).covers(i)
}

/// F1: After deriving a `&`, the parts outside `UnsafeCell` have its `SharedReadOnly` on top.
pub proof fn law_shared_reference_is_on_top(
    derivation: Derivation,
    global: GlobalStateInner,
    before: Track,
    after: Track,
    k: int,
    i: Size,
)
    requires
        before.locations.len() <= u64::MAX,
        derivation.performed(global, before, after, Ok(())),
        retag::uniform_perm(derivation.kind, derivation.place.unpin) is None,
        derivation.size > 0,
        derivation.place.parts_within(derivation.size),
        derivation.place.parts_disjoint(),
        0 <= k < derivation.place.parts@.len(),
        derivation.place.parts@[k].1,
        derivation.part_range(k).covers(i as int),
    ensures
        i < after.locations.len(),
        after.locations[i as int].len() > 0,
        after.locations[i as int].last() == derivation.item(Permission::SharedReadOnly),
{
    let n = derivation.place.parts@.len() as int;
    assert(derivation.place.parts@[k].0.end() <= derivation.size);
    lemma_ranges_disjoint(derivation);
    lemma_part_on_top(derivation, n, global, derivation.recorded(before), after, k, i);
}

/// Parts that do not overlap relative to the pointer do not overlap in the allocation.
proof fn lemma_ranges_disjoint(derivation: Derivation)
    requires
        derivation.place.parts_disjoint(),
        derivation.place.parts_within(derivation.size),
        derivation.range().end() <= u64::MAX,
    ensures
        ranges_disjoint(derivation),
{
    let base = derivation.place.base_offset;
    let parts = derivation.place.parts@;
    assert forall|j: int, k: int, i: int|
        #![trigger derivation.part_range(j).covers(i), derivation.part_range(k).covers(i)]
        0 <= j < k < parts.len() && derivation.part_range(j).covers(
            i,
        ) implies !derivation.part_range(k).covers(i) by {
        assert(parts[j].0.end() <= derivation.size && parts[k].0.end() <= derivation.size);
        assert(parts[j].0.covers(i - base));
        assert(!parts[k].0.covers(i - base));
    }
}

/// Once the `k`th part was granted, and others after it, it has the new item on top.
proof fn lemma_part_on_top(
    derivation: Derivation,
    n: int,
    global: GlobalStateInner,
    before: Track,
    after: Track,
    k: int,
    i: Size,
)
    requires
        before.locations.len() <= u64::MAX,
        derivation.parts_granted(n, global, before, after, Ok(())),
        ranges_disjoint(derivation),
        n <= derivation.place.parts@.len(),
        0 <= k < n,
        derivation.place.parts@[k].1,
        derivation.part_range(k).covers(i as int),
        i < before.locations.len(),
    ensures
        after.locations.len() == before.locations.len(),
        after.locations[i as int].len() > 0,
        after.locations[i as int].last() == derivation.item(Permission::SharedReadOnly),
    decreases n,
{
    let mid = choose|mid: Track|
        derivation.parts_granted(n - 1, global, before, mid, Ok(()))
            && #[trigger] derivation.part_granted(n - 1, global, mid, after, Ok(()));
    lemma_parts_keep_size(derivation, n - 1, global, before, mid);
    let perm = retag::part_perm(derivation.place.parts@[n - 1].1);
    let sweep = Sweep {
        before: mid.locations,
        op: derivation.grant(perm),
        alloc_id: derivation.place.alloc_id,
        range: derivation.part_range(n - 1),
        global,
    };
    assert(sweep.permitted());
    if k < n - 1 {
        lemma_part_on_top(derivation, n - 1, global, before, mid, k, i);
        assert(!derivation.part_range(n - 1).covers(i as int));
        assert(after.locations[i as int] == mid.locations[i as int]);
    } else {
        assert(sweep.outcome(i).result is Ok);
        assert(after.locations[i as int] == sweep.outcome(i).stack);
        laws::law_read_only_is_created_on_top(
            mid.locations[i as int],
            derivation.place.tag,
            derivation.item(perm),
            sweep.site(i),
            global,
        );
    }
}

/// Granting parts adds and removes no locations.
proof fn lemma_parts_keep_size(
    derivation: Derivation,
    n: int,
    global: GlobalStateInner,
    before: Track,
    after: Track,
)
    requires
        derivation.parts_granted(n, global, before, after, Ok(())),
    ensures
        after.locations.len() == before.locations.len(),
    decreases n,
{
    if n > 0 {
        let mid = choose|mid: Track|
            derivation.parts_granted(n - 1, global, before, mid, Ok(()))
                && #[trigger] derivation.part_granted(n - 1, global, mid, after, Ok(()));
        lemma_parts_keep_size(derivation, n - 1, global, before, mid);
    }
}

/// Whether `after` is what deriving the new item once makes of the stack `s`.
pub open spec fn derived_once(
    derivation: Derivation,
    global: GlobalStateInner,
    s: Seq<Item>,
    after: Seq<Item>,
) -> bool {
    exists|perm: Permission, site: AccessSite|
        {
            let outcome = #[trigger] stack::grant_outcome(
                s,
                derivation.place.tag,
                derivation.item(perm),
                site,
                global,
            );
            perm != Permission::Disabled && outcome.result is Ok && outcome.stack == after
        }
}

/// Deriving a pointer leaves a location alone, or derives one item there.
pub proof fn law_locations_are_derived_once(
    derivation: Derivation,
    global: GlobalStateInner,
    before: Track,
    after: Track,
    i: Size,
)
    requires
        before.locations.len() <= u64::MAX,
        derivation.performed(global, before, after, Ok(())),
        derivation.place.fits(derivation.size, derivation.kind),
        derivation.place.parts_disjoint(),
        i < before.locations.len(),
    ensures
        after.locations.len() == before.locations.len(),
        after.locations[i as int] == before.locations[i as int] || derived_once(
            derivation,
            global,
            before.locations[i as int],
            after.locations[i as int],
        ),
{
    let recorded = derivation.recorded(before);
    if derivation.size > 0 && derivation.range().end() <= before.locations.len() {
        match retag::uniform_perm(derivation.kind, derivation.place.unpin) {
            Some(perm) => {
                let range = derivation.range();
                let done = granted(derivation, perm, range, global, recorded, after, Ok(()));
                lemma_derived_once(derivation, perm, done, i);
            },
            None => {
                let n = derivation.place.parts@.len() as int;
                lemma_ranges_disjoint(derivation);
                lemma_parts_derived_once(derivation, n, global, recorded, after, i);
            },
        }
    }
}

/// Granting an item for a range leaves a location alone, or derives the item there.
proof fn lemma_derived_once(derivation: Derivation, perm: Permission, done: SweepDone, i: Size)
    requires
        done.valid(),
        done.result is Ok,
        done.op == derivation.grant(perm),
        perm != Permission::Disabled,
        i < done.before.locations.len(),
    ensures
        done.after.locations.len() == done.before.locations.len(),
        !done.range.covers(i as int) ==> done.after.locations[i as int]
            == done.before.locations[i as int],
        done.range.covers(i as int) ==> derived_once(
            derivation,
            done.global,
            done.before.locations[i as int],
            done.after.locations[i as int],
        ),
{
    if done.range.covers(i as int) {
        let sweep = done.sweep();
        assert(sweep.outcome(i).result is Ok);
        assert(done.after.locations[i as int] == sweep.outcome(i).stack);
        let outcome = stack::grant_outcome(
            done.before.locations[i as int],
            derivation.place.tag,
            derivation.item(perm),
            sweep.site(i),
            done.global,
        );
        assert(outcome == sweep.outcome(i));
    } else {
        allocation_laws::law_sweep_stays_in_its_range(done, i as int);
    }
}

/// Granting the first `n` parts leaves the locations outside of them alone, and derives one item
/// at each of the others.
proof fn lemma_parts_derived_once(
    derivation: Derivation,
    n: int,
    global: GlobalStateInner,
    before: Track,
    after: Track,
    i: Size,
)
    requires
        before.locations.len() <= u64::MAX,
        derivation.parts_granted(n, global, before, after, Ok(())),
        ranges_disjoint(derivation),
        n <= derivation.place.parts@.len(),
        i < before.locations.len(),
    ensures
        after.locations.len() == before.locations.len(),
        outside_parts(derivation, n, i as int) ==> after.locations[i as int]
            == before.locations[i as int],
        !outside_parts(derivation, n, i as int) ==> derived_once(
            derivation,
            global,
            before.locations[i as int],
            after.locations[i as int],
        ),
    decreases n,
{
    if n > 0 {
        let mid = choose|mid: Track|
            derivation.parts_granted(n - 1, global, before, mid, Ok(()))
                && #[trigger] derivation.part_granted(n - 1, global, mid, after, Ok(()));
        lemma_parts_derived_once(derivation, n - 1, global, before, mid, i);
        let range = derivation.part_range(n - 1);
        let perm = retag::part_perm(derivation.place.parts@[n - 1].1);
        let done = granted(derivation, perm, range, global, mid, after, Ok(()));
        lemma_derived_once(derivation, perm, done, i);
        if range.covers(i as int) {
            assert(outside_parts(derivation, n - 1, i as int));
        } else if !outside_parts(derivation, n, i as int) {
            let k = choose|k: int|
                0 <= k < n && (#[trigger] derivation.part_range(k)).covers(i as int);
            assert(!outside_parts(derivation, n - 1, i as int));
        }
    }
}

/// Retagging a pointer pops no item, nor takes its permission away, while the call that protects
/// the item is running.
pub proof fn law_retagging_keeps_protected_items(
    retagging: Retagging,
    global_before: GlobalStateInner,
    global_after: GlobalStateInner,
    before: Track,
    after: Track,
    ptr: Pointer<Option<Tag>>,
    i: Size,
    j: int,
)
    requires
        retagging.possible(global_before),
        before.locations.len() <= u64::MAX,
        retagging.performed(global_before, global_after, before, after, Ok(ptr)),
        retagging.place.parts_disjoint(),
        i < before.locations.len(),
        0 <= j < before.locations[i as int].len(),
        global_before.protects(before.locations[i as int][j]),
    ensures
        i < after.locations.len(),
        laws::survives(before.locations[i as int], j, after.locations[i as int]),
{
    let s = before.locations[i as int];
    let now = after.locations[i as int];
    lemma_retagged_location(retagging, global_before, global_after, before, after, ptr, i);
    if now == s {
        assert(laws::kept(s[j], now[j]));
    } else {
        let derivation = retagging.derivation(retagging.size->Some_0, global_before);
        let (perm, site) = choose|perm: Permission, site: AccessSite|
            {
                let outcome = #[trigger] stack::grant_outcome(
                    s,
                    derivation.place.tag,
                    derivation.item(perm),
                    site,
                    global_after,
                );
                perm != Permission::Disabled && outcome.result is Ok && outcome.stack == now
            };
        laws::law_protected_items_stay_when_deriving(
            s,
            derivation.place.tag,
            derivation.item(perm),
            site,
            global_after,
            j,
        );
    }
}

/// F2b: Retagging a pointer either pops our `SharedReadOnly`, and then the new item is a `Unique`
/// on top, or leaves only more `SharedReadOnly` above it.
pub proof fn law_retagging_and_frozen(
    retagging: Retagging,
    global_before: GlobalStateInner,
    global_after: GlobalStateInner,
    before: Track,
    after: Track,
    ptr: Pointer<Option<Tag>>,
    i: Size,
    j: int,
)
    requires
        retagging.possible(global_before),
        before.locations.len() <= u64::MAX,
        retagging.performed(global_before, global_after, before, after, Ok(ptr)),
        retagging.place.parts_disjoint(),
        i < before.locations.len(),
        laws::frozen_from(before.locations[i as int], j),
    ensures
        i < after.locations.len(),
        ({
            let s = before.locations[i as int];
            let now = after.locations[i as int];
            ||| 0 < now.len() <= j + 1 && now.last().perm == Permission::Unique && now.last().tag
                == retag::tag_for(retagging.kind, global_before)
            ||| laws::frozen_from(now, j) && now[j] == s[j]
            ||| laws::frozen_from(now, j + 1) && now[j + 1] == s[j]
        }),
{
    let s = before.locations[i as int];
    let now = after.locations[i as int];
    lemma_retagged_location(retagging, global_before, global_after, before, after, ptr, i);
    if now != s {
        let derivation = retagging.derivation(retagging.size->Some_0, global_before);
        let (perm, site) = choose|perm: Permission, site: AccessSite|
            {
                let outcome = #[trigger] stack::grant_outcome(
                    s,
                    derivation.place.tag,
                    derivation.item(perm),
                    site,
                    global_after,
                );
                perm != Permission::Disabled && outcome.result is Ok && outcome.stack == now
            };
        let (tag, new) = (derivation.place.tag, derivation.item(perm));
        laws::law_grant_and_frozen(s, j, tag, new, site, global_after);
        if perm == Permission::Unique {
            laws::law_unique_is_created_on_top(s, tag, new, site, global_after);
        }
    }
}

/// Retagging a pointer leaves a location alone, or derives one item there.
proof fn lemma_retagged_location(
    retagging: Retagging,
    global_before: GlobalStateInner,
    global_after: GlobalStateInner,
    before: Track,
    after: Track,
    ptr: Pointer<Option<Tag>>,
    i: Size,
)
    requires
        retagging.possible(global_before),
        before.locations.len() <= u64::MAX,
        retagging.performed(global_before, global_after, before, after, Ok(ptr)),
        retagging.place.parts_disjoint(),
        i < before.locations.len(),
    ensures
        after.locations.len() == before.locations.len(),
        after.locations[i as int] == before.locations[i as int] || (retagging.size matches Some(
            size,
        ) && derived_once(
            retagging.derivation(size, global_before),
            global_after,
            before.locations[i as int],
            after.locations[i as int],
        )),
{
    if let Some(size) = retagging.size {
        let tagged = Track {
            notices: before.notices + retag::tag_notices(retagging.kind, global_before),
            ..before
        };
        let derivation = retagging.derivation(size, global_before);
        law_locations_are_derived_once(derivation, global_after, tagged, after, i);
    }
}

/// Retagging a pointer keeps the stacks of the allocation that it points into sound, however it
/// ends.
pub proof fn law_retagging_keeps_stacks_sound(
    retagging: Retagging,
    global_before: GlobalStateInner,
    global_after: GlobalStateInner,
    before: Track,
    after: Track,
    result: Result<Pointer<Option<Tag>>, InterpError>,
)
    requires
        global_before.wf(),
        retagging.possible(global_before),
        before.locations.len() <= u64::MAX,
        retagging.performed(global_before, global_after, before, after, result),
        allocation_laws::sound(before.locations, global_before.next_ptr_id),
        retagging.place.parts_disjoint(),
    ensures
        allocation_laws::sound(after.locations, global_after.next_ptr_id),
{
    if let Some(size) = retagging.size {
        let derivation = retagging.derivation(size, global_before);
        let next = global_after.next_ptr_id;
        let tagged = Track {
            notices: before.notices + retag::tag_notices(retagging.kind, global_before),
            ..before
        };
        allocation_laws::law_sound_stacks_stay_so(
            before.locations,
            global_before.next_ptr_id,
            next,
        );
        assert forall|i: int| 0 <= i < before.locations.len() implies tag_is_new(
            #[trigger] before.locations[i],
            derivation.new_tag,
        ) by {
            assert(allocation_laws::sound_stack(before.locations[i], global_before.next_ptr_id));
            laws::law_fresh_tag_is_absent(before.locations[i], global_before.next_ptr_id);
        }
        let step: Result<(), InterpError> = match result {
            Ok(_) => Ok(()),
            Err(error) => Err(error),
        };
        lemma_derivation_keeps_sound(derivation, global_after, tagged, after, step, next);
    }
}

/// Deriving a pointer with a new tag keeps the stacks sound.
proof fn lemma_derivation_keeps_sound(
    derivation: Derivation,
    global: GlobalStateInner,
    before: Track,
    after: Track,
    result: Result<(), InterpError>,
    next: PtrId,
)
    requires
        before.locations.len() <= u64::MAX,
        derivation.performed(global, before, after, result),
        allocation_laws::sound(before.locations, next),
        global::tag_below(derivation.new_tag, next),
        forall|i: int|
            0 <= i < before.locations.len() ==> tag_is_new(
                #[trigger] before.locations[i],
                derivation.new_tag,
            ),
        derivation.place.parts_disjoint(),
        derivation.place.fits(derivation.size, derivation.kind),
    ensures
        allocation_laws::sound(after.locations, next),
{
    let recorded = derivation.recorded(before);
    if derivation.size > 0 && derivation.range().end() <= before.locations.len() {
        match retag::uniform_perm(derivation.kind, derivation.place.unpin) {
            Some(perm) => {
                let done = granted(
                    derivation,
                    perm,
                    derivation.range(),
                    global,
                    recorded,
                    after,
                    result,
                );
                allocation_laws::law_stacks_stay_sound(done, next);
            },
            None => {
                let n = derivation.place.parts@.len() as int;
                lemma_ranges_disjoint(derivation);
                lemma_parts_keep_sound(derivation, n, global, recorded, after, result, next);
            },
        }
    }
}

/// Granting the first `n` parts keeps the stacks sound, and adds the new tag nowhere else.
proof fn lemma_parts_keep_sound(
    derivation: Derivation,
    n: int,
    global: GlobalStateInner,
    before: Track,
    after: Track,
    result: Result<(), InterpError>,
    next: PtrId,
)
    requires
        before.locations.len() <= u64::MAX,
        derivation.parts_granted(n, global, before, after, result),
        n <= derivation.place.parts@.len(),
        allocation_laws::sound(before.locations, next),
        global::tag_below(derivation.new_tag, next),
        forall|i: int|
            0 <= i < before.locations.len() ==> tag_is_new(
                #[trigger] before.locations[i],
                derivation.new_tag,
            ),
        ranges_disjoint(derivation),
    ensures
        after.locations.len() == before.locations.len(),
        allocation_laws::sound(after.locations, next),
        forall|i: int|
            0 <= i < after.locations.len() && outside_parts(derivation, n, i) ==> tag_is_new(
                #[trigger] after.locations[i],
                derivation.new_tag,
            ),
    decreases n,
{
    if n > 0 {
        if result is Err && derivation.parts_granted(n - 1, global, before, after, result) {
            lemma_parts_keep_sound(derivation, n - 1, global, before, after, result, next);
        } else {
            let mid = choose|mid: Track|
                derivation.parts_granted(n - 1, global, before, mid, Ok(()))
                    && #[trigger] derivation.part_granted(n - 1, global, mid, after, result);
            lemma_parts_keep_sound(derivation, n - 1, global, before, mid, Ok(()), next);
            let range = derivation.part_range(n - 1);
            let perm = retag::part_perm(derivation.place.parts@[n - 1].1);
            let done = granted(derivation, perm, range, global, mid, after, result);
            assert forall|i: int| range.covers(i) && i < mid.locations.len() implies tag_is_new(
                #[trigger] mid.locations[i],
                derivation.new_tag,
            ) by {
                assert(outside_parts(derivation, n - 1, i));
            }
            allocation_laws::law_stacks_stay_sound(done, next);
            assert forall|i: int|
                0 <= i < after.locations.len() && outside_parts(
                    derivation,
                    n,
                    i,
                ) implies tag_is_new(#[trigger] after.locations[i], derivation.new_tag) by {
                assert(!derivation.part_range(n - 1).covers(i));
                allocation_laws::law_sweep_stays_in_its_range(done, i);
                assert(outside_parts(derivation, n - 1, i));
                assert(tag_is_new(mid.locations[i], derivation.new_tag));
            }
        }
    }
}

/// Whether the offset is in none of the first `n` parts.
spec fn outside_parts(derivation: Derivation, n: int, i: int) -> bool {
    forall|k: int| 0 <= k < n ==> !(#[trigger] derivation.part_range(k)).covers(i)
}

/// Whether the tag is `Untagged` or not in the stack.
spec fn tag_is_new(s: Seq<Item>, tag: SbTag) -> bool {
    tag == SbTag::Untagged || laws::tag_absent(s, tag)
}

/// A grant that was made on the way, as an operation on the range.
spec fn granted(
    derivation: Derivation,
    perm: Permission,
    range: AllocRange,
    global: GlobalStateInner,
    before: Track,
    after: Track,
    result: Result<(), InterpError>,
) -> SweepDone {
    SweepDone {
        op: derivation.grant(perm),
        alloc_id: derivation.place.alloc_id,
        range,
        global,
        before,
        after,
        result: match result {
            Ok(()) => Ok(()),
            Err(InterpError::ExperimentalUb(error)) => Err(error),
            Err(_) => arbitrary(),
        },
    }
}

/// A pointer whose item is on top of a stack can be used for whatever the item permits. That
/// changes nothing, unless it ends the first phase of a two-phase borrow.
pub proof fn law_pointer_on_top_can_be_used(
    s: Seq<Item>,
    access: AccessKind,
    site: AccessSite,
    global: GlobalStateInner,
)
    requires
        s.len() > 0,
        s.last().perm.permits(access),
    ensures
        stack::access_outcome(s, access, s.last().tag, site, global).result is Ok,
        s.last().perm != Permission::TwoPhasedRW || access == AccessKind::Read
            ==> stack::access_outcome(s, access, s.last().tag, site, global).stack == s,
{
    let tag = s.last().tag;
    let g = s.len() - 1;
    stack::lemma_granting(s, access, tag);
    assert(s[g] == s.last());
    assert(stack::granting(s, access, tag) == Some(g));
    let s1 = stack::activated(s, g);
    stack::lemma_shared_run_end(s1, g + 1);
    let p = |i: int| s.len() <= i && global.protects(s1[i]);
    stack::lemma_last_where(p, s.len() as int);
    let q = |i: int| stack::demotable(s, g, i) && global.protects(s[i]);
    stack::lemma_last_where(q, s.len() as int);
    assert(s.last().perm != Permission::TwoPhasedRW || access == AccessKind::Read
        ==> stack::access_outcome(s, access, tag, site, global).stack =~= s);
}

/// A pointer that was retagged points to the same place in the same allocation as before.
pub proof fn law_retagging_keeps_the_place(
    retagging: Retagging,
    global_before: GlobalStateInner,
    global_after: GlobalStateInner,
    before: Track,
    after: Track,
    ptr: Pointer<Option<Tag>>,
)
    requires
        retagging.performed(global_before, global_after, before, after, Ok(ptr)),
    ensures
        ptr.offset == retagging.val.offset,
        ptr.provenance is Some <==> retagging.val.provenance is Some,
        ptr.provenance matches Some(tag) ==> tag.alloc_id
            == retagging.val.provenance->Some_0.alloc_id,
{
}

/// The tag of a pointer that was retagged is in no stack whose tags were handed out before.
pub proof fn law_retagged_pointer_is_fresh(
    retagging: Retagging,
    global_before: GlobalStateInner,
    global_after: GlobalStateInner,
    before: Track,
    after: Track,
    ptr: Pointer<Option<Tag>>,
    s: Seq<Item>,
)
    requires
        retagging.performed(global_before, global_after, before, after, Ok(ptr)),
        retagging.size is Some,
        retag::takes_id(retagging.kind, global_before),
        global_before.next_ptr_id < u64::MAX,
        laws::tags_below(s, global_before.next_ptr_id),
    ensures
        ptr.provenance matches Some(tag) ==> laws::tag_absent(s, tag.sb) && tag.sb
            == SbTag::Tagged(global_before.next_ptr_id),
        global_after.next_ptr_id == global_before.next_ptr_id + 1,
{
    laws::law_fresh_tag_is_absent(s, global_before.next_ptr_id);
}

/// If it cannot be known how much a pointer points to, it stays as it is, and nothing happens.
pub proof fn law_unknown_size_changes_nothing(
    retagging: Retagging,
    global_before: GlobalStateInner,
    global_after: GlobalStateInner,
    before: Track,
    after: Track,
    result: Result<Pointer<Option<Tag>>, InterpError>,
)
    requires
        retagging.size is None,
        retagging.performed(global_before, global_after, before, after, result),
    ensures
        result is Ok,
        result->Ok_0.provenance == retagging.val.provenance,
        result->Ok_0.offset == retagging.val.offset,
        global_after == global_before,
        after == before,
{
}

} // verus!
