//! What deriving a pointer means for the memory it points to, said of the bytes at its place.
use vstd::prelude::*;

use crate::error::InterpError;
use crate::memory::{AllocRange, Size};
use crate::stacked_borrows::allocation_laws;
use crate::stacked_borrows::allocation_laws::SweepDone;
use crate::stacked_borrows::diagnostics::BorrowError;
use crate::stacked_borrows::effects;
use crate::stacked_borrows::global::GlobalStateInner;
use crate::stacked_borrows::item::{CallId, Item, Permission, RefKind, SbTag};
use crate::stacked_borrows::retag;
use crate::stacked_borrows::retag::{Derivation, ReborrowPlace};
use crate::stacked_borrows::stack::StackOp;
use crate::stacked_borrows::stacks;
use crate::stacked_borrows::stacks::Track;

verus! {

/// A new pointer, derived from the one to the place. With `protect`, it is protected by the call.
pub struct NewPointer {
    pub place: ReborrowPlace,
    pub size: Size,
    pub kind: RefKind,
    pub tag: SbTag,
    pub protect: bool,
    pub call_id: CallId,
}

impl NewPointer {
    /// The item of the pointer, with the given permission. It has a protector exactly if that was
    /// asked for, whatever it permits.
    pub open spec fn item(self, perm: Permission) -> Item {
        if self.protect {
            Item { perm, tag: self.tag, protector: Some(self.call_id) }
        } else {
            Item { perm, tag: self.tag, protector: None }
        }
    }

    /// The `k`th part of what the pointer points to has the byte `i` of the allocation.
    pub open spec fn part_has(self, k: int, i: int) -> bool {
        &&& 0 <= k < self.place.parts@.len()
        &&& self.place.base_offset + self.place.parts@[k].0.start <= i
        &&& i < self.place.base_offset + self.place.parts@[k].0.start
            + self.place.parts@[k].0.size
    }

    /// What the pointer may do with the bytes of a part: only read what is outside of every
    /// `UnsafeCell`.
    pub open spec fn part_item(self, k: int) -> Item {
        if self.place.parts@[k].1 {
            self.item(Permission::SharedReadOnly)
        } else {
            self.item(Permission::TwoPhasedRW)
        }
    }

    /// What deriving the pointer makes of the stacks `before`. There are three kinds of pointers:
    /// a `Unique` only for a mutable reference to something that can be moved and that is not just
    /// prepared; one that shares its right to write for other mutable pointers; and for shared
    /// references and `*const`, what each part asks for.
    pub open spec fn made(
        self,
        before: Seq<Seq<Item>>,
        after: Seq<Seq<Item>>,
        active: Set<CallId>,
        ok: bool,
    ) -> bool {
        if self.size == 0 {
            ok && after == before
        } else if self.place.base_offset + self.size > before.len() {
            !ok && after == before
        } else {
            match self.kind {
                RefKind::Unique { two_phase: false } if self.place.unpin => self.made_at_once(
                    before,
                    after,
                    Permission::Unique,
                    active,
                    ok,
                ),
                RefKind::Unique { .. } => self.made_at_once(
                    before,
                    after,
                    Permission::TwoPhasedRW,
                    active,
                    ok,
                ),
                RefKind::Raw { mutable: true } => self.made_at_once(
                    before,
                    after,
                    Permission::TwoPhasedRW,
                    active,
                    ok,
                ),
                RefKind::Raw { mutable: false } => self.made_by_parts(before, after, active, ok),
                RefKind::Shared => self.made_by_parts(before, after, active, ok),
            }
        }
    }

    /// The pointer gets the same permission for all bytes that it points to.
    pub open spec fn made_at_once(
        self,
        before: Seq<Seq<Item>>,
        after: Seq<Seq<Item>>,
        perm: Permission,
        active: Set<CallId>,
        ok: bool,
    ) -> bool {
        effects::range_derived(
            before,
            after,
            AllocRange { start: self.place.base_offset, size: self.size },
            self.place.tag,
            self.item(perm),
            active,
            ok,
        )
    }

    /// The pointer gets its permission part by part: exactly if each byte of each part can give
    /// it. Bytes that are in no part are left alone.
    pub open spec fn made_by_parts(
        self,
        before: Seq<Seq<Item>>,
        after: Seq<Seq<Item>>,
        active: Set<CallId>,
        ok: bool,
    ) -> bool {
        &&& after.len() == before.len()
        &&& forall|i: int|
            0 <= i < before.len() && (forall|k: int| !#[trigger] self.part_has(k, i))
                ==> #[trigger] after[i] == before[i]
        &&& self.place.parts_disjoint() ==> {
            &&& ok <==> forall|k: int, i: int| #[trigger]
                self.part_has(k, i) ==> effects::derivable(
                    before[i],
                    self.place.tag,
                    self.part_item(k),
                    active,
                )
            &&& ok ==> forall|k: int, i: int| #[trigger]
                self.part_has(k, i) ==> effects::derived(
                    before[i],
                    self.place.tag,
                    self.part_item(k),
                    after[i],
                )
        }
    }

    /// The derivation that makes the pointer.
    pub open spec fn derivation(self) -> Derivation {
        Derivation {
            place: self.place,
            size: self.size,
            kind: self.kind,
            new_tag: self.tag,
            protector: if self.protect {
                Some(self.call_id)
            } else {
                None
            },
        }
    }
}

/// Deriving a pointer does what is said of it to every byte at its place.
pub proof fn law_pointer_is_made(
    new: NewPointer,
    global: GlobalStateInner,
    before: Track,
    after: Track,
    result: Result<(), InterpError>,
)
    requires
        before.locations.len() <= u64::MAX,
        new.place.fits(new.size, new.kind),
        new.derivation().performed(global, before, after, result),
    ensures
        new.made(before.locations, after.locations, global.active_calls@, result is Ok),
{
    let derivation = new.derivation();
    if new.size > 0 && new.place.base_offset + new.size <= before.locations.len() {
        let recorded = derivation.recorded(before);
        match new.kind {
            RefKind::Unique { two_phase } => {
                let perm = if !two_phase && new.place.unpin {
                    Permission::Unique
                } else {
                    Permission::TwoPhasedRW
                };
                assert(derivation.item(perm) == new.item(perm));
                lemma_step(
                    derivation.grant(perm),
                    derivation,
                    derivation.range(),
                    global,
                    recorded,
                    after,
                    result,
                );
            },
            RefKind::Raw { mutable: true } => {
                let perm = Permission::TwoPhasedRW;
                assert(derivation.item(perm) == new.item(perm));
                lemma_step(
                    derivation.grant(perm),
                    derivation,
                    derivation.range(),
                    global,
                    recorded,
                    after,
                    result,
                );
            },
            _ => {
                reveal(can_give);
                reveal(given);
                lemma_made_by_parts(
                    new,
                    new.place.parts@.len() as int,
                    global,
                    recorded,
                    after,
                    result,
                );
            },
        }
    }
}

/// A shared reference or `*const` that was derived has its item at each byte `i` of each part `k`
/// of what it points to: read-only and on top if the part is outside of every `UnsafeCell`, and
/// sharing a right to write if not. Either way it has the protector of the derivation.
pub proof fn law_parts_are_derived(
    derivation: Derivation,
    global: GlobalStateInner,
    before: Track,
    after: Track,
    k: int,
    i: int,
)
    requires
        before.locations.len() <= u64::MAX,
        derivation.size > 0,
        derivation.place.fits(derivation.size, derivation.kind),
        derivation.performed(global, before, after, Ok(())),
        derivation.kind is Shared || derivation.kind == (RefKind::Raw { mutable: false }),
        derivation.place.parts_disjoint(),
        0 <= k < derivation.place.parts@.len(),
        derivation.place.base_offset + derivation.place.parts@[k].0.start <= i,
        i < derivation.place.base_offset + derivation.place.parts@[k].0.start
            + derivation.place.parts@[k].0.size,
    ensures
        i < after.locations.len(),
        derivation.place.parts@[k].1 ==> after.locations[i].len() > 0
            && after.locations[i].last() == (Item {
            perm: Permission::SharedReadOnly,
            tag: derivation.new_tag,
            protector: derivation.protector,
        }),
        !derivation.place.parts@[k].1 ==> exists|m: int|
            0 <= m < after.locations[i].len() && #[trigger] after.locations[i][m] == (Item {
                perm: Permission::TwoPhasedRW,
                tag: derivation.new_tag,
                protector: derivation.protector,
            }),
{
    let new = pointer_of(derivation);
    law_pointer_is_made(new, global, before, after, Ok(()));
    assert(new.place.parts@[k].0.end() <= new.size);
    assert(new.part_has(k, i));
    effects::law_derivation_adds_its_item(
        before.locations[i],
        new.place.tag,
        new.part_item(k),
        after.locations[i],
    );
}

/// A derivation adds nothing but items with its own tag and protector, whatever they permit: any
/// other item `m` at a byte `i` has the tag and the protector of one that was there.
pub proof fn law_derived_items_have_the_protector(
    derivation: Derivation,
    global: GlobalStateInner,
    before: Track,
    after: Track,
    i: int,
    m: int,
)
    requires
        before.locations.len() <= u64::MAX,
        derivation.place.fits(derivation.size, derivation.kind),
        derivation.performed(global, before, after, Ok(())),
        derivation.place.parts_disjoint(),
        0 <= i < after.locations.len(),
        0 <= m < after.locations[i].len(),
    ensures
        i < before.locations.len(),
        ({
            let item = after.locations[i][m];
            ||| item.tag == derivation.new_tag && item.protector == derivation.protector
            ||| exists|j: int|
                0 <= j < before.locations[i].len() && (#[trigger] before.locations[i][j]).tag
                    == item.tag && before.locations[i][j].protector == item.protector
        }),
{
    let new = pointer_of(derivation);
    law_pointer_is_made(new, global, before, after, Ok(()));
    let s = before.locations[i];
    let t = after.locations[i];
    if t == s {
        assert(s[m].tag == t[m].tag);
    } else if new.kind is Shared || new.kind == (RefKind::Raw { mutable: false }) {
        let k = choose|k: int| #[trigger] new.part_has(k, i);
        effects::law_derivation_adds_nothing_else(s, new.place.tag, new.part_item(k), t, m);
    } else {
        let range = AllocRange { start: new.place.base_offset, size: new.size };
        assert(effects::inside(range, i));
        let perm = if new.place.unpin && new.kind == (RefKind::Unique { two_phase: false }) {
            Permission::Unique
        } else {
            Permission::TwoPhasedRW
        };
        effects::law_derivation_adds_nothing_else(s, new.place.tag, new.item(perm), t, m);
    }
}

/// The pointer that the derivation makes.
spec fn pointer_of(derivation: Derivation) -> NewPointer {
    NewPointer {
        place: derivation.place,
        size: derivation.size,
        kind: derivation.kind,
        tag: derivation.new_tag,
        protect: derivation.protector is Some,
        call_id: derivation.protector->Some_0,
    }
}

/// An operation on a range that derives an item is a derivation at each of its bytes.
proof fn lemma_step(
    op: StackOp,
    derivation: Derivation,
    range: AllocRange,
    global: GlobalStateInner,
    before: Track,
    after: Track,
    result: Result<(), InterpError>,
)
    requires
        op is Grant,
        before.locations.len() <= u64::MAX,
        range.within(before.locations.len() as int),
        stacks::stepped(op, derivation.place.alloc_id, range, global, before, after, result),
    ensures
        effects::range_derived(
            before.locations,
            after.locations,
            range,
            op->derived_from,
            op->new,
            global.active_calls@,
            result is Ok,
        ),
{
    let ended: Result<(), BorrowError> = match result {
        Ok(()) => Ok(()),
        Err(InterpError::ExperimentalUb(error)) => Err(error),
        Err(_) => arbitrary(),
    };
    allocation_laws::law_range_effects(
        SweepDone {
            op,
            alloc_id: derivation.place.alloc_id,
            range,
            global,
            before,
            after,
            result: ended,
        },
    );
}

/// The item can be derived at a byte.
#[verifier::opaque]
spec fn can_give(s: Seq<Item>, from: SbTag, item: Item, active: Set<CallId>) -> bool {
    effects::derivable(s, from, item, active)
}

/// The item was derived at a byte.
#[verifier::opaque]
spec fn given(s: Seq<Item>, from: SbTag, item: Item, after: Seq<Item>) -> bool {
    effects::derived(s, from, item, after)
}

/// The `k`th part was granted or refused: each of its bytes gave the item, or one of them cannot.
/// Other bytes are left alone.
spec fn part_made(
    new: NewPointer,
    k: int,
    before: Seq<Seq<Item>>,
    after: Seq<Seq<Item>>,
    active: Set<CallId>,
    ok: bool,
) -> bool {
    &&& after.len() == before.len()
    &&& forall|i: int|
        0 <= i < before.len() && !#[trigger] new.part_has(k, i) ==> after[i] == before[i]
    &&& ok ==> forall|i: int| #[trigger]
        new.part_has(k, i) ==> can_give(before[i], new.place.tag, new.part_item(k), active)
            && given(before[i], new.place.tag, new.part_item(k), after[i])
    &&& !ok ==> exists|i: int| #[trigger]
        new.part_has(k, i) && !can_give(before[i], new.place.tag, new.part_item(k), active)
}

/// What is said of a range can be said of a part.
proof fn lemma_range_is_part(
    new: NewPointer,
    k: int,
    before: Seq<Seq<Item>>,
    after: Seq<Seq<Item>>,
    active: Set<CallId>,
    ok: bool,
)
    requires
        before.len() <= u64::MAX,
        new.place.base_offset + new.size <= before.len(),
        new.place.parts_within(new.size),
        0 <= k < new.place.parts@.len(),
        effects::range_derived(
            before,
            after,
            new.derivation().part_range(k),
            new.place.tag,
            new.part_item(k),
            active,
            ok,
        ),
    ensures
        part_made(new, k, before, after, active, ok),
{
    let range = new.derivation().part_range(k);
    let from = new.place.tag;
    let item = new.part_item(k);
    assert(new.place.parts@[k].0.end() <= new.size);
    assert forall|i: int| 0 <= i < before.len() && !#[trigger] new.part_has(
        k,
        i,
    ) implies after[i] == before[i] by {
        assert(!effects::inside(range, i));
    }
    if ok {
        assert forall|i: int| #[trigger] new.part_has(k, i) implies can_give(
            before[i],
            from,
            item,
            active,
        ) && given(before[i], from, item, after[i]) by {
            assert(effects::inside(range, i));
            reveal(can_give);
            reveal(given);
            let s = before[i];
            let t = after[i];
        }
    } else {
        let i = choose|i: int|
            effects::inside(range, i) && !effects::derivable(
                #[trigger] before[i],
                from,
                item,
                active,
            );
        assert(new.part_has(k, i));
        assert(!can_give(before[i], from, item, active)) by {
            reveal(can_give);
        }
    }
}

/// One part has been granted or refused.
proof fn lemma_part_made(
    new: NewPointer,
    k: int,
    global: GlobalStateInner,
    before: Track,
    after: Track,
    result: Result<(), InterpError>,
)
    requires
        before.locations.len() <= u64::MAX,
        new.place.base_offset + new.size <= before.locations.len(),
        new.place.parts_within(new.size),
        0 <= k < new.place.parts@.len(),
        new.derivation().part_granted(k, global, before, after, result),
    ensures
        part_made(
            new,
            k,
            before.locations,
            after.locations,
            global.active_calls@,
            result is Ok,
        ),
{
    let derivation = new.derivation();
    let range = derivation.part_range(k);
    let op = derivation.grant(retag::part_perm(new.place.parts@[k].1));
    assert(op == StackOp::Grant { derived_from: new.place.tag, new: new.part_item(k) });
    assert(new.place.parts@[k].0.end() <= new.size);
    lemma_step(op, derivation, range, global, before, after, result);
    lemma_range_is_part(
        new,
        k,
        before.locations,
        after.locations,
        global.active_calls@,
        result is Ok,
    );
}

/// All but the last of the parts have been granted, and then the last one was granted or refused.
proof fn lemma_last_part(
    new: NewPointer,
    n: int,
    global: GlobalStateInner,
    before: Track,
    after: Track,
    result: Result<(), InterpError>,
) -> (mid: Track)
    requires
        before.locations.len() <= u64::MAX,
        new.place.base_offset + new.size <= before.locations.len(),
        new.place.parts_within(new.size),
        0 < n <= new.place.parts@.len(),
        new.derivation().parts_granted(n, global, before, after, result),
        !(result is Err && new.derivation().parts_granted(n - 1, global, before, after, result)),
    ensures
        new.derivation().parts_granted(n - 1, global, before, mid, Ok(())),
        mid.locations.len() == before.locations.len() ==> part_made(
            new,
            n - 1,
            mid.locations,
            after.locations,
            global.active_calls@,
            result is Ok,
        ),
{
    let derivation = new.derivation();
    let mid = choose|mid: Track|
        derivation.parts_granted(n - 1, global, before, mid, Ok(()))
            && #[trigger] derivation.part_granted(n - 1, global, mid, after, result);
    if mid.locations.len() == before.locations.len() {
        lemma_part_made(new, n - 1, global, mid, after, result);
    }
    mid
}

/// The first `n` parts have been granted, or one of them was refused.
proof fn lemma_made_by_parts(
    new: NewPointer,
    n: int,
    global: GlobalStateInner,
    before: Track,
    after: Track,
    result: Result<(), InterpError>,
)
    requires
        before.locations.len() <= u64::MAX,
        new.place.base_offset + new.size <= before.locations.len(),
        new.place.parts_within(new.size),
        0 <= n <= new.place.parts@.len(),
        new.derivation().parts_granted(n, global, before, after, result),
    ensures
        after.locations.len() == before.locations.len(),
        forall|i: int|
            0 <= i < before.locations.len() && (forall|k: int|
                k < n ==> !#[trigger] new.part_has(k, i)) ==> #[trigger] after.locations[i]
                == before.locations[i],
        new.place.parts_disjoint() && result is Ok ==> forall|k: int, i: int|
            k < n && #[trigger] new.part_has(k, i) ==> {
                &&& can_give(
                    before.locations[i],
                    new.place.tag,
                    new.part_item(k),
                    global.active_calls@,
                )
                &&& given(
                    before.locations[i],
                    new.place.tag,
                    new.part_item(k),
                    after.locations[i],
                )
            },
        new.place.parts_disjoint() && result is Err ==> exists|k: int, i: int|
            k < n && #[trigger] new.part_has(k, i) && !can_give(
                before.locations[i],
                new.place.tag,
                new.part_item(k),
                global.active_calls@,
            ),
    decreases n,
{
    let derivation = new.derivation();
    if n > 0 {
        if result is Err && derivation.parts_granted(n - 1, global, before, after, result) {
            lemma_made_by_parts(new, n - 1, global, before, after, result);
        } else {
            let mid = lemma_last_part(new, n, global, before, after, result);
            lemma_made_by_parts(new, n - 1, global, before, mid, Ok(()));
            assert forall|i: int|
                0 <= i < before.locations.len() && (forall|k: int|
                    k < n ==> !#[trigger] new.part_has(k, i)) implies #[trigger] after.locations[i]
                == before.locations[i] by {
                assert(!new.part_has(n - 1, i));
                assert(mid.locations[i] == before.locations[i]);
            }
            assert forall|i: int| new.place.parts_disjoint() && #[trigger]
                new.part_has(n - 1, i) implies mid.locations[i] == before.locations[i] by {
                assert forall|k: int| k < n - 1 implies !#[trigger] new.part_has(k, i) by {
                    let rel = i - new.place.base_offset;
                    if new.part_has(k, i) {
                        assert(new.place.parts@[k].0.covers(rel));
                        assert(new.place.parts@[n - 1].0.covers(rel));
                    }
                }
            }
            assert forall|k: int, i: int| new.place.parts_disjoint() && k < n - 1
                && #[trigger] new.part_has(k, i) implies after.locations[i] == mid.locations[i] by {
                let rel = i - new.place.base_offset;
                assert(new.place.parts@[k].0.end() <= new.size);
                if new.part_has(n - 1, i) {
                    assert(new.place.parts@[k].0.covers(rel));
                    assert(new.place.parts@[n - 1].0.covers(rel));
                }
            }
        }
    }
}

} // verus!
