//! What retagging a pointer means for the memory it points to.
use vstd::prelude::*;

use crate::error::InterpError;
use crate::machine::alloc_extra::AllocExtra;
use crate::machine::evaluator::Evaluator;
use crate::machine::hooks;
use crate::machine::memory_laws::MemoryCall;
use crate::machine::tag::{Pointer, Tag};
use crate::memory::{AllocRange, Size};
use crate::stacked_borrows::derivation_laws;
use crate::stacked_borrows::derivation_laws::NewPointer;
use crate::stacked_borrows::diagnostics::{BorrowError, DiagnosticView, HistoryEvent};
use crate::stacked_borrows::effects;
use crate::stacked_borrows::global::GlobalStateInner;
use crate::stacked_borrows::item::{AccessKind, CallId, Item, Permission, RefKind, SbTag};
use crate::stacked_borrows::report_laws;
use crate::stacked_borrows::retag;
use crate::stacked_borrows::retag::{
    Derivation, Mutability, ReborrowPlace, RetagKind, Retagging, TyKind,
};
use crate::stacked_borrows::stack::StackOp;
use crate::stacked_borrows::stacks;
use crate::stacked_borrows::stacks::{Sweep, Track};

verus! {

/// A pointer to some memory that was retagged, with what the hook found, what it left, and how it
/// ended.
pub struct RetagCall<L> {
    pub ty: TyKind,
    pub kind: RetagKind,
    pub val: Pointer<Option<Tag>>,
    pub place: ReborrowPlace,
    pub size: Size,
    pub call_id: CallId,
    pub before: Evaluator<L>,
    pub after: Evaluator<L>,
    pub extra_before: AllocExtra,
    pub extra_after: AllocExtra,
    pub result: Result<Pointer<Option<Tag>>, InterpError>,
}

impl<L> RetagCall<L> {
    /// Whether this can have happened, with Stacked Borrows and to a pointer that is to be
    /// retagged.
    pub open spec fn valid(self) -> bool {
        &&& self.size > 0
        &&& self.before.stacked_borrows is Some
        &&& self.extra_before.wf()
        &&& retag::qualification(self.ty, self.kind) matches Some((ref_kind, protect))
        &&& {
            let retagging = Retagging {
                val: self.val,
                place: self.place,
                size: Some(self.size),
                kind: ref_kind,
                protect,
                call_id: self.call_id,
            };
            &&& self.before.can_retag(self.extra_before, retagging)
            &&& self.before.retagged(
                self.extra_before,
                retagging,
                self.after,
                self.extra_after,
                self.result,
            )
        }
    }

    /// The stack of each byte before the call.
    pub open spec fn old_stacks(self) -> Seq<Seq<Item>> {
        self.extra_before.stacks_of_bytes()
    }

    /// The stack of each byte after the call.
    pub open spec fn new_stacks(self) -> Seq<Seq<Item>> {
        self.extra_after.stacks_of_bytes()
    }

    /// The calls that are running.
    pub open spec fn running(self) -> Set<CallId> {
        self.before.stacked_borrows->Some_0.active_calls@
    }

    /// The tag of the new pointer. Raw pointers may have to do without.
    pub open spec fn new_tag(self) -> SbTag {
        if self.ty is RawPtr && !self.before.stacked_borrows->Some_0.tag_raw {
            SbTag::Untagged
        } else {
            SbTag::Tagged(self.before.stacked_borrows->Some_0.next_ptr_id)
        }
    }

    /// References that are passed to a function are protected by the call.
    pub open spec fn protector(self) -> Option<CallId> {
        if self.ty is Ref && self.kind == RetagKind::FnEntry {
            Some(self.call_id)
        } else {
            None
        }
    }

    /// The new pointer.
    spec fn new_pointer(self) -> NewPointer {
        NewPointer {
            place: self.place,
            size: self.size,
            kind: match self.ty {
                TyKind::Ref(Mutability::Mut) => RefKind::Unique {
                    two_phase: self.kind == RetagKind::TwoPhase,
                },
                TyKind::Ref(Mutability::Not) => RefKind::Shared,
                TyKind::RawPtr(Mutability::Mut) => RefKind::Raw { mutable: true },
                TyKind::RawPtr(Mutability::Not) => RefKind::Raw { mutable: false },
                _ => RefKind::Unique { two_phase: false },
            },
            tag: self.new_tag(),
            protect: self.protector() is Some,
            call_id: self.call_id,
        }
    }

    /// The stacks are what the derivation of the new pointer makes of them.
    proof fn lemma_made(self)
        requires
            self.valid(),
        ensures
            self.new_pointer().place.fits(self.size, self.new_pointer().kind),
            self.new_pointer().made(
                self.old_stacks(),
                self.new_stacks(),
                self.running(),
                self.result is Ok,
            ),
    {
        let new = self.new_pointer();
        let state = self.before.stacked_borrows->Some_0;
        let stacks = self.extra_before.stacked_borrows->Some_0;
        let before = stacks.track(self.before.diagnostics);
        let tagged = Track {
            notices: before.notices + retag::tag_notices(new.kind, state),
            ..before
        };
        let ended: Result<(), InterpError> = match self.result {
            Ok(_) => Ok(()),
            Err(error) => Err(error),
        };
        derivation_laws::law_pointer_is_made(
            new,
            self.after.stacked_borrows->Some_0,
            tagged,
            self.extra_after.stacked_borrows->Some_0.track(self.after.diagnostics),
            ended,
        );
    }
}

/// A protected item on top that does not share a right to write stops what others do below it.
proof fn lemma_protected_top(s: Seq<Item>, tag: SbTag, active: Set<CallId>)
    requires
        s.len() > 0,
        effects::protected(s.last(), active),
    ensures
        s.last().perm == Permission::SharedReadOnly ==> !effects::writable(s, tag, active),
        s.last().perm == Permission::Unique && s.last().tag != tag ==> !effects::writable(
            s,
            tag,
            active,
        ) && !effects::readable(s, tag, active),
        !effects::freeable(s, tag, active),
{
    let top = s.len() - 1;
    if s[top].perm == Permission::SharedReadOnly || s[top].perm == Permission::Unique {
        if s[top].perm == Permission::SharedReadOnly || s[top].tag != tag {
            assert forall|g: int| #[trigger] effects::grants_write(
                s,
                tag,
                g,
            ) implies !effects::write_harms_none(s, g, active) by {
                assert(!effects::shares(s[top].perm));
                assert(!effects::stays(s, g, top));
            }
        }
        if s[top].perm == Permission::Unique && s[top].tag != tag {
            assert forall|g: int| #[trigger] effects::grants_read(
                s,
                tag,
                g,
            ) implies !effects::read_harms_none(s, g, active) by {
                assert(effects::loses(s, g, top));
            }
        }
    }
}

/// A shared reference or `*const` that was retagged has an item at each byte `i` of each part `k`
/// of what it points to. Where the part is outside of every `UnsafeCell`, this is read-only and on
/// top; elsewhere it shares a right to write.
pub proof fn law_shared_pointer_has_its_parts<L>(call: RetagCall<L>, k: int, i: int)
    requires
        call.valid(),
        call.result is Ok,
        call.ty == TyKind::Ref(Mutability::Not) || call.ty == TyKind::RawPtr(Mutability::Not),
        call.place.parts_disjoint(),
        0 <= k < call.place.parts@.len(),
        call.place.base_offset + call.place.parts@[k].0.start <= i,
        i < call.place.base_offset + call.place.parts@[k].0.start + call.place.parts@[k].0.size,
    ensures
        i < call.new_stacks().len(),
        call.place.parts@[k].1 ==> call.new_stacks()[i].len() > 0 && call.new_stacks()[i].last()
            == (Item {
            perm: Permission::SharedReadOnly,
            tag: call.new_tag(),
            protector: call.protector(),
        }),
        !call.place.parts@[k].1 ==> exists|m: int|
            0 <= m < call.new_stacks()[i].len() && #[trigger] call.new_stacks()[i][m] == (Item {
                perm: Permission::TwoPhasedRW,
                tag: call.new_tag(),
                protector: call.protector(),
            }),
{
    call.lemma_made();
    let new = call.new_pointer();
    assert(new.place.parts@[k].0.end() <= new.size);
    assert(new.part_has(k, i));
    effects::law_derivation_adds_its_item(call.old_stacks()[i], new.place.tag, new.part_item(k), call.new_stacks()[i]);
}

/// A mutable reference, box or `*mut` that was retagged has an item at each byte `i` that it
/// points to. This is unique and on top for references and boxes to what can be moved, but for a
/// two-phase borrow; elsewhere it shares a right to write.
pub proof fn law_mutable_pointer_has_its_bytes<L>(call: RetagCall<L>, i: int)
    requires
        call.valid(),
        call.result is Ok,
        call.ty == TyKind::Ref(Mutability::Mut) || call.ty == TyKind::Box || call.ty
            == TyKind::RawPtr(Mutability::Mut),
        call.place.base_offset <= i < call.place.base_offset + call.size,
    ensures
        i < call.new_stacks().len(),
        ({
            let unique = call.place.unpin && (call.ty == TyKind::Box || (call.ty == TyKind::Ref(
                Mutability::Mut,
            ) && call.kind != RetagKind::TwoPhase));
            let stack = call.new_stacks()[i];
            &&& unique ==> stack.len() > 0 && stack.last() == (Item {
                perm: Permission::Unique,
                tag: call.new_tag(),
                protector: call.protector(),
            })
            &&& !unique ==> exists|m: int|
                0 <= m < stack.len() && #[trigger] stack[m] == (Item {
                    perm: Permission::TwoPhasedRW,
                    tag: call.new_tag(),
                    protector: call.protector(),
                })
        }),
{
    call.lemma_made();
    let new = call.new_pointer();
    let perm = if call.place.unpin && !(new.kind == RefKind::Unique { two_phase: true })
        && !(call.ty is RawPtr) {
        Permission::Unique
    } else {
        Permission::TwoPhasedRW
    };
    assert(new.made_at_once(call.old_stacks(), call.new_stacks(), perm, call.running(), true));
    assert(effects::inside(
        AllocRange { start: new.place.base_offset, size: new.size },
        i,
    ));
    effects::law_derivation_adds_its_item(call.old_stacks()[i], new.place.tag, new.item(perm), call.new_stacks()[i]);
}

/// Retagging a pointer adds nothing but its items: an item `m` of a byte `i` has the tag and the
/// protector that some item had there before, or those of the new pointer. That is protected by the
/// call if it is a reference that is passed to a function, and not protected otherwise, whatever it
/// permits.
pub proof fn law_retagging_adds_only_its_items<L>(call: RetagCall<L>, i: int, m: int)
    requires
        call.valid(),
        call.result is Ok,
        call.place.parts_disjoint(),
        0 <= i < call.new_stacks().len(),
        0 <= m < call.new_stacks()[i].len(),
    ensures
        i < call.old_stacks().len(),
        ({
            let item = call.new_stacks()[i][m];
            ||| item.tag == call.new_tag() && item.protector == call.protector()
            ||| exists|j: int|
                0 <= j < call.old_stacks()[i].len() && (#[trigger] call.old_stacks()[i][j]).tag
                    == item.tag && call.old_stacks()[i][j].protector == item.protector
        }),
{
    call.lemma_made();
    let new = call.new_pointer();
    let s = call.old_stacks()[i];
    let t = call.new_stacks()[i];
    if t == s {
        assert(s[m].tag == t[m].tag);
    } else if new.kind is Shared || new.kind == (RefKind::Raw { mutable: false }) {
        let k = choose|k: int| #[trigger] new.part_has(k, i);
        effects::law_derivation_adds_nothing_else(s, new.place.tag, new.part_item(k), t, m);
    } else {
        let range = AllocRange { start: new.place.base_offset, size: new.size };
        assert(effects::inside(range, i));
        if call.place.unpin && new.kind == (RefKind::Unique { two_phase: false }) {
            effects::law_derivation_adds_nothing_else(s, new.place.tag, new.item(Permission::Unique), t, m);
        } else {
            effects::law_derivation_adds_nothing_else(s, new.place.tag, new.item(Permission::TwoPhasedRW), t, m);
        }
    }
}

/// Retagging a pointer leaves the bytes that it does not point to alone, whether it succeeds or
/// not.
pub proof fn law_retagging_leaves_other_bytes_alone<L>(call: RetagCall<L>, i: int)
    requires
        call.valid(),
        0 <= i < call.old_stacks().len(),
        i < call.place.base_offset || call.place.base_offset + call.size <= i,
    ensures
        call.new_stacks().len() == call.old_stacks().len(),
        call.new_stacks()[i] == call.old_stacks()[i],
{
    call.lemma_made();
    let new = call.new_pointer();
    if new.kind is Shared || new.kind == (RefKind::Raw { mutable: false }) {
        assert forall|k: int| !#[trigger] new.part_has(k, i) by {
            if 0 <= k < new.place.parts@.len() {
                assert(new.place.parts@[k].0.end() <= new.size);
            }
        }
    } else {
        let range = AllocRange { start: new.place.base_offset, size: new.size };
        assert(!effects::inside(range, i));
    }
}

/// A pointer that reaches beyond its allocation cannot be retagged, and nothing happens to memory.
pub proof fn law_retagged_pointer_is_in_bounds<L>(call: RetagCall<L>)
    requires
        call.valid(),
        call.place.base_offset + call.size > call.old_stacks().len(),
    ensures
        call.result == Err::<Pointer<Option<Tag>>, InterpError>(
            InterpError::PointerOutOfBounds {
                alloc_id: call.place.alloc_id,
                alloc_size: call.old_stacks().len() as Size,
                ptr_offset: call.place.base_offset,
                ptr_size: call.size,
            },
        ),
        call.new_stacks() == call.old_stacks(),
{
    call.lemma_made();
}

/// While a call is running, memory that a shared reference to it was passed for cannot be written
/// or freed, where it is outside of every `UnsafeCell`, by anyone: as long as nothing else happened
/// to the byte `i`, an attempt is refused.
pub proof fn law_shared_argument_cannot_be_written<L>(
    call: RetagCall<L>,
    later: MemoryCall<L>,
    tag: SbTag,
    k: int,
    i: int,
)
    requires
        call.valid(),
        call.result is Ok,
        call.ty == TyKind::Ref(Mutability::Not),
        call.kind == RetagKind::FnEntry,
        call.place.parts_disjoint(),
        0 <= k < call.place.parts@.len(),
        call.place.parts@[k].1,
        call.place.base_offset + call.place.parts@[k].0.start <= i,
        i < call.place.base_offset + call.place.parts@[k].0.start + call.place.parts@[k].0.size,
        later.valid(),
        later.op == (StackOp::Access { access: AccessKind::Write, tag }) || later.op
            == (StackOp::Dealloc { tag }),
        later.range.start <= i < later.range.start + later.range.size,
        later.old_stacks()[i] == call.new_stacks()[i],
        later.running().contains(call.call_id),
    ensures
        later.result is Err,
{
    law_shared_pointer_has_its_parts(call, k, i);
    lemma_protected_top(later.old_stacks()[i], tag, later.running());
    if !(later.extra_before.data_race && later.race is Err) {
        later.lemma_effects();
        assert(effects::inside(later.range, i));
    }
}

/// While a call is running, memory that a mutable reference to it was passed for, and that can be
/// moved, cannot be read or written with any other tag, nor freed: as long as nothing else happened
/// to the byte `i`, an attempt is refused.
pub proof fn law_mutable_argument_cannot_be_accessed<L>(
    call: RetagCall<L>,
    later: MemoryCall<L>,
    tag: SbTag,
    i: int,
)
    requires
        call.valid(),
        call.result is Ok,
        call.ty == TyKind::Ref(Mutability::Mut),
        call.kind == RetagKind::FnEntry,
        call.place.unpin,
        call.place.base_offset <= i < call.place.base_offset + call.size,
        later.valid(),
        later.op == (StackOp::Dealloc { tag }) || (tag != call.new_tag() && (later.op
            == (StackOp::Access { access: AccessKind::Read, tag }) || later.op
            == (StackOp::Access { access: AccessKind::Write, tag }))),
        later.range.start <= i < later.range.start + later.range.size,
        later.old_stacks()[i] == call.new_stacks()[i],
        later.running().contains(call.call_id),
    ensures
        later.result is Err,
{
    law_mutable_pointer_has_its_bytes(call, i);
    lemma_protected_top(later.old_stacks()[i], tag, later.running());
    if !(later.extra_before.data_race && later.race is Err) {
        later.lemma_effects();
        assert(effects::inside(later.range, i));
    }
}

/// A derived item that shares a right to write goes above its run.
proof fn lemma_goes_above(s: Seq<Item>, from: SbTag, g: int, item: Item, t: Seq<Item>)
    requires
        item.perm == Permission::TwoPhasedRW,
        effects::derived(s, from, item, t),
        0 <= g < s.len(),
        s[g].tag == from,
        s[g].perm != Permission::Disabled,
        s[g].perm != Permission::SharedReadOnly,
        forall|k: int|
            g < k < s.len() ==> (#[trigger] s[k]).tag != from || s[k].perm == Permission::Disabled
                || s[k].perm == Permission::SharedReadOnly,
    ensures
        exists|at: int| #[trigger] goes_above(s, g, at, item, t),
{
    let (h, at) = choose|h: int, at: int| #[trigger]
        effects::grants_write(s, from, h) && #[trigger] effects::put_above(
            s,
            h,
            at,
            item,
            t,
        );
    assert(effects::grants_write(s, from, g)) by {
        assert forall|k: int| g < k < s.len() implies !((#[trigger] s[k]).tag == from
            && effects::may_write(s[k].perm)) by {}
    }
    effects::lemma_one_granting(s, from, g, h);
    assert(effects::put_above(s, g, at, item, t));
    assert forall|k: int| g < k < at implies (#[trigger] s[k]).perm == Permission::SharedReadWrite
        || s[k].perm == Permission::TwoPhasedRW by {
        assert(effects::stays(s, g, at - 1));
        assert(effects::shares(s[k].perm));
    }
    if s[g].perm == Permission::Unique && at > g + 1 {
        assert(effects::stays(s, g, at - 1));
        assert(effects::shares(s[g].perm));
    }
    if at < s.len() && s[g].perm != Permission::Unique {
        assert(!effects::stays(s, g, at));
        if effects::shares(s[at].perm) {
            assert forall|k: int| g <= k <= at implies effects::shares((#[trigger] s[k]).perm) by {
                if g < k < at {
                    assert(s[k].perm == Permission::SharedReadWrite || s[k].perm
                        == Permission::TwoPhasedRW);
                }
            }
        }
    }
    if !(t == s) {
        assert(t =~= s.insert(at, item));
    }
    assert(goes_above(s, g, at, item, t));
}

/// Where a pointer is retagged that shares a right to write, its item goes above the highest item
/// `g` that it is derived from. If that is unique, it goes right above. If it shares its right to
/// write too, it goes above all that follow and do so: no such item directly follows the place of
/// the new one. If the new item is next to this place already, nothing is added.
pub proof fn law_shared_writer_goes_above_its_run<L>(call: RetagCall<L>, i: int, g: int)
    requires
        call.valid(),
        call.result is Ok,
        call.ty == TyKind::RawPtr(Mutability::Mut) || (call.ty == TyKind::Ref(Mutability::Mut)
            && call.kind == RetagKind::TwoPhase),
        call.place.base_offset <= i < call.place.base_offset + call.size,
        0 <= g < call.old_stacks()[i].len(),
        call.old_stacks()[i][g].tag == call.place.tag,
        call.old_stacks()[i][g].perm != Permission::Disabled,
        call.old_stacks()[i][g].perm != Permission::SharedReadOnly,
        forall|k: int|
            g < k < call.old_stacks()[i].len() ==> (#[trigger] call.old_stacks()[i][k]).tag
                != call.place.tag || call.old_stacks()[i][k].perm == Permission::Disabled
                || call.old_stacks()[i][k].perm == Permission::SharedReadOnly,
    ensures
        exists|at: int| #[trigger]
            goes_above(
                call.old_stacks()[i],
                g,
                at,
                Item {
                    perm: Permission::TwoPhasedRW,
                    tag: call.new_tag(),
                    protector: call.protector(),
                },
                call.new_stacks()[i],
            ),
{
    call.lemma_made();
    let new = call.new_pointer();
    let s = call.old_stacks()[i];
    let t = call.new_stacks()[i];
    let item = new.item(Permission::TwoPhasedRW);
    assert(new.made_at_once(
        call.old_stacks(),
        call.new_stacks(),
        Permission::TwoPhasedRW,
        call.running(),
        true,
    ));
    assert(effects::inside(
        AllocRange { start: new.place.base_offset, size: new.size },
        i,
    ));
    lemma_goes_above(s, new.place.tag, g, item, t);
}

/// The item was put at `at`, above the item at `g` and the shared writers that follow it, or was
/// next to that place already.
pub open spec fn goes_above(s: Seq<Item>, g: int, at: int, item: Item, t: Seq<Item>) -> bool {
    &&& g < at <= s.len()
    &&& s[g].perm == Permission::Unique ==> at == g + 1
    &&& forall|k: int|
        g < k < at ==> (#[trigger] s[k]).perm == Permission::SharedReadWrite || s[k].perm
            == Permission::TwoPhasedRW
    &&& s[g].perm != Permission::Unique && at < s.len() ==> s[at].perm
        != Permission::SharedReadWrite && s[at].perm != Permission::TwoPhasedRW
    &&& t == s.insert(at, item) || (t == s && (s[at - 1] == item || (at < s.len() && s[at]
        == item)))
}

/// Whether it succeeds or not, retagging a pointer is recorded before anything is checked: where
/// the new pointer comes from and where it points to, and that it is protected, if it is. After
/// that nothing but invalidations is recorded. What was recorded before stays.
pub proof fn law_retagging_is_recorded<L>(call: RetagCall<L>)
    requires
        call.valid(),
    ensures
        ({
            let old_history = call.extra_before.stacked_borrows->Some_0.history@;
            let new_history = call.extra_after.stacked_borrows->Some_0.history@;
            let n = old_history.len() as int;
            let first = if call.protector() is Some {
                n + 2
            } else {
                n + 1
            };
            &&& first <= new_history.len()
            &&& forall|k: int| 0 <= k < n ==> #[trigger] new_history[k] == old_history[k]
            &&& new_history[n] == (HistoryEvent::Creation {
                parent: Some(call.place.tag),
                tag: call.new_tag(),
                range: AllocRange {
                    start: call.place.base_offset,
                    size: (call.place.base_offset + call.size) as Size,
                },
            })
            &&& call.protector() is Some ==> new_history[n + 1] == (HistoryEvent::Protector {
                derived_from: call.place.tag,
                tag: call.new_tag(),
            })
            &&& forall|k: int|
                first <= k < new_history.len() ==> (#[trigger] new_history[k]) is Invalidation
        }),
{
    let before = call.extra_before.stacked_borrows->Some_0.track(call.before.diagnostics);
    let recorded = lemma_recorded_first(call);
    let n = before.history.len() as int;
    assert(recorded.history[n] == (HistoryEvent::Creation {
        parent: Some(call.place.tag),
        tag: call.new_tag(),
        range: AllocRange {
            start: call.place.base_offset,
            size: (call.place.base_offset + call.size) as Size,
        },
    }));
}

/// A retagging first makes a tag and records the derivation, and then works on the stacks.
proof fn lemma_recorded_first<L>(call: RetagCall<L>) -> (recorded: Track)
    requires
        call.valid(),
    ensures
        ({
            let new = call.new_pointer();
            let state = call.before.stacked_borrows->Some_0;
            let before = call.extra_before.stacked_borrows->Some_0.track(call.before.diagnostics);
            let after = call.extra_after.stacked_borrows->Some_0.track(call.after.diagnostics);
            &&& recorded == new.derivation().recorded(
                Track {
                    notices: before.notices + retag::tag_notices(new.kind, state),
                    ..before
                },
            )
            &&& only_invalidations(recorded, after)
        }),
{
    let new = call.new_pointer();
    let derivation = new.derivation();
    let state = call.before.stacked_borrows->Some_0;
    let before = call.extra_before.stacked_borrows->Some_0.track(call.before.diagnostics);
    let tagged = Track {
        notices: before.notices + retag::tag_notices(new.kind, state),
        ..before
    };
    let after = call.extra_after.stacked_borrows->Some_0.track(call.after.diagnostics);
    let recorded = derivation.recorded(tagged);
    let ended: Result<(), InterpError> = match call.result {
        Ok(_) => Ok(()),
        Err(error) => Err(error),
    };
    let global = call.after.stacked_borrows->Some_0;
    if !(new.place.base_offset + new.size > before.locations.len()) {
        match retag::uniform_perm(new.kind, new.place.unpin) {
            Some(perm) => {
                lemma_only_invalidations(
                    derivation.grant(perm),
                    derivation,
                    derivation.range(),
                    global,
                    recorded,
                    after,
                    ended,
                );
            },
            None => {
                lemma_parts_only_invalidate(
                    derivation,
                    new.place.parts@.len() as int,
                    global,
                    recorded,
                    after,
                    ended,
                );
            },
        }
    }
    recorded
}

/// Retagging a pointer is reported exactly if its new tag is one to report about, before anything
/// that happens to the stacks. What was reported before stays.
pub proof fn law_retagging_is_reported<L>(call: RetagCall<L>)
    requires
        call.valid(),
    ensures
        ({
            let n = call.before.diagnostics@.len() as int;
            let id = call.before.stacked_borrows->Some_0.next_ptr_id;
            let told = call.new_tag() == SbTag::Tagged(id)
                && call.before.stacked_borrows->Some_0.tracked_pointer_tags@.contains(id);
            let first = if told {
                n + 1
            } else {
                n
            };
            &&& first <= call.after.diagnostics@.len()
            &&& forall|k: int|
                0 <= k < n ==> #[trigger] call.after.diagnostics@[k] == call.before.diagnostics@[k]
            &&& told ==> call.after.diagnostics@[n] == DiagnosticView::CreatedPointerTag(id)
            &&& forall|k: int|
                first <= k < call.after.diagnostics@.len() ==> report_laws::about_a_stack(
                    #[trigger] call.after.diagnostics@[k],
                )
        }),
{
    let recorded = lemma_recorded_first(call);
    let before = call.extra_before.stacked_borrows->Some_0.track(call.before.diagnostics);
    let after = call.extra_after.stacked_borrows->Some_0.track(call.after.diagnostics);
    let n = before.notices.len() as int;
    assert forall|k: int| 0 <= k < n implies #[trigger] after.notices[k] == before.notices[k] by {
        assert(recorded.notices[k] == before.notices[k]);
    }
    if recorded.notices.len() > n {
        assert(after.notices[n] == recorded.notices[n]);
    }
}

/// The history only gets invalidations, and the reports only what is about stacks.
spec fn only_invalidations(before: Track, after: Track) -> bool {
    &&& before.notices.len() <= after.notices.len()
    &&& forall|k: int|
        0 <= k < before.notices.len() ==> #[trigger] after.notices[k] == before.notices[k]
    &&& forall|k: int|
        before.notices.len() <= k < after.notices.len() ==> report_laws::about_a_stack(
            #[trigger] after.notices[k],
        )
    &&& before.history.len() <= after.history.len()
    &&& forall|k: int|
        0 <= k < before.history.len() ==> #[trigger] after.history[k] == before.history[k]
    &&& forall|k: int|
        before.history.len() <= k < after.history.len() ==> (#[trigger] after.history[k])
            is Invalidation
}

/// An operation on a range adds nothing but invalidations to the history.
proof fn lemma_only_invalidations(
    op: StackOp,
    derivation: Derivation,
    range: AllocRange,
    global: GlobalStateInner,
    before: Track,
    after: Track,
    result: Result<(), InterpError>,
)
    requires
        stacks::stepped(op, derivation.place.alloc_id, range, global, before, after, result),
    ensures
        only_invalidations(before, after),
{
    let sweep = Sweep {
        before: before.locations,
        op,
        alloc_id: derivation.place.alloc_id,
        range,
        global,
    };
    let ended: Result<(), BorrowError> = match result {
        Ok(()) => Ok(()),
        Err(InterpError::ExperimentalUb(error)) => Err(error),
        Err(_) => arbitrary(),
    };
    let (cuts, n) = choose|cuts: Seq<Size>, n: int|
        {
            &&& #[trigger] sweep.performed(cuts, n, after.locations, ended)
            &&& after.notices == before.notices + sweep.notices(cuts, n)
            &&& after.history == before.history + sweep.history(cuts, n)
        };
    lemma_runs_only_invalidate(sweep, cuts, n);
}

/// What the runs of an operation record and report is about stacks.
pub proof fn lemma_runs_only_invalidate(sweep: Sweep, cuts: Seq<Size>, n: int)
    ensures
        forall|k: int|
            0 <= k < sweep.history(cuts, n).len() ==> (#[trigger] sweep.history(cuts, n)[k])
                is Invalidation,
        forall|k: int|
            0 <= k < sweep.notices(cuts, n).len() ==> report_laws::about_a_stack(
                #[trigger] sweep.notices(cuts, n)[k],
            ),
    decreases n,
{
    if n > 0 {
        lemma_runs_only_invalidate(sweep, cuts, n - 1);
        report_laws::law_operations_report_on_stacks(
            sweep.before[cuts[n - 1] as int],
            sweep.op,
            sweep.site(cuts[n - 1]),
            sweep.global,
        );
        report_laws::law_operations_record_invalidations(
            sweep.before[cuts[n - 1] as int],
            sweep.op,
            sweep.site(cuts[n - 1]),
            sweep.global,
        );
        let outcome = sweep.outcome(cuts[n - 1]);
        let earlier = sweep.notices(cuts, n - 1);
        let all = sweep.notices(cuts, n);
        assert forall|k: int| 0 <= k < all.len() implies report_laws::about_a_stack(
            #[trigger] all[k],
        ) by {
            if k < earlier.len() {
                assert(all[k] == earlier[k]);
            } else {
                assert(all[k] == outcome.notices[k - earlier.len()]);
            }
        }
    }
}

proof fn lemma_parts_only_invalidate(
    derivation: Derivation,
    n: int,
    global: GlobalStateInner,
    before: Track,
    after: Track,
    result: Result<(), InterpError>,
)
    requires
        derivation.parts_granted(n, global, before, after, result),
    ensures
        only_invalidations(before, after),
    decreases n,
{
    if n > 0 {
        if result is Err && derivation.parts_granted(n - 1, global, before, after, result) {
            lemma_parts_only_invalidate(derivation, n - 1, global, before, after, result);
        } else {
            let mid = choose|mid: Track|
                derivation.parts_granted(n - 1, global, before, mid, Ok(()))
                    && #[trigger] derivation.part_granted(n - 1, global, mid, after, result);
            lemma_parts_only_invalidate(derivation, n - 1, global, before, mid, Ok(()));
            lemma_only_invalidations(
                derivation.grant(retag::part_perm(derivation.place.parts@[n - 1].1)),
                derivation,
                derivation.part_range(n - 1),
                global,
                mid,
                after,
                result,
            );
            assert forall|k: int| 0 <= k < before.notices.len() implies #[trigger] after.notices[k]
                == before.notices[k] by {
                assert(mid.notices[k] == before.notices[k]);
            }
            assert forall|k: int| before.notices.len() <= k
                < after.notices.len() implies report_laws::about_a_stack(
                #[trigger] after.notices[k],
            ) by {
                if k < mid.notices.len() {
                    assert(report_laws::about_a_stack(mid.notices[k]));
                }
            }
            assert forall|k: int| 0 <= k < before.history.len() implies #[trigger] after.history[k]
                == before.history[k] by {
                assert(mid.history[k] == before.history[k]);
            }
            assert forall|k: int| before.history.len() <= k < after.history.len() implies (
            #[trigger] after.history[k]) is Invalidation by {
                if k < mid.history.len() {
                    assert(mid.history[k] is Invalidation);
                }
            }
        }
    }
}

/// Retagging a pointer hands out exactly one pointer ID, the next one; none for a raw pointer if
/// these are not told apart. Nothing else about the state of the borrow tracker changes.
pub proof fn law_retagging_hands_out_one_id<L>(call: RetagCall<L>)
    requires
        call.valid(),
    ensures
        ({
            let state = call.before.stacked_borrows->Some_0;
            let state_after = call.after.stacked_borrows->Some_0;
            &&& call.after.stacked_borrows is Some
            &&& call.new_tag() is Tagged ==> state_after.next_ptr_id == state.next_ptr_id + 1
            &&& call.new_tag() is Untagged ==> state_after.next_ptr_id == state.next_ptr_id
            &&& state_after.base_ptr_ids == state.base_ptr_ids
            &&& state_after.next_call_id == state.next_call_id
            &&& state_after.active_calls == state.active_calls
            &&& state_after.tracked_pointer_tags == state.tracked_pointer_tags
            &&& state_after.tracked_call_ids == state.tracked_call_ids
            &&& state_after.tracked_alloced_location_ids == state.tracked_alloced_location_ids
            &&& state_after.tag_raw == state.tag_raw
        }),
{
}

/// A pointer that was retagged has the address that it had, and points into the same allocation.
/// Its tag is the new one.
pub proof fn law_retagged_pointer_has_the_new_tag<L>(call: RetagCall<L>)
    requires
        call.valid(),
        call.result is Ok,
    ensures
        call.result->Ok_0.offset == call.val.offset,
        call.val.provenance is None ==> call.result->Ok_0.provenance is None,
        call.val.provenance matches Some(old) ==> call.result->Ok_0.provenance == Some(
            Tag { alloc_id: old.alloc_id, sb: call.new_tag() },
        ),
{
}

/// A return place is retagged like a mutable reference that is passed to the function: it has a
/// unique item on top where it can be moved, and is protected by the call.
pub proof fn law_return_place_is_like_an_argument<L>(
    before: Evaluator<L>,
    extra: AllocExtra,
    val: Pointer<Option<Tag>>,
    place: ReborrowPlace,
    size: Size,
    call_id: CallId,
    after: Evaluator<L>,
    extra_after: AllocExtra,
    result: Result<Pointer<Option<Tag>>, InterpError>,
)
    requires
        size > 0,
        before.stacked_borrows is Some,
        extra.wf(),
        before.can_retag(extra, hooks::return_retagging(val, place, size, call_id)),
        before.retagged(
            extra,
            hooks::return_retagging(val, place, size, call_id),
            after,
            extra_after,
            result,
        ),
    ensures
        (RetagCall {
            ty: TyKind::Ref(Mutability::Mut),
            kind: RetagKind::FnEntry,
            val,
            place,
            size,
            call_id,
            before,
            after,
            extra_before: extra,
            extra_after,
            result,
        }).valid(),
{
}

/// A pointer to nothing can always be retagged. It gets a new tag as any other pointer would, and
/// nothing happens to memory.
pub proof fn law_pointer_to_nothing_is_retagged<L>(
    before: Evaluator<L>,
    extra: AllocExtra,
    retagging: Retagging,
    after: Evaluator<L>,
    extra_after: AllocExtra,
    result: Result<Pointer<Option<Tag>>, InterpError>,
)
    requires
        before.stacked_borrows is Some,
        retagging.size == Some(0u64),
        before.retagged(extra, retagging, after, extra_after, result),
    ensures
        result is Ok,
        extra_after == extra,
        ({
            let state = before.stacked_borrows->Some_0;
            let state_after = after.stacked_borrows->Some_0;
            let untagged = (retagging.kind is Raw) && !state.tag_raw;
            let ptr = result->Ok_0;
            &&& ptr.offset == retagging.val.offset
            &&& retagging.val.provenance is None ==> ptr.provenance is None
            &&& retagging.val.provenance matches Some(old) ==> {
                &&& ptr.provenance matches Some(new)
                &&& new.alloc_id == old.alloc_id
                &&& untagged ==> new.sb == SbTag::Untagged
                &&& !untagged ==> new.sb == SbTag::Tagged(state.next_ptr_id)
            }
            &&& untagged ==> state_after.next_ptr_id == state.next_ptr_id
            &&& !untagged ==> state_after.next_ptr_id == state.next_ptr_id + 1
        }),
{
}

/// As what a pointer is retagged depends on its type: mutable references and boxes are unique, and
/// a two-phase borrow only if that is why it is retagged and it is a reference; other references
/// are shared; raw pointers are as mutable as their type says.
pub proof fn law_pointers_are_retagged_as_what_they_are(ty: TyKind, kind: RetagKind)
    ensures
        retag::qualification(ty, kind) matches Some((ref_kind, protect)) ==> {
            &&& ref_kind is Shared <==> ty == TyKind::Ref(Mutability::Not)
            &&& ref_kind is Unique <==> ty == TyKind::Ref(Mutability::Mut) || ty == TyKind::Box
            &&& ref_kind is Raw <==> ty is RawPtr
            &&& ref_kind matches RefKind::Raw { mutable } ==> (mutable <==> ty == TyKind::RawPtr(
                Mutability::Mut,
            ))
            &&& ref_kind matches RefKind::Unique { two_phase } ==> (two_phase <==> ty is Ref && kind
                == RetagKind::TwoPhase)
        },
{
}

/// When what a pointer points to cannot be found, its tag is used up all the same: as many
/// pointer IDs are handed out, and the same is reported, as if it pointed to nothing.
pub proof fn law_refused_retagging_uses_up_a_tag<L>(
    before: Evaluator<L>,
    extra: AllocExtra,
    retagging: Retagging,
    refused: Evaluator<L>,
    after: Evaluator<L>,
    extra_after: AllocExtra,
    result: Result<Pointer<Option<Tag>>, InterpError>,
)
    requires
        before.stacked_borrows is Some,
        retagging.size == Some(0u64),
        before.retagged(extra, retagging, after, extra_after, result),
        before.tag_used_up(retagging.kind, refused),
    ensures
        refused.stacked_borrows is Some && after.stacked_borrows is Some,
        refused.stacked_borrows->Some_0.next_ptr_id == after.stacked_borrows->Some_0.next_ptr_id,
        refused.stacked_borrows->Some_0.base_ptr_ids
            == before.stacked_borrows->Some_0.base_ptr_ids,
        refused.stacked_borrows->Some_0.active_calls
            == before.stacked_borrows->Some_0.active_calls,
        refused.diagnostics@ == after.diagnostics@,
{
}

/// A pointer to nothing that is retagged is reported exactly if its new tag is one to report about.
pub proof fn law_tag_for_nothing_is_reported<L>(
    before: Evaluator<L>,
    extra: AllocExtra,
    retagging: Retagging,
    after: Evaluator<L>,
    extra_after: AllocExtra,
    result: Result<Pointer<Option<Tag>>, InterpError>,
)
    requires
        before.stacked_borrows is Some,
        retagging.size == Some(0u64),
        before.retagged(extra, retagging, after, extra_after, result),
    ensures
        ({
            let state = before.stacked_borrows->Some_0;
            let told = !((retagging.kind is Raw) && !state.tag_raw)
                && state.tracked_pointer_tags@.contains(state.next_ptr_id);
            &&& told ==> after.diagnostics@ == before.diagnostics@.push(
                DiagnosticView::CreatedPointerTag(state.next_ptr_id),
            )
            &&& !told ==> after.diagnostics@ == before.diagnostics@
        }),
{
}

/// A pointer stays as it is without Stacked Borrows, and if it cannot be known how much it points
/// to: nothing happens to the machine nor to memory.
pub proof fn law_pointer_of_unknown_size_stays<L>(
    before: Evaluator<L>,
    extra: AllocExtra,
    retagging: Retagging,
    after: Evaluator<L>,
    extra_after: AllocExtra,
    result: Result<Pointer<Option<Tag>>, InterpError>,
)
    requires
        before.stacked_borrows is None || retagging.size is None,
        before.retagged(extra, retagging, after, extra_after, result),
    ensures
        result is Ok,
        result->Ok_0.provenance == retagging.val.provenance,
        result->Ok_0.offset == retagging.val.offset,
        after == before,
        extra_after == extra,
{
}

} // verus!
