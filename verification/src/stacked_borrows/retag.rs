//! Retagging/reborrowing. There is some policy in here, such as which permissions
//! to grant for which references, and when to add protectors.
use vstd::prelude::*;

use crate::error;
use crate::error::InterpError;
use crate::machine::tag::{Pointer, Tag};
use crate::memory::{alloc_range, AllocId, AllocRange, Size};
use crate::stacked_borrows::derivation_laws;
use crate::stacked_borrows::derivation_laws::NewPointer;
use crate::stacked_borrows::diagnostics::{DiagnosticView, Diagnostics, HistoryEvent};
use crate::stacked_borrows::global::GlobalStateInner;
use crate::stacked_borrows::item::{CallId, Item, Permission, RefKind, SbTag};
use crate::stacked_borrows::stack::StackOp;
use crate::stacked_borrows::stacks;
use crate::stacked_borrows::stacks::{Stacks, Track};

verus! {

/// Whether something may be changed through a pointer.
#[derive(Copy, Clone, Debug, PartialEq, Eq, Structural)]
pub enum Mutability {
    Mut,
    Not,
}

/// Why a value is retagged.
#[derive(Copy, Clone, Debug, PartialEq, Eq, Structural)]
pub enum RetagKind {
    /// The initial retag when entering a function.
    FnEntry,
    /// Retag preparing for a two-phase borrow.
    TwoPhase,
    /// Retagging raw pointers.
    Raw,
    /// A "normal" retag.
    Default,
}

/// A type, as far as retagging goes.
#[derive(Copy, Clone, Debug, PartialEq, Eq, Structural)]
pub enum TyKind {
    Ref(Mutability),
    RawPtr(Mutability),
    Box,
    /// Anything that is not a "bare" reference, raw pointer or box.
    Other,
}

/// The memory that a pointer points to.
#[derive(Debug)]
pub struct ReborrowPlace {
    pub alloc_id: AllocId,
    /// Where in the allocation it points to.
    pub base_offset: Size,
    /// The tag of the pointer.
    pub tag: SbTag,
    /// Whether the type of what it points to is `Unpin`.
    pub unpin: bool,
    /// The parts of what it points to, relative to its start, each with whether it is outside of
    /// every `UnsafeCell`.
    pub parts: Vec<(AllocRange, bool)>,
}

/// Whether and as what a value of the type is retagged, and whether it gets a protector: on
/// function entry, references do.
pub open spec fn qualification(ty: TyKind, kind: RetagKind) -> Option<(RefKind, bool)> {
    match ty {
        TyKind::Ref(Mutability::Mut) => Some(
            (
                RefKind::Unique { two_phase: kind == RetagKind::TwoPhase },
                kind == RetagKind::FnEntry,
            ),
        ),
        TyKind::Ref(Mutability::Not) => Some((RefKind::Shared, kind == RetagKind::FnEntry)),
        TyKind::RawPtr(mutbl) => if kind == RetagKind::Raw {
            Some((RefKind::Raw { mutable: mutbl == Mutability::Mut }, false))
        } else {
            None
        },
        TyKind::Box => Some((RefKind::Unique { two_phase: false }, false)),
        TyKind::Other => None,
    }
}

/// Determine mutability and whether to add a protector.
pub fn qualify(ty: TyKind, kind: RetagKind) -> (found: Option<(RefKind, bool)>)
    ensures
        found == qualification(ty, kind),
{
    match ty {
        // References are simple.
        TyKind::Ref(Mutability::Mut) => Some(
            (
                RefKind::Unique { two_phase: kind == RetagKind::TwoPhase },
                kind == RetagKind::FnEntry,
            ),
        ),
        TyKind::Ref(Mutability::Not) => Some((RefKind::Shared, kind == RetagKind::FnEntry)),
        // Raw pointers need to be enabled.
        TyKind::RawPtr(mutbl) => {
            if kind == RetagKind::Raw {
                Some((RefKind::Raw { mutable: mutbl == Mutability::Mut }, false))
            } else {
                None
            }
        },
        // Boxes do not get a protector: protectors reflect that references outlive the call
        // they were passed in to; that's just not the case for boxes.
        TyKind::Box => Some((RefKind::Unique { two_phase: false }, false)),
        TyKind::Other => None,
    }
}

/// The permission of the new pointer for all that it points to. There is none for shared
/// references and `*const`, where it is not uniform. Only if the type is unpin do we actually
/// enforce uniqueness.
pub open spec fn uniform_perm(kind: RefKind, unpin: bool) -> Option<Permission> {
    match kind {
        RefKind::Unique { two_phase } => Some(
            if !two_phase && unpin {
                Permission::Unique
            } else {
                Permission::TwoPhasedRW
            },
        ),
        RefKind::Raw { mutable: true } => Some(Permission::TwoPhasedRW),
        RefKind::Shared => None,
        RefKind::Raw { mutable: false } => None,
    }
}

/// The permission of a shared reference or `*const` for a part of what it points to. We are only
/// ever `SharedReadOnly` inside the frozen bits.
pub open spec fn part_perm(frozen: bool) -> Permission {
    if frozen {
        Permission::SharedReadOnly
    } else {
        Permission::TwoPhasedRW
    }
}

/// A new pointer that is derived from the place's.
pub struct Derivation {
    pub place: ReborrowPlace,
    pub size: Size,
    pub kind: RefKind,
    pub new_tag: SbTag,
    pub protector: Option<CallId>,
}

impl ReborrowPlace {
    /// Whether a new pointer of the kind can point to `size` bytes here: they are in the address
    /// space, and if it needs to know about the parts, these lie inside of them.
    pub open spec fn fits(self, size: Size, kind: RefKind) -> bool {
        size > 0 ==> {
            &&& self.base_offset + size <= u64::MAX
            &&& uniform_perm(kind, self.unpin) is None ==> self.parts_within(size)
        }
    }

    /// Whether no two parts overlap.
    pub open spec fn parts_disjoint(self) -> bool {
        forall|j: int, k: int, i: int|
            #![trigger self.parts@[j].0.covers(i), self.parts@[k].0.covers(i)]
            0 <= j < k < self.parts@.len() && self.parts@[j].0.covers(i)
                ==> !self.parts@[k].0.covers(i)
    }

    /// Whether all parts lie inside the `size` bytes that the pointer points to.
    pub open spec fn parts_within(self, size: Size) -> bool {
        forall|k: int|
            0 <= k < self.parts@.len() ==> (#[trigger] self.parts@[k]).0.end() <= size
    }
}

impl Derivation {
    pub open spec fn item(self, perm: Permission) -> Item {
        Item { perm, tag: self.new_tag, protector: self.protector }
    }

    pub open spec fn grant(self, perm: Permission) -> StackOp {
        StackOp::Grant { derived_from: self.place.tag, new: self.item(perm) }
    }

    /// The bytes of the allocation that the pointer points to.
    pub open spec fn range(self) -> AllocRange {
        AllocRange { start: self.place.base_offset, size: self.size }
    }

    /// The `k`th part in the allocation.
    pub open spec fn part_range(self, k: int) -> AllocRange {
        AllocRange {
            start: (self.place.base_offset + self.place.parts@[k].0.start) as Size,
            size: self.place.parts@[k].0.size,
        }
    }

    /// What is recorded of the derivation before anything is checked. The size that is recorded
    /// is the offset at which what the pointer points to ends.
    pub open spec fn recorded(self, before: Track) -> Track {
        let creation = HistoryEvent::Creation {
            parent: Some(self.place.tag),
            tag: self.new_tag,
            range: AllocRange {
                start: self.place.base_offset,
                size: (self.place.base_offset + self.size) as Size,
            },
        };
        let events = if self.protector is Some {
            seq![
                creation,
                HistoryEvent::Protector { derived_from: self.place.tag, tag: self.new_tag },
            ]
        } else {
            seq![creation]
        };
        Track { history: before.history + events, ..before }
    }

    /// Whether granting the items for the first `n` parts, one part after the other until one is
    /// refused, turns `before` into `after` and ends with `result`.
    pub open spec fn parts_granted(
        self,
        n: int,
        global: GlobalStateInner,
        before: Track,
        after: Track,
        result: Result<(), InterpError>,
    ) -> bool
        decreases n,
    {
        if n <= 0 {
            after == before && result == Ok::<(), InterpError>(())
        } else {
            ||| result is Err && self.parts_granted(n - 1, global, before, after, result)
            ||| exists|mid: Track|
                self.parts_granted(n - 1, global, before, mid, Ok(()))
                    && #[trigger] self.part_granted(n - 1, global, mid, after, result)
        }
    }

    /// Whether granting the item for the `k`th part turns `before` into `after` and ends with
    /// `result`.
    pub open spec fn part_granted(
        self,
        k: int,
        global: GlobalStateInner,
        before: Track,
        after: Track,
        result: Result<(), InterpError>,
    ) -> bool {
        stacks::stepped(
            self.grant(part_perm(self.place.parts@[k].1)),
            self.place.alloc_id,
            self.part_range(k),
            global,
            before,
            after,
            result,
        )
    }

    /// Whether deriving the pointer turns `before` into `after` and ends with `result`. For a
    /// pointer to nothing, nothing happens. Any other pointer must not point beyond the
    /// allocation, and the pointer it is derived from must be able to grant what it needs.
    pub open spec fn performed(
        self,
        global: GlobalStateInner,
        before: Track,
        after: Track,
        result: Result<(), InterpError>,
    ) -> bool {
        if self.size == 0 {
            after == before && result is Ok
        } else {
            let recorded = self.recorded(before);
            if self.range().end() > before.locations.len() {
                after == recorded && result == Err::<(), InterpError>(
                    InterpError::PointerOutOfBounds {
                        alloc_id: self.place.alloc_id,
                        alloc_size: before.locations.len() as Size,
                        ptr_offset: self.place.base_offset,
                        ptr_size: self.size,
                    },
                )
            } else {
                match uniform_perm(self.kind, self.place.unpin) {
                    Some(perm) => stacks::stepped(
                        self.grant(perm),
                        self.place.alloc_id,
                        self.range(),
                        global,
                        recorded,
                        after,
                        result,
                    ),
                    None => self.parts_granted(
                        self.place.parts@.len() as int,
                        global,
                        recorded,
                        after,
                        result,
                    ),
                }
            }
        }
    }
}

/// Granting one part more.
proof fn lemma_next_part(
    derivation: Derivation,
    k: int,
    global: GlobalStateInner,
    before: Track,
    mid: Track,
    after: Track,
    result: Result<(), InterpError>,
)
    requires
        0 <= k,
        derivation.parts_granted(k, global, before, mid, Ok(())),
        derivation.part_granted(k, global, mid, after, result),
    ensures
        derivation.parts_granted(k + 1, global, before, after, result),
{
    assert(derivation.part_granted((k + 1) - 1, global, mid, after, result));
}

/// Once a part was refused, the parts after it do not matter.
proof fn lemma_refused_part_ends(
    derivation: Derivation,
    n: int,
    m: int,
    global: GlobalStateInner,
    before: Track,
    after: Track,
    result: Result<(), InterpError>,
)
    requires
        0 <= n <= m,
        result is Err,
        derivation.parts_granted(n, global, before, after, result),
    ensures
        derivation.parts_granted(m, global, before, after, result),
    decreases m - n,
{
    if n < m {
        assert(derivation.parts_granted(n + 1, global, before, after, result));
        lemma_refused_part_ends(derivation, n + 1, m, global, before, after, result);
    }
}

/// Derives a new pointer from one to the given place: grants it permission for the `size` bytes
/// there. With `protect`, its items cannot be popped while the call runs.
pub fn reborrow(
    stacks: &mut Stacks,
    place: &ReborrowPlace,
    size: Size,
    kind: RefKind,
    new_tag: SbTag,
    protect: bool,
    call_id: CallId,
    global: &GlobalStateInner,
    diagnostics: &mut Diagnostics,
) -> (result: Result<(), InterpError>)
    requires
        old(stacks).wf(),
        place.fits(size, kind),
    ensures
        final(stacks).wf(),
        final(stacks).history.local_crates == old(stacks).history.local_crates,
        (Derivation {
            place: *place,
            size,
            kind,
            new_tag,
            protector: if protect {
                Some(call_id)
            } else {
                None
            },
        }).performed(
            *global,
            old(stacks).track(*old(diagnostics)),
            final(stacks).track(*final(diagnostics)),
            result,
        ),
        (NewPointer { place: *place, size, kind, tag: new_tag, protect, call_id }).made(
            old(stacks).locations(),
            final(stacks).locations(),
            global.active_calls@,
            result is Ok,
        ),
{
    let result = reborrow_bytes(
        stacks,
        place,
        size,
        kind,
        new_tag,
        protect,
        call_id,
        global,
        diagnostics,
    );
    proof {
        derivation_laws::law_pointer_is_made(
            NewPointer { place: *place, size, kind, tag: new_tag, protect, call_id },
            *global,
            old(stacks).track(*old(diagnostics)),
            stacks.track(*diagnostics),
            result,
        );
    }
    result
}

/// Grants a new pointer permission for the bytes it points to.
fn reborrow_bytes(
    stacks: &mut Stacks,
    place: &ReborrowPlace,
    size: Size,
    kind: RefKind,
    new_tag: SbTag,
    protect: bool,
    call_id: CallId,
    global: &GlobalStateInner,
    diagnostics: &mut Diagnostics,
) -> (result: Result<(), InterpError>)
    requires
        old(stacks).wf(),
        place.fits(size, kind),
    ensures
        final(stacks).wf(),
        final(stacks).history.local_crates == old(stacks).history.local_crates,
        (Derivation {
            place: *place,
            size,
            kind,
            new_tag,
            protector: if protect {
                Some(call_id)
            } else {
                None
            },
        }).performed(
            *global,
            old(stacks).track(*old(diagnostics)),
            final(stacks).track(*final(diagnostics)),
            result,
        ),
{
    if size == 0 {
        // Nothing to do for zero-sized accesses.
        return Ok(());
    }
    let protector = if protect {
        Some(call_id)
    } else {
        None
    };
    let ghost derivation = Derivation { place: *place, size, kind, new_tag, protector };
    let ghost before = stacks.track(*diagnostics);
    let base_offset = place.base_offset;
    stacks.history.log_creation(
        Some(place.tag),
        new_tag,
        alloc_range(base_offset, base_offset + size),
    );
    if protect {
        stacks.history.log_protector(place.tag, new_tag);
    }
    assert(stacks.track(*diagnostics) =~= derivation.recorded(before));
    // Ensure we bail out if the pointer goes out-of-bounds.
    let alloc_size = stacks.stacks.size;
    if base_offset + size > alloc_size {
        return Err(
            InterpError::PointerOutOfBounds {
                alloc_id: place.alloc_id,
                alloc_size,
                ptr_offset: base_offset,
                ptr_size: size,
            },
        );
    }
    // Update the stacks.
    // Make sure that raw pointers and mutable shared references are reborrowed "weak":
    // There could be existing unique pointers reborrowed from them that should remain valid!

    let perm = match kind {
        RefKind::Unique { two_phase } => {
            if !two_phase && place.unpin {
                // Only if the type is unpin do we actually enforce uniqueness
                Permission::Unique
            } else {
                Permission::TwoPhasedRW
            }
        },
        RefKind::Raw { mutable: true } => Permission::TwoPhasedRW,
        RefKind::Shared | RefKind::Raw { mutable: false } => {
            // Shared references and *const are a whole different kind of game, the
            // permission is not uniform across the entire range!
            // We need a frozen-sensitive reborrow.
            return reborrow_parts(
                stacks,
                place,
                size,
                new_tag,
                protector,
                kind,
                global,
                diagnostics,
            );
        },
    };
    let item = Item { perm, tag: new_tag, protector };
    let done = stacks.for_each(
        alloc_range(base_offset, size),
        StackOp::Grant { derived_from: place.tag, new: item },
        place.alloc_id,
        global,
        diagnostics,
    );
    assert(done is Ok ==> done->Ok_0 == ());
    error::lift(done)
}

/// Grants a shared reference or `*const` permission for one part of what it points to.
fn reborrow_part(
    stacks: &mut Stacks,
    place: &ReborrowPlace,
    k: usize,
    size: Size,
    new_tag: SbTag,
    protector: Option<CallId>,
    kind: RefKind,
    global: &GlobalStateInner,
    diagnostics: &mut Diagnostics,
) -> (result: Result<(), InterpError>)
    requires
        old(stacks).wf(),
        place.base_offset + size <= old(stacks).locations().len(),
        k < place.parts@.len(),
        place.parts_within(size),
    ensures
        final(stacks).wf(),
        final(stacks).locations().len() == old(stacks).locations().len(),
        final(stacks).history.local_crates == old(stacks).history.local_crates,
        (Derivation { place: *place, size, kind, new_tag, protector }).part_granted(
            k as int,
            *global,
            old(stacks).track(*old(diagnostics)),
            final(stacks).track(*final(diagnostics)),
            result,
        ),
{
    let (part, frozen) = place.parts[k];
    assert(place.parts@[k as int].0.end() <= size);
    // Adjust range.
    let range = alloc_range(place.base_offset + part.start, part.size);
    // We are only ever `SharedReadOnly` inside the frozen bits.
    let perm = if frozen {
        Permission::SharedReadOnly
    } else {
        Permission::TwoPhasedRW
    };
    let item = Item { perm, tag: new_tag, protector };
    let ghost derivation = Derivation { place: *place, size, kind, new_tag, protector };
    assert(derivation.part_range(k as int) == range);
    assert(derivation.grant(part_perm(frozen)) == (StackOp::Grant {
        derived_from: place.tag,
        new: item,
    }));
    let done = stacks.for_each(
        range,
        StackOp::Grant { derived_from: place.tag, new: item },
        place.alloc_id,
        global,
        diagnostics,
    );
    assert(done is Ok ==> done->Ok_0 == ());
    error::lift(done)
}

/// Grants a shared reference or `*const` permission for each part of what it points to.
fn reborrow_parts(
    stacks: &mut Stacks,
    place: &ReborrowPlace,
    size: Size,
    new_tag: SbTag,
    protector: Option<CallId>,
    kind: RefKind,
    global: &GlobalStateInner,
    diagnostics: &mut Diagnostics,
) -> (result: Result<(), InterpError>)
    requires
        old(stacks).wf(),
        place.base_offset + size <= old(stacks).locations().len(),
        place.parts_within(size),
    ensures
        final(stacks).wf(),
        final(stacks).history.local_crates == old(stacks).history.local_crates,
        (Derivation { place: *place, size, kind, new_tag, protector }).parts_granted(
            place.parts@.len() as int,
            *global,
            old(stacks).track(*old(diagnostics)),
            final(stacks).track(*final(diagnostics)),
            result,
        ),
{
    let ghost derivation = Derivation { place: *place, size, kind, new_tag, protector };
    let ghost before = stacks.track(*diagnostics);
    let ghost len = stacks.locations().len();
    let mut k: usize = 0;
    while k < place.parts.len()
        invariant
            k <= place.parts@.len(),
            stacks.wf(),
            stacks.locations().len() == len,
            len <= u64::MAX,
            place.base_offset + size <= len,
            place.parts_within(size),
            derivation == (Derivation { place: *place, size, kind, new_tag, protector }),
            before == old(stacks).track(*old(diagnostics)),
            derivation.parts_granted(
                k as int,
                *global,
                before,
                stacks.track(*diagnostics),
                Ok(()),
            ),
            stacks.history.local_crates == old(stacks).history.local_crates,
        decreases place.parts@.len() - k,
    {
        let ghost mid = stacks.track(*diagnostics);
        let result = reborrow_part(
            stacks,
            place,
            k,
            size,
            new_tag,
            protector,
            kind,
            global,
            diagnostics,
        );
        let ghost after = stacks.track(*diagnostics);
        proof {
            assert(result is Ok ==> result->Ok_0 == ());
            lemma_next_part(derivation, k as int, *global, before, mid, after, result);
        }
        if result.is_err() {
            proof {
                lemma_refused_part_ends(
                    derivation,
                    k + 1,
                    place.parts@.len() as int,
                    *global,
                    before,
                    after,
                    result,
                );
            }
            return result;
        }
        k += 1;
    }
    Ok(())
}

/// Whether a new pointer of this kind gets a number. We give up tracking for raw pointers unless
/// they are to be tracked; all other pointers are properly tracked.
pub open spec fn takes_id(kind: RefKind, global: GlobalStateInner) -> bool {
    kind is Raw ==> global.tag_raw
}

/// The tag of a new pointer.
pub open spec fn tag_for(kind: RefKind, global: GlobalStateInner) -> SbTag {
    if takes_id(kind, global) {
        SbTag::Tagged(global.next_ptr_id)
    } else {
        SbTag::Untagged
    }
}

/// What making the tag of a new pointer reports.
pub open spec fn tag_notices(kind: RefKind, global: GlobalStateInner) -> Seq<DiagnosticView> {
    if takes_id(kind, global) {
        global.new_ptr_notices()
    } else {
        Seq::empty()
    }
}

/// Whether `after` is what making the tag of a new pointer leaves of the global state `before`.
pub open spec fn tag_taken(
    kind: RefKind,
    before: GlobalStateInner,
    after: GlobalStateInner,
) -> bool {
    if takes_id(kind, before) {
        &&& after.same_but_pointers(before)
        &&& after.base_ptr_ids == before.base_ptr_ids
        &&& after.next_ptr_id == before.next_ptr_id + 1
    } else {
        after == before
    }
}

/// The pointer with another tag.
pub open spec fn retagged(ptr: Pointer<Option<Tag>>, tag: SbTag) -> Pointer<Option<Tag>> {
    Pointer {
        provenance: match ptr.provenance {
            Some(old) => Some(Tag { alloc_id: old.alloc_id, sb: tag }),
            None => None,
        },
        offset: ptr.offset,
    }
}

/// A pointer that is to be retagged.
pub struct Retagging {
    pub val: Pointer<Option<Tag>>,
    pub place: ReborrowPlace,
    /// How many bytes it points to, if that can be known.
    pub size: Option<Size>,
    pub kind: RefKind,
    pub protect: bool,
    pub call_id: CallId,
}

impl Retagging {
    /// How the new pointer to `size` bytes is derived.
    pub open spec fn derivation(self, size: Size, global: GlobalStateInner) -> Derivation {
        Derivation {
            place: self.place,
            size,
            kind: self.kind,
            new_tag: tag_for(self.kind, global),
            protector: if self.protect {
                Some(self.call_id)
            } else {
                None
            },
        }
    }

    /// Whether retagging turns `before` into `after` and the global state from `global_before`
    /// into `global_after`, and ends with `result`. The new pointer has a new tag, and is derived
    /// from the old one. If it cannot be known how much it points to, it stays as it is.
    pub open spec fn performed(
        self,
        global_before: GlobalStateInner,
        global_after: GlobalStateInner,
        before: Track,
        after: Track,
        result: Result<Pointer<Option<Tag>>, InterpError>,
    ) -> bool {
        match self.size {
            None => global_after == global_before && after == before && result
                == Ok::<Pointer<Option<Tag>>, InterpError>(self.val),
            Some(size) => {
                let new_tag = tag_for(self.kind, global_before);
                let derivation = self.derivation(size, global_before);
                let tagged = Track {
                    notices: before.notices + tag_notices(self.kind, global_before),
                    ..before
                };
                &&& tag_taken(self.kind, global_before, global_after)
                &&& match result {
                    Ok(ptr) => ptr == retagged(self.val, new_tag) && derivation.performed(
                        global_after,
                        tagged,
                        after,
                        Ok(()),
                    ),
                    Err(error) => derivation.performed(global_after, tagged, after, Err(error)),
                }
            },
        }
    }

    /// Whether the arguments make sense: the place fits what the pointer points to, and a pointer
    /// ID is left if it needs one.
    pub open spec fn possible(self, global: GlobalStateInner) -> bool {
        self.size matches Some(size) ==> {
            &&& self.place.fits(size, self.kind)
            &&& takes_id(self.kind, global) ==> global.next_ptr_id < u64::MAX
        }
    }
}

/// Whether a new pointer of this kind gets a number.
pub fn needs_id(kind: RefKind, global: &GlobalStateInner) -> (needed: bool)
    ensures
        needed == takes_id(kind, *global),
{
    match kind {
        RefKind::Raw { mutable: _ } => global.tag_raw,
        _ => true,
    }
}

/// Makes the tag of a new pointer.
pub fn new_tag(
    global: &mut GlobalStateInner,
    kind: RefKind,
    diagnostics: &mut Diagnostics,
) -> (tag: SbTag)
    requires
        old(global).wf(),
        takes_id(kind, *old(global)) ==> old(global).next_ptr_id < u64::MAX,
    ensures
        final(global).wf(),
        tag == tag_for(kind, *old(global)),
        tag_taken(kind, *old(global), *final(global)),
        final(diagnostics)@ == old(diagnostics)@ + tag_notices(kind, *old(global)),
{
    if !needs_id(kind, global) {
        // Give up tracking for raw pointers.
        assert(diagnostics@ =~= old(diagnostics)@ + tag_notices(kind, *old(global)));
        SbTag::Untagged
    } else {
        // All other pointers are properly tracked.
        SbTag::Tagged(global.new_ptr(diagnostics))
    }
}

/// The pointer with another tag, if it has one at all.
fn with_tag(ptr: Pointer<Option<Tag>>, tag: SbTag) -> (adjusted: Pointer<Option<Tag>>)
    ensures
        adjusted == retagged(ptr, tag),
{
    let provenance = match ptr.provenance {
        Some(old) => Some(Tag { alloc_id: old.alloc_id, sb: tag }),
        None => None,
    };
    Pointer { provenance, offset: ptr.offset }
}

/// Retags a pointer to nothing. Such a pointer needs no memory to point to.
pub fn retag_zero_sized(
    val: Pointer<Option<Tag>>,
    kind: RefKind,
    global: &mut GlobalStateInner,
    diagnostics: &mut Diagnostics,
) -> (ptr: Pointer<Option<Tag>>)
    requires
        old(global).wf(),
        takes_id(kind, *old(global)) ==> old(global).next_ptr_id < u64::MAX,
    ensures
        final(global).wf(),
        tag_taken(kind, *old(global), *final(global)),
        ptr == retagged(val, tag_for(kind, *old(global))),
        final(diagnostics)@ == old(diagnostics)@ + tag_notices(kind, *old(global)),
{
    let tag = new_tag(global, kind, diagnostics);
    with_tag(val, tag)
}

/// What retagging gives and leaves, said of the pointer and of the stacks. A pointer of which it
/// cannot be known how much it points to stays as it is. Any other one gets the next pointer ID, or
/// no tag at all if it is a raw pointer and these are not to be told apart; it still has the same
/// address and points into the same allocation.
pub open spec fn retag_made(
    val: Pointer<Option<Tag>>,
    place: ReborrowPlace,
    size: Option<Size>,
    kind: RefKind,
    protect: bool,
    call_id: CallId,
    global: GlobalStateInner,
    before: Seq<Seq<Item>>,
    after: Seq<Seq<Item>>,
    result: Result<Pointer<Option<Tag>>, InterpError>,
) -> bool {
    match size {
        None => after == before && result == Ok::<Pointer<Option<Tag>>, InterpError>(val),
        Some(size) => {
            let tag = if (kind matches RefKind::Raw { .. }) && !global.tag_raw {
                SbTag::Untagged
            } else {
                SbTag::Tagged(global.next_ptr_id)
            };
            &&& (NewPointer { place, size, kind, tag, protect, call_id }).made(
                before,
                after,
                global.active_calls@,
                result is Ok,
            )
            &&& result matches Ok(ptr) ==> {
                &&& ptr.offset == val.offset
                &&& ptr.provenance is Some <==> val.provenance is Some
                &&& val.provenance matches Some(old) ==> ptr.provenance == Some(
                    Tag { alloc_id: old.alloc_id, sb: tag },
                )
            }
        },
    }
}

/// Retags an individual pointer, returning the retagged version.
pub fn retag_reference(
    stacks: &mut Stacks,
    val: Pointer<Option<Tag>>,
    place: &ReborrowPlace,
    size: Option<Size>,
    kind: RefKind,
    protect: bool,
    call_id: CallId,
    global: &mut GlobalStateInner,
    diagnostics: &mut Diagnostics,
) -> (result: Result<Pointer<Option<Tag>>, InterpError>)
    requires
        old(stacks).wf(),
        old(global).wf(),
        (Retagging { val, place: *place, size, kind, protect, call_id }).possible(*old(global)),
    ensures
        final(stacks).wf(),
        final(stacks).history.local_crates == old(stacks).history.local_crates,
        final(global).wf(),
        (Retagging { val, place: *place, size, kind, protect, call_id }).performed(
            *old(global),
            *final(global),
            old(stacks).track(*old(diagnostics)),
            final(stacks).track(*final(diagnostics)),
            result,
        ),
        retag_made(
            val,
            *place,
            size,
            kind,
            protect,
            call_id,
            *old(global),
            old(stacks).locations(),
            final(stacks).locations(),
            result,
        ),
{
    // If we cannot determine the size (because the unsized tail is an `extern type`),
    // bail out -- we cannot reasonably figure out which memory range to reborrow.
    let size = match size {
        Some(size) => size,
        None => return Ok(val),
    };
    let ghost before = stacks.track(*diagnostics);
    // Compute new borrow.
    let tag = new_tag(global, kind, diagnostics);
    assert(stacks.track(*diagnostics) == (Track {
        notices: before.notices + tag_notices(kind, *old(global)),
        ..before
    }));
    // Reborrow.
    let done = reborrow(stacks, place, size, kind, tag, protect, call_id, global, diagnostics);
    assert(done is Ok ==> done->Ok_0 == ());
    match done {
        // Adjust pointer.
        Ok(()) => Ok(with_tag(val, tag)),
        Err(error) => Err(error),
    }
}

/// After a stack frame got pushed, retag the return place so that we are sure
/// it does not alias with anything. A frame may have none, and it may hold nothing.
pub fn retag_return_place(
    stacks: &mut Stacks,
    return_place: Option<Pointer<Option<Tag>>>,
    place: &ReborrowPlace,
    size: Size,
    call_id: CallId,
    global: &mut GlobalStateInner,
    diagnostics: &mut Diagnostics,
) -> (result: Result<Option<Pointer<Option<Tag>>>, InterpError>)
    requires
        old(stacks).wf(),
        old(global).wf(),
        return_place matches Some(val) ==> size > 0 ==> (Retagging {
            val,
            place: *place,
            size: Some(size),
            kind: RefKind::Unique { two_phase: false },
            protect: true,
            call_id,
        }).possible(*old(global)),
    ensures
        final(stacks).wf(),
        final(stacks).history.local_crates == old(stacks).history.local_crates,
        final(global).wf(),
        return_place is None || size == 0 ==> {
            &&& *final(global) == *old(global)
            &&& *final(stacks) == *old(stacks)
            &&& *final(diagnostics) == *old(diagnostics)
            &&& result == Ok::<Option<Pointer<Option<Tag>>>, InterpError>(return_place)
        },
        return_place matches Some(val) ==> size > 0 ==> {
            let retagging = Retagging {
                val,
                place: *place,
                size: Some(size),
                kind: RefKind::Unique { two_phase: false },
                protect: true,
                call_id,
            };
            match result {
                Ok(Some(ptr)) => retagging.performed(
                    *old(global),
                    *final(global),
                    old(stacks).track(*old(diagnostics)),
                    final(stacks).track(*final(diagnostics)),
                    Ok(ptr),
                ),
                Ok(None) => false,
                Err(error) => retagging.performed(
                    *old(global),
                    *final(global),
                    old(stacks).track(*old(diagnostics)),
                    final(stacks).track(*final(diagnostics)),
                    Err(error),
                ),
            }
        },
        return_place matches Some(val) ==> size > 0 ==> retag_made(
            val,
            *place,
            Some(size),
            RefKind::Unique { two_phase: false },
            true,
            call_id,
            *old(global),
            old(stacks).locations(),
            final(stacks).locations(),
            match result {
                Ok(ptr) => Ok(ptr->Some_0),
                Err(error) => Err(error),
            },
        ),
{
    let val = match return_place {
        Some(val) => val,
        // No return place, nothing to do.
        None => return Ok(None),
    };
    if size == 0 {
        // There may not be any memory here, nothing to do.
        return Ok(Some(val));
    }
    // Reborrow it.
    let done = retag_reference(
        stacks,
        val,
        place,
        Some(size),
        RefKind::Unique { two_phase: false },
        true,
        call_id,
        global,
        diagnostics,
    );
    match done {
        // And use reborrowed pointer for return place.
        Ok(ptr) => Ok(Some(ptr)),
        Err(error) => Err(error),
    }
}

} // verus!
