//! Machine hook implementations.
use vstd::prelude::*;
use vstd::string::StringExecFns;

use crate::error;
use crate::error::InterpError;
use crate::machine::alloc_extra::AllocExtra;
use crate::machine::config::AlignmentCheck;
use crate::machine::context::MiriEvalContext;
use crate::machine::evaluator::Evaluator;
use crate::machine::frame::FrameData;
use crate::machine::memory_kind::{MemoryKind, MiriMemoryKind};
use crate::machine::tag::{Pointer, Tag};
use crate::memory::{AllocId, AllocRange, Size};
use crate::stacked_borrows::diagnostics::{DiagnosticView, NonHaltingDiagnostic};
use crate::stacked_borrows::effects;
use crate::stacked_borrows::global_laws;
use crate::stacked_borrows::item::{AccessKind, CallId, RefKind, SbTag};
use crate::stacked_borrows::retag;
use crate::stacked_borrows::retag::{Mutability, ReborrowPlace, RetagKind, Retagging, TyKind};
use crate::stacked_borrows::stack::StackOp;
use crate::stacked_borrows::stacks;
use crate::stacked_borrows::stacks::{Stacks, Track};
use crate::tables;

verus! {

broadcast use vstd::std_specs::hash::group_hash_axioms;

/// Failing to allocate is not a panic of the interpreted program.
pub const PANIC_ON_ALLOC_FAIL: bool = false;

/// The kind of memory that globals are in when they are copied from the program.
pub fn global_kind() -> (kind: Option<MiriMemoryKind>)
    ensures
        kind == Some(MiriMemoryKind::Global),
{
    Some(MiriMemoryKind::Global)
}

/// The kind of memory that statics outside of the program are in.
pub fn extern_static_kind() -> (kind: MemoryKind)
    ensures
        kind == MemoryKind::Machine(MiriMemoryKind::ExternStatic),
{
    MemoryKind::from(MiriMemoryKind::ExternStatic)
}

/// The message about a static outside of the program that the machine does not provide.
pub open spec fn unsupported_static_chars(def_id: Seq<char>) -> Seq<char> {
    "`extern` static "@ + def_id + " is not supported by Miri"@
}

/// The name that a static outside of the program goes by.
pub open spec fn static_name(link_name: Option<Seq<char>>, item_name: Seq<char>) -> Seq<char> {
    match link_name {
        Some(name) => name,
        None => item_name,
    }
}

/// What a memory hook does after it has reported `notices`. If the race detector, which is only
/// asked about allocations that it follows, has found a race, that is all. Otherwise the operation
/// is performed on the borrow stacks of every location of the range, if there are any.
pub open spec fn memory_hook<L>(
    op: StackOp,
    alloc_id: AllocId,
    range: AllocRange,
    race: Result<(), String>,
    notices: Seq<DiagnosticView>,
    before: Evaluator<L>,
    after: Evaluator<L>,
    extra_before: AllocExtra,
    extra_after: AllocExtra,
    result: Result<(), InterpError>,
) -> bool {
    &&& after == (Evaluator { diagnostics: after.diagnostics, ..before })
    &&& if extra_before.data_race && race is Err {
        &&& result == Err::<(), InterpError>(InterpError::DataRace(race->Err_0))
        &&& extra_after == extra_before
        &&& after.diagnostics@ == notices
    } else {
        match extra_before.stacked_borrows {
            Some(stacks) => {
                &&& extra_after.data_race == extra_before.data_race
                &&& extra_after.stacked_borrows matches Some(stacks_after)
                &&& stacks_after.wf()
                &&& stacks_after.history.local_crates == stacks.history.local_crates
                &&& stacks::stepped(
                    op,
                    alloc_id,
                    range,
                    before.stacked_borrows->Some_0,
                    Track { notices, ..stacks.track(before.diagnostics) },
                    stacks_after.track(after.diagnostics),
                    result,
                )
            },
            None => {
                &&& result is Ok
                &&& extra_after == extra_before
                &&& after.diagnostics@ == notices
            },
        }
    }
}

/// The allocation of a pointer, the offset from its start, and the tag to access it with.
pub open spec fn alloc_parts(ptr: Pointer<Tag>, rel: Size) -> (AllocId, Size, SbTag) {
    (ptr.provenance.alloc_id, rel, ptr.provenance.sb)
}

/// The allocations that the pointers point to.
pub open spec fn pointed_to(pointers: Seq<(AllocId, u64)>) -> Seq<AllocId> {
    pointers.map_values(|pointer: (AllocId, u64)| pointer.0)
}

/// How a return place is retagged: as unique, and protected for as long as the frame is there.
pub open spec fn return_retagging(
    val: Pointer<Option<Tag>>,
    place: ReborrowPlace,
    size: Size,
    call_id: CallId,
) -> Retagging {
    Retagging {
        val,
        place,
        size: Some(size),
        kind: RefKind::Unique { two_phase: false },
        protect: true,
        call_id,
    }
}

/// Whether giving the first `n` pointers their tags turns the machine `before` into `after`.
spec fn tagged_up_to<L>(
    pointers: Seq<(AllocId, u64)>,
    n: int,
    before: Evaluator<L>,
    after: Evaluator<L>,
    tagged: Seq<Pointer<Tag>>,
) -> bool {
    &&& after == (Evaluator {
        stacked_borrows: after.stacked_borrows,
        diagnostics: after.diagnostics,
        ..before
    })
    &&& tagged.len() == n
    &&& forall|k: int|
        0 <= k < n ==> (#[trigger] tagged[k]).offset == pointers[k].1
            && tagged[k].provenance.alloc_id == pointers[k].0
    &&& match before.stacked_borrows {
        Some(state) => {
            &&& after.stacked_borrows matches Some(state_after)
            &&& state_after.same_but_pointers(state)
            &&& state_after.book() == state.book().asked_for(pointed_to(pointers), n)
            &&& forall|k: int|
                0 <= k < n ==> state_after.base_ptr_ids@.contains_key(pointers[k].0) && (
                #[trigger] tagged[k]).provenance.sb == state_after.base_ptr_ids@[pointers[k].0]
            &&& after.diagnostics@ == before.diagnostics@ + state.book().notices_for(
                pointed_to(pointers),
                n,
                state.tracked_pointer_tags@,
            )
        },
        None => {
            &&& after == before
            &&& forall|k: int|
                0 <= k < n ==> (#[trigger] tagged[k]).provenance.sb == SbTag::Untagged
        },
    }
}

impl<L> Evaluator<L> {
    /// Whether the machine has what it needs to follow an access to the range of the allocation:
    /// an allocation has extra data only for what the machine does, and the range is inside of it.
    pub open spec fn can_follow(self, extra: AllocExtra, range: AllocRange) -> bool {
        &&& extra.wf()
        &&& extra.data_race ==> self.data_race
        &&& extra.stacked_borrows matches Some(stacks) ==> {
            &&& self.stacked_borrows is Some
            &&& range.within(stacks.locations().len() as int)
        }
    }

    /// The pointer to the address that the program has when it has made none to the allocation
    /// itself.
    pub open spec fn base_pointer(self, id: AllocId, absolute_addr: u64) -> Pointer<Tag> {
        let sb = match self.stacked_borrows {
            Some(state) => state.base_tag_spec(id),
            None => SbTag::Untagged,
        };
        Pointer { provenance: Tag { alloc_id: id, sb }, offset: absolute_addr }
    }

    /// What is reported when something happens to the allocation as a whole.
    pub open spec fn alloc_notices(self, id: AllocId, notice: DiagnosticView) -> Seq<
        DiagnosticView,
    > {
        if self.tracked_alloc_ids@.contains(id) {
            seq![notice]
        } else {
            Seq::empty()
        }
    }

    /// Whether alignment is checked at all.
    pub fn enforce_alignment(ecx: &MiriEvalContext<L>) -> (enforced: bool)
        ensures
            enforced == (ecx.machine.check_alignment != AlignmentCheck::Off),
    {
        ecx.machine.check_alignment != AlignmentCheck::Off
    }

    /// Whether alignment is checked by the address that the allocation happens to have.
    pub fn force_int_for_alignment_check(ecx: &MiriEvalContext<L>) -> (forced: bool)
        ensures
            forced == (ecx.machine.check_alignment == AlignmentCheck::Int),
    {
        ecx.machine.check_alignment == AlignmentCheck::Int
    }

    /// Whether the validity invariant is enforced.
    pub fn enforce_validity(ecx: &MiriEvalContext<L>) -> (enforced: bool)
        ensures
            enforced == ecx.machine.validate,
    {
        ecx.machine.validate
    }

    /// Whether validity of integers and floats is enforced.
    pub fn enforce_number_validity(ecx: &MiriEvalContext<L>) -> (enforced: bool)
        ensures
            enforced == ecx.machine.enforce_number_validity,
    {
        ecx.machine.enforce_number_validity
    }

    /// Whether the ABI of function calls is enforced.
    pub fn enforce_abi(ecx: &MiriEvalContext<L>) -> (enforced: bool)
        ensures
            enforced == ecx.machine.enforce_abi,
    {
        ecx.machine.enforce_abi
    }

    /// Stops the program with a message.
    pub fn abort(msg: String) -> (result: Result<(), InterpError>)
        ensures
            result == Err::<(), InterpError>(InterpError::Abort(msg)),
    {
        Err(InterpError::Abort(msg))
    }

    /// The base pointer of a static outside of the program. It goes by its link name if it has
    /// one, and otherwise by its own. `def_id` is how the static is shown in a message.
    pub fn extern_static_base_pointer(
        ecx: &MiriEvalContext<L>,
        link_name: Option<String>,
        item_name: String,
        def_id: &str,
    ) -> (result: Result<Pointer<Tag>, InterpError>)
        ensures
            ({
                let name = match link_name {
                    Some(name) => name@,
                    None => item_name@,
                };
                if ecx.machine.statics().contains_key(name) {
                    result == Ok::<Pointer<Tag>, InterpError>(ecx.machine.statics()[name])
                } else {
                    result matches Err(InterpError::Unsupported(msg)) && msg@
                        == unsupported_static_chars(def_id@)
                }
            }),
            ({
                let link = match link_name {
                    Some(name) => Some(name@),
                    None => None,
                };
                let name = static_name(link, item_name@);
                &&& result is Ok <==> ecx.machine.statics().contains_key(name)
                &&& result matches Ok(ptr) ==> ptr == ecx.machine.statics()[name]
            }),
    {
        let link_name = match link_name {
            Some(name) => name,
            None => item_name,
        };
        match tables::statics_get(&ecx.machine.extern_statics, &link_name) {
            Some(ptr) => Ok(Pointer { provenance: ptr.provenance, offset: ptr.offset }),
            None => {
                let mut msg = String::from_str("`extern` static ");
                msg.append(def_id);
                msg.append(" is not supported by Miri");
                Err(InterpError::Unsupported(msg))
            },
        }
    }

    /// Convert a pointer with provenance into an allocation-offset pair, with the tag that it is
    /// to be accessed with. `rel` is the offset from the start of the allocation.
    pub fn ptr_get_alloc(ptr: Pointer<Tag>, rel: Size) -> (parts: (AllocId, Size, SbTag))
        ensures
            parts == alloc_parts(ptr, rel),
    {
        (ptr.provenance.alloc_id, rel, ptr.provenance.sb)
    }

    /// The range is read. `race` is what the race detector says to it, if it follows the
    /// allocation.
    pub fn memory_read(
        machine: &mut Self,
        alloc_extra: &mut AllocExtra,
        alloc_id: AllocId,
        tag: SbTag,
        range: AllocRange,
        race: Result<(), String>,
    ) -> (result: Result<(), InterpError>)
        requires
            old(machine).wf(),
            old(machine).can_follow(*old(alloc_extra), range),
        ensures
            final(machine).wf(),
            final(alloc_extra).wf(),
            memory_hook(
                StackOp::Access { access: AccessKind::Read, tag },
                alloc_id,
                range,
                race,
                old(machine).diagnostics@,
                *old(machine),
                *final(machine),
                *old(alloc_extra),
                *final(alloc_extra),
                result,
            ),
            // A race that the detector found in an allocation that it follows stops the program.
            old(alloc_extra).data_race && race is Err ==> {
                &&& result == Err::<(), InterpError>(InterpError::DataRace(race->Err_0))
                &&& *final(alloc_extra) == *old(alloc_extra)
            },
            // Otherwise the borrow stacks decide, if there are any.
            !(old(alloc_extra).data_race && race is Err) && old(alloc_extra).stacked_borrows is None
                ==> result is Ok && *final(alloc_extra) == *old(alloc_extra),
            old(alloc_extra).stacked_borrows matches Some(stacks) ==> !(old(alloc_extra).data_race
                && race is Err) ==> {
                &&& final(alloc_extra).stacked_borrows matches Some(stacks_after)
                &&& effects::range_read(
                    stacks.locations(),
                    stacks_after.locations(),
                    range,
                    tag,
                    old(machine).stacked_borrows->Some_0.active_calls@,
                    result is Ok,
                )
            },
    {
        if alloc_extra.data_race {
            if let Err(message) = race {
                return Err(InterpError::DataRace(message));
            }
        }
        if let Some(stacked_borrows) = &mut alloc_extra.stacked_borrows {
            if let Some(state) = &machine.stacked_borrows {
                let done = stacked_borrows.memory_read(
                    alloc_id,
                    tag,
                    range,
                    state,
                    &mut machine.diagnostics,
                );
                assert(done is Ok ==> done->Ok_0 == ());
                return error::lift(done);
            }
        }
        Ok(())
    }

    /// The range is written. `race` is what the race detector says to it, if it follows the
    /// allocation.
    pub fn memory_written(
        machine: &mut Self,
        alloc_extra: &mut AllocExtra,
        alloc_id: AllocId,
        tag: SbTag,
        range: AllocRange,
        race: Result<(), String>,
    ) -> (result: Result<(), InterpError>)
        requires
            old(machine).wf(),
            old(machine).can_follow(*old(alloc_extra), range),
        ensures
            final(machine).wf(),
            final(alloc_extra).wf(),
            memory_hook(
                StackOp::Access { access: AccessKind::Write, tag },
                alloc_id,
                range,
                race,
                old(machine).diagnostics@,
                *old(machine),
                *final(machine),
                *old(alloc_extra),
                *final(alloc_extra),
                result,
            ),
            // A race that the detector found in an allocation that it follows stops the program.
            old(alloc_extra).data_race && race is Err ==> {
                &&& result == Err::<(), InterpError>(InterpError::DataRace(race->Err_0))
                &&& *final(alloc_extra) == *old(alloc_extra)
            },
            // Otherwise the borrow stacks decide, if there are any.
            !(old(alloc_extra).data_race && race is Err) && old(alloc_extra).stacked_borrows is None
                ==> result is Ok && *final(alloc_extra) == *old(alloc_extra),
            old(alloc_extra).stacked_borrows matches Some(stacks) ==> !(old(alloc_extra).data_race
                && race is Err) ==> {
                &&& final(alloc_extra).stacked_borrows matches Some(stacks_after)
                &&& effects::range_written(
                    stacks.locations(),
                    stacks_after.locations(),
                    range,
                    tag,
                    old(machine).stacked_borrows->Some_0.active_calls@,
                    result is Ok,
                )
            },
    {
        if alloc_extra.data_race {
            if let Err(message) = race {
                return Err(InterpError::DataRace(message));
            }
        }
        if let Some(stacked_borrows) = &mut alloc_extra.stacked_borrows {
            if let Some(state) = &machine.stacked_borrows {
                let done = stacked_borrows.memory_written(
                    alloc_id,
                    tag,
                    range,
                    state,
                    &mut machine.diagnostics,
                );
                assert(done is Ok ==> done->Ok_0 == ());
                return error::lift(done);
            }
        }
        Ok(())
    }

    /// The allocation is freed. `race` is what the race detector says to it, if it follows the
    /// allocation.
    pub fn memory_deallocated(
        machine: &mut Self,
        alloc_extra: &mut AllocExtra,
        alloc_id: AllocId,
        tag: SbTag,
        range: AllocRange,
        race: Result<(), String>,
    ) -> (result: Result<(), InterpError>)
        requires
            old(machine).wf(),
            old(machine).can_follow(*old(alloc_extra), range),
        ensures
            final(machine).wf(),
            final(alloc_extra).wf(),
            memory_hook(
                StackOp::Dealloc { tag },
                alloc_id,
                range,
                race,
                old(machine).diagnostics@ + old(machine).alloc_notices(
                    alloc_id,
                    DiagnosticView::FreedAlloc(alloc_id),
                ),
                *old(machine),
                *final(machine),
                *old(alloc_extra),
                *final(alloc_extra),
                result,
            ),
            // A race that the detector found in an allocation that it follows stops the program.
            old(alloc_extra).data_race && race is Err ==> {
                &&& result == Err::<(), InterpError>(InterpError::DataRace(race->Err_0))
                &&& *final(alloc_extra) == *old(alloc_extra)
            },
            // Otherwise the borrow stacks decide, if there are any.
            !(old(alloc_extra).data_race && race is Err) && old(alloc_extra).stacked_borrows is None
                ==> result is Ok && *final(alloc_extra) == *old(alloc_extra),
            old(alloc_extra).stacked_borrows matches Some(stacks) ==> !(old(alloc_extra).data_race
                && race is Err) ==> {
                &&& final(alloc_extra).stacked_borrows matches Some(stacks_after)
                &&& effects::range_freed(
                    stacks.locations(),
                    stacks_after.locations(),
                    range,
                    tag,
                    old(machine).stacked_borrows->Some_0.active_calls@,
                    result is Ok,
                )
            },
    {
        if machine.tracked_alloc_ids.contains(&alloc_id) {
            machine.diagnostics.register_diagnostic(NonHaltingDiagnostic::FreedAlloc(alloc_id));
        }
        assert(machine.diagnostics@ =~= old(machine).diagnostics@ + old(machine).alloc_notices(
            alloc_id,
            DiagnosticView::FreedAlloc(alloc_id),
        ));
        if alloc_extra.data_race {
            if let Err(message) = race {
                return Err(InterpError::DataRace(message));
            }
        }
        if let Some(stacked_borrows) = &mut alloc_extra.stacked_borrows {
            if let Some(state) = &machine.stacked_borrows {
                let done = stacked_borrows.memory_deallocated(
                    alloc_id,
                    tag,
                    range,
                    state,
                    &mut machine.diagnostics,
                );
                assert(done is Ok ==> done->Ok_0 == ());
                return error::lift(done);
            }
        }
        Ok(())
    }

    /// The pointer that the program has to an allocation when it has made none itself. `ptr` says
    /// where in the allocation it points to, and `absolute_addr` is the address of that.
    pub fn tag_alloc_base_pointer(
        ecx: &mut MiriEvalContext<L>,
        ptr: Pointer<AllocId>,
        absolute_addr: u64,
    ) -> (tagged: Pointer<Tag>)
        requires
            old(ecx).machine.wf(),
            old(ecx).machine.stacked_borrows matches Some(state) ==> state.can_choose_base_tag(
                ptr.provenance,
            ),
        ensures
            final(ecx).machine.wf(),
            tagged == old(ecx).machine.base_pointer(ptr.provenance, absolute_addr),
            match old(ecx).machine.stacked_borrows {
                Some(state) => {
                    &&& final(ecx).machine.stacked_borrows matches Some(state_after)
                    &&& state_after.after_base_tag(state, ptr.provenance)
                    &&& final(ecx).machine.diagnostics@ == old(ecx).machine.diagnostics@
                        + state.base_tag_notices(ptr.provenance)
                    &&& final(ecx).machine == (Evaluator {
                        stacked_borrows: final(ecx).machine.stacked_borrows,
                        diagnostics: final(ecx).machine.diagnostics,
                        ..old(ecx).machine
                    })
                    &&& final(ecx).os == old(ecx).os
                },
                None => *final(ecx) == *old(ecx),
            },
    {
        let sb = if let Some(state) = &mut ecx.machine.stacked_borrows {
            state.base_tag(ptr.provenance, &mut ecx.machine.diagnostics)
        } else {
            SbTag::Untagged
        };
        Pointer { provenance: Tag { alloc_id: ptr.provenance, sb }, offset: absolute_addr }
    }

    /// Whether there are tags for a new allocation and for the pointers in it.
    pub open spec fn can_tag_allocation(
        self,
        id: AllocId,
        kind: MemoryKind,
        pointers: Seq<(AllocId, u64)>,
    ) -> bool {
        self.stacked_borrows matches Some(state) ==> {
            &&& stacks::can_choose_initial_tag(id, kind, state)
            &&& stacks::initial_book(id, kind, state).asked_for(
                pointed_to(pointers),
                pointers.len() as int,
            ).next <= u64::MAX
        }
    }

    /// Whether `after` is what the machine `self` becomes by making an allocation with pointers in
    /// it known, which gives the allocation the extra data and the pointers their tags.
    pub open spec fn allocated(
        self,
        id: AllocId,
        size: Size,
        kind: MemoryKind,
        pointers: Seq<(AllocId, u64)>,
        after: Self,
        extra: AllocExtra,
        tagged: Seq<Pointer<Tag>>,
    ) -> bool {
        let created = self.diagnostics@ + self.alloc_notices(id, DiagnosticView::CreatedAlloc(id));
        &&& after == (Evaluator {
            stacked_borrows: after.stacked_borrows,
            diagnostics: after.diagnostics,
            ..self
        })
        &&& extra.data_race == self.data_race
        &&& tagged.len() == pointers.len()
        &&& forall|k: int|
            0 <= k < pointers.len() ==> (#[trigger] tagged[k]).offset == pointers[k].1
                && tagged[k].provenance.alloc_id == pointers[k].0
        &&& match self.stacked_borrows {
            Some(state) => {
                let book = stacks::initial_book(id, kind, state);
                let ids = pointed_to(pointers);
                let n = pointers.len() as int;
                &&& extra.stacked_borrows matches Some(stacks)
                &&& stacks.fresh(
                    size,
                    stacks::initial_perm(kind),
                    stacks::initial_tag(id, kind, state),
                )
                &&& stacks.history.local_crates@ == self.local_crates@
                &&& after.stacked_borrows matches Some(state_after)
                &&& state_after.same_but_pointers(state)
                &&& state_after.book() == book.asked_for(ids, n)
                &&& forall|k: int|
                    0 <= k < n ==> (#[trigger] tagged[k]).provenance.sb
                        == state_after.base_ptr_ids@[pointers[k].0]
                &&& after.diagnostics@ == created + stacks::initial_tag_notices(id, kind, state)
                    + book.notices_for(ids, n, state.tracked_pointer_tags@)
            },
            None => {
                &&& extra.stacked_borrows is None
                &&& after.stacked_borrows is None
                &&& forall|k: int|
                    0 <= k < tagged.len() ==> (#[trigger] tagged[k]).provenance.sb
                        == SbTag::Untagged
                &&& after.diagnostics@ == created
            },
        }
    }

    /// The extra data of a new allocation of `size` bytes, and the pointers in it with their tags.
    /// `pointers` says for each of these which allocation and which address it points to. The
    /// kind of memory is always known, because there is a kind for globals.
    #[verifier::rlimit(40)]
    pub fn init_allocation_extra(
        ecx: &mut MiriEvalContext<L>,
        id: AllocId,
        size: Size,
        pointers: &Vec<(AllocId, u64)>,
        kind: Option<MemoryKind>,
    ) -> (made: (AllocExtra, Vec<Pointer<Tag>>))
        requires
            old(ecx).machine.wf(),
            kind is Some,
            old(ecx).machine.can_tag_allocation(id, kind->Some_0, pointers@),
        ensures
            final(ecx).machine.wf(),
            made.0.wf(),
            old(ecx).machine.allocated(
                id,
                size,
                kind->Some_0,
                pointers@,
                final(ecx).machine,
                made.0,
                made.1@,
            ),
            final(ecx).os == old(ecx).os,
    {
        let ghost before = ecx.machine;
        if ecx.machine.tracked_alloc_ids.contains(&id) {
            ecx.machine.diagnostics.register_diagnostic(NonHaltingDiagnostic::CreatedAlloc(id));
        }
        assert(ecx.machine.diagnostics@ =~= before.diagnostics@ + before.alloc_notices(
            id,
            DiagnosticView::CreatedAlloc(id),
        ));
        let kind = kind.unwrap();
        let local_crates = ecx.machine.local_crates.clone();
        assert(local_crates@ =~= before.local_crates@);
        let stacked_borrows = if let Some(state) = &mut ecx.machine.stacked_borrows {
            Some(
                Stacks::new_allocation(
                    id,
                    size,
                    state,
                    kind,
                    local_crates,
                    &mut ecx.machine.diagnostics,
                ),
            )
        } else {
            None
        };
        let extra = AllocExtra { stacked_borrows, data_race: ecx.machine.data_race };
        let tagged = Self::tag_pointers(ecx, pointers);
        (extra, tagged)
    }

    /// Gives the pointers in a new allocation their tags.
    fn tag_pointers(
        ecx: &mut MiriEvalContext<L>,
        pointers: &Vec<(AllocId, u64)>,
    ) -> (tagged: Vec<Pointer<Tag>>)
        requires
            old(ecx).machine.wf(),
            old(ecx).machine.stacked_borrows matches Some(state) ==> state.book().asked_for(
                pointed_to(pointers@),
                pointers@.len() as int,
            ).next <= u64::MAX,
        ensures
            final(ecx).machine.wf(),
            final(ecx).os == old(ecx).os,
            tagged_up_to(
                pointers@,
                pointers@.len() as int,
                old(ecx).machine,
                final(ecx).machine,
                tagged@,
            ),
    {
        let ghost before = ecx.machine;
        let ghost ids = pointed_to(pointers@);
        let len = pointers.len();
        let mut tagged: Vec<Pointer<Tag>> = Vec::new();
        let mut k: usize = 0;
        assert(before.stacked_borrows matches Some(state) ==> before.diagnostics@
            =~= before.diagnostics@ + state.book().notices_for(
            ids,
            0,
            state.tracked_pointer_tags@,
        ));
        while k < len
            invariant
                k <= len == pointers@.len(),
                ids == pointed_to(pointers@),
                before == old(ecx).machine,
                before.stacked_borrows matches Some(state) ==> state.book().asked_for(
                    ids,
                    len as int,
                ).next <= u64::MAX,
                ecx.machine.wf(),
                ecx.os == old(ecx).os,
                tagged_up_to(pointers@, k as int, before, ecx.machine, tagged@),
            decreases len - k,
        {
            let (id, addr) = pointers[k];
            proof {
                assert(ids[k as int] == id);
                if let Some(state) = before.stacked_borrows {
                    state.book().lemma_asked_for(ids, k + 1, len as int);
                    state.book().lemma_asked_for(ids, k as int, k + 1);
                }
            }
            tagged.push(
                Self::tag_alloc_base_pointer(ecx, Pointer { provenance: id, offset: 0 }, addr),
            );
            k = k + 1;
            assert(tagged_up_to(pointers@, k as int, before, ecx.machine, tagged@)) by {
                if let Some(state) = before.stacked_borrows {
                    assert(ecx.machine.diagnostics@ =~= before.diagnostics@ + (
                    state.book().notices_for(ids, k - 1, state.tracked_pointer_tags@)
                        + state.book().asked_for(ids, k - 1).notices(
                        ids[k - 1],
                        state.tracked_pointer_tags@,
                    )));
                }
            }
        }
        tagged
    }

    /// Whether the machine can retag the pointer: its arguments make sense, and if it points to
    /// something, the allocation has borrow stacks.
    pub open spec fn can_retag(self, extra: AllocExtra, retagging: Retagging) -> bool {
        self.stacked_borrows matches Some(state) ==> retagging.size matches Some(size) ==> {
            &&& retagging.possible(state)
            &&& size > 0 ==> extra.stacked_borrows is Some
        }
    }

    /// Whether retagging the pointer turns the machine `self` into `after` and the extra data of
    /// the allocation that it points to from `extra` into `extra_after`, and ends with `result`.
    /// Without Stacked Borrows the pointer stays as it is.
    pub open spec fn retagged(
        self,
        extra: AllocExtra,
        retagging: Retagging,
        after: Self,
        extra_after: AllocExtra,
        result: Result<Pointer<Option<Tag>>, InterpError>,
    ) -> bool {
        if self.stacked_borrows is None || retagging.size is None {
            after == self && extra_after == extra && result == Ok::<
                Pointer<Option<Tag>>,
                InterpError,
            >(retagging.val)
        } else {
            let state = self.stacked_borrows->Some_0;
            &&& after == (Evaluator {
                stacked_borrows: after.stacked_borrows,
                diagnostics: after.diagnostics,
                ..self
            })
            &&& after.stacked_borrows matches Some(state_after)
            &&& if retagging.size == Some(0u64) {
                &&& retag::tag_taken(retagging.kind, state, state_after)
                &&& extra_after == extra
                &&& after.diagnostics@ == self.diagnostics@ + retag::tag_notices(
                    retagging.kind,
                    state,
                )
                &&& result == Ok::<Pointer<Option<Tag>>, InterpError>(
                    retag::retagged(retagging.val, retag::tag_for(retagging.kind, state)),
                )
            } else {
                let stacks = extra.stacked_borrows->Some_0;
                &&& extra_after.data_race == extra.data_race
                &&& extra_after.stacked_borrows matches Some(stacks_after)
                &&& stacks_after.wf()
                &&& stacks_after.history.local_crates == stacks.history.local_crates
                &&& retagging.performed(
                    state,
                    state_after,
                    stacks.track(self.diagnostics),
                    stacks_after.track(after.diagnostics),
                    result,
                )
            }
        }
    }

    /// What retagging the pointer as one of the given kind gives and leaves, said of the pointer
    /// and of the stacks of the allocation it points into. Nothing happens without Stacked Borrows,
    /// nor if it cannot be known how much the pointer points to.
    pub open spec fn retagged_as(
        self,
        ref_kind: RefKind,
        protect: bool,
        val: Pointer<Option<Tag>>,
        place: ReborrowPlace,
        size: Option<Size>,
        call_id: CallId,
        extra: AllocExtra,
        extra_after: AllocExtra,
        result: Result<Pointer<Option<Tag>>, InterpError>,
    ) -> bool {
        match self.stacked_borrows {
            None => extra_after == extra && result == Ok::<Pointer<Option<Tag>>, InterpError>(val),
            Some(state) => {
                &&& size is None || size == Some(0u64) ==> extra_after == extra
                &&& retag::retag_made(
                    val,
                    place,
                    size,
                    ref_kind,
                    protect,
                    call_id,
                    state,
                    extra.stacks_of_bytes(),
                    extra_after.stacks_of_bytes(),
                    result,
                )
            },
        }
    }

    /// Retags a pointer if Stacked Borrows is enabled.
    fn retag_pointer(
        machine: &mut Self,
        alloc_extra: &mut AllocExtra,
        val: Pointer<Option<Tag>>,
        place: &ReborrowPlace,
        size: Option<Size>,
        kind: RefKind,
        protect: bool,
        call_id: CallId,
    ) -> (result: Result<Pointer<Option<Tag>>, InterpError>)
        requires
            old(machine).wf(),
            old(alloc_extra).wf(),
            old(machine).can_retag(
                *old(alloc_extra),
                (Retagging { val, place: *place, size, kind, protect, call_id }),
            ),
        ensures
            final(machine).wf(),
            final(alloc_extra).wf(),
            old(machine).retagged(
                *old(alloc_extra),
                (Retagging { val, place: *place, size, kind, protect, call_id }),
                *final(machine),
                *final(alloc_extra),
                result,
            ),
            old(machine).retagged_as(
                kind,
                protect,
                val,
                *place,
                size,
                call_id,
                *old(alloc_extra),
                *final(alloc_extra),
                result,
            ),
    {
        let len = match size {
            Some(len) => len,
            None => return Ok(val),
        };
        if let Some(state) = &mut machine.stacked_borrows {
            if len == 0 {
                return Ok(
                    retag::retag_zero_sized(val, kind, state, &mut machine.diagnostics),
                );
            }
            if let Some(stacked_borrows) = &mut alloc_extra.stacked_borrows {
                return retag::retag_reference(
                    stacked_borrows,
                    val,
                    place,
                    size,
                    kind,
                    protect,
                    call_id,
                    state,
                    &mut machine.diagnostics,
                );
            }
        }
        Ok(val)
    }

    /// Whether the machine `self` becomes `after` by making a tag for a pointer of the kind.
    pub open spec fn tag_used_up(self, kind: RefKind, after: Self) -> bool {
        match self.stacked_borrows {
            Some(state) => {
                &&& after == (Evaluator {
                    stacked_borrows: after.stacked_borrows,
                    diagnostics: after.diagnostics,
                    ..self
                })
                &&& after.stacked_borrows matches Some(state_after)
                &&& retag::tag_taken(kind, state, state_after)
                &&& after.diagnostics@ == self.diagnostics@ + retag::tag_notices(kind, state)
            },
            None => after == self,
        }
    }

    /// Whether a tag for a pointer of the kind is left.
    pub open spec fn can_tag(self, kind: RefKind) -> bool {
        self.stacked_borrows matches Some(state) ==> retag::takes_id(kind, state)
            ==> state.next_ptr_id < u64::MAX
    }

    /// Makes a tag for a pointer of the kind, if Stacked Borrows is enabled, and forgets it.
    fn use_up_tag(machine: &mut Self, kind: RefKind)
        requires
            old(machine).wf(),
            old(machine).can_tag(kind),
        ensures
            final(machine).wf(),
            old(machine).tag_used_up(kind, *final(machine)),
    {
        if let Some(state) = &mut machine.stacked_borrows {
            let _ = retag::new_tag(state, kind, &mut machine.diagnostics);
        }
    }

    /// A pointer of the given type was to be retagged, but what it points to cannot be found, for
    /// the given reason. That is only noticed when the new pointer has its tag.
    pub fn retag_refused(
        ecx: &mut MiriEvalContext<L>,
        kind: RetagKind,
        ty: TyKind,
        reason: InterpError,
    ) -> (result: Result<Pointer<Option<Tag>>, InterpError>)
        requires
            old(ecx).machine.wf(),
            retag::qualification(ty, kind) matches Some((ref_kind, protect)) && old(
                ecx,
            ).machine.can_tag(ref_kind),
        ensures
            final(ecx).machine.wf(),
            final(ecx).os == old(ecx).os,
            retag::qualification(ty, kind) matches Some((ref_kind, protect)) && old(
                ecx,
            ).machine.tag_used_up(ref_kind, final(ecx).machine),
            result == Err::<Pointer<Option<Tag>>, InterpError>(reason),
    {
        if let Some((ref_kind, _)) = retag::qualify(ty, kind) {
            Self::use_up_tag(&mut ecx.machine, ref_kind);
        }
        Err(reason)
    }

    /// The return place of a frame was to be retagged, but its memory cannot be found, for the
    /// given reason. That is only noticed when the new pointer has its tag.
    pub fn return_place_refused(
        ecx: &mut MiriEvalContext<L>,
        reason: InterpError,
    ) -> (result: Result<Option<Pointer<Option<Tag>>>, InterpError>)
        requires
            old(ecx).machine.wf(),
            old(ecx).machine.can_tag(RefKind::Unique { two_phase: false }),
        ensures
            final(ecx).machine.wf(),
            final(ecx).os == old(ecx).os,
            old(ecx).machine.tag_used_up(
                RefKind::Unique { two_phase: false },
                final(ecx).machine,
            ),
            result == Err::<Option<Pointer<Option<Tag>>>, InterpError>(reason),
    {
        Self::use_up_tag(&mut ecx.machine, RefKind::Unique { two_phase: false });
        Err(reason)
    }

    /// Retags a pointer of the given type. `place` and `size` say what it points to, and
    /// `alloc_extra` belongs to the allocation that it points into; for a pointer to nothing they
    /// are not looked at.
    pub fn retag(
        ecx: &mut MiriEvalContext<L>,
        alloc_extra: &mut AllocExtra,
        kind: RetagKind,
        ty: TyKind,
        val: Pointer<Option<Tag>>,
        place: &ReborrowPlace,
        size: Option<Size>,
        call_id: CallId,
    ) -> (result: Result<Pointer<Option<Tag>>, InterpError>)
        requires
            old(ecx).machine.wf(),
            old(alloc_extra).wf(),
            retag::qualification(ty, kind) matches Some((ref_kind, protect)) ==> old(
                ecx,
            ).machine.can_retag(
                *old(alloc_extra),
                (Retagging { val, place: *place, size, kind: ref_kind, protect, call_id }),
            ),
        ensures
            final(ecx).machine.wf(),
            final(alloc_extra).wf(),
            final(ecx).os == old(ecx).os,
            match retag::qualification(ty, kind) {
                Some((ref_kind, protect)) => old(ecx).machine.retagged(
                    *old(alloc_extra),
                    (Retagging { val, place: *place, size, kind: ref_kind, protect, call_id }),
                    final(ecx).machine,
                    *final(alloc_extra),
                    result,
                ),
                None => {
                    &&& *final(ecx) == *old(ecx)
                    &&& *final(alloc_extra) == *old(alloc_extra)
                    &&& result == Ok::<Pointer<Option<Tag>>, InterpError>(val)
                },
            },
            ty == TyKind::Ref(Mutability::Mut) ==> old(ecx).machine.retagged_as(
                RefKind::Unique { two_phase: kind == RetagKind::TwoPhase },
                kind == RetagKind::FnEntry,
                val,
                *place,
                size,
                call_id,
                *old(alloc_extra),
                *final(alloc_extra),
                result,
            ),
            ty == TyKind::Ref(Mutability::Not) ==> old(ecx).machine.retagged_as(
                RefKind::Shared,
                kind == RetagKind::FnEntry,
                val,
                *place,
                size,
                call_id,
                *old(alloc_extra),
                *final(alloc_extra),
                result,
            ),
            ty == TyKind::Box ==> old(ecx).machine.retagged_as(
                RefKind::Unique { two_phase: false },
                false,
                val,
                *place,
                size,
                call_id,
                *old(alloc_extra),
                *final(alloc_extra),
                result,
            ),
            ty == TyKind::RawPtr(Mutability::Mut) && kind == RetagKind::Raw ==> old(
                ecx,
            ).machine.retagged_as(
                RefKind::Raw { mutable: true },
                false,
                val,
                *place,
                size,
                call_id,
                *old(alloc_extra),
                *final(alloc_extra),
                result,
            ),
            ty == TyKind::RawPtr(Mutability::Not) && kind == RetagKind::Raw ==> old(
                ecx,
            ).machine.retagged_as(
                RefKind::Raw { mutable: false },
                false,
                val,
                *place,
                size,
                call_id,
                *old(alloc_extra),
                *final(alloc_extra),
                result,
            ),
            ty is Other || (ty is RawPtr && kind != RetagKind::Raw) ==> {
                &&& *final(ecx) == *old(ecx)
                &&& *final(alloc_extra) == *old(alloc_extra)
                &&& result == Ok::<Pointer<Option<Tag>>, InterpError>(val)
            },
    {
        match retag::qualify(ty, kind) {
            Some((ref_kind, protect)) => Self::retag_pointer(
                &mut ecx.machine,
                alloc_extra,
                val,
                place,
                size,
                ref_kind,
                protect,
                call_id,
            ),
            None => Ok(val),
        }
    }

    /// After a frame got pushed, retags its return place, if it has one that holds something.
    pub fn after_stack_push(
        ecx: &mut MiriEvalContext<L>,
        alloc_extra: &mut AllocExtra,
        return_place: Option<Pointer<Option<Tag>>>,
        place: &ReborrowPlace,
        size: Size,
        call_id: CallId,
    ) -> (result: Result<Option<Pointer<Option<Tag>>>, InterpError>)
        requires
            old(ecx).machine.wf(),
            old(alloc_extra).wf(),
            return_place matches Some(val) ==> size > 0 ==> old(ecx).machine.can_retag(
                *old(alloc_extra),
                return_retagging(val, *place, size, call_id),
            ),
        ensures
            final(ecx).machine.wf(),
            final(alloc_extra).wf(),
            final(ecx).os == old(ecx).os,
            return_place is None || size == 0 ==> {
                &&& *final(ecx) == *old(ecx)
                &&& *final(alloc_extra) == *old(alloc_extra)
                &&& result == Ok::<Option<Pointer<Option<Tag>>>, InterpError>(return_place)
            },
            return_place matches Some(val) ==> size > 0 ==> match result {
                Ok(Some(ptr)) => old(ecx).machine.retagged(
                    *old(alloc_extra),
                    return_retagging(val, *place, size, call_id),
                    final(ecx).machine,
                    *final(alloc_extra),
                    Ok(ptr),
                ),
                Ok(None) => false,
                Err(error) => old(ecx).machine.retagged(
                    *old(alloc_extra),
                    return_retagging(val, *place, size, call_id),
                    final(ecx).machine,
                    *final(alloc_extra),
                    Err(error),
                ),
            },
            return_place matches Some(val) ==> size > 0 ==> old(ecx).machine.retagged_as(
                RefKind::Unique { two_phase: false },
                true,
                val,
                *place,
                Some(size),
                call_id,
                *old(alloc_extra),
                *final(alloc_extra),
                match result {
                    Ok(ptr) => Ok(ptr->Some_0),
                    Err(error) => Err(error),
                },
            ),
    {
        let val = match return_place {
            Some(val) => val,
            None => return Ok(None),
        };
        let state = match &mut ecx.machine.stacked_borrows {
            Some(state) => state,
            None => return Ok(Some(val)),
        };
        match &mut alloc_extra.stacked_borrows {
            Some(stacked_borrows) => retag::retag_return_place(
                stacked_borrows,
                Some(val),
                place,
                size,
                call_id,
                state,
                &mut ecx.machine.diagnostics,
            ),
            // There may not be any memory here.
            None => Ok(Some(val)),
        }
    }

    /// The extra data of a new frame. It gets a new call ID; without Stacked Borrows that is
    /// always 1.
    pub fn init_frame_extra<C>(
        ecx: &mut MiriEvalContext<L>,
        timing: Option<measureme::DetachedTiming>,
    ) -> (extra: FrameData<C>)
        requires
            old(ecx).machine.wf(),
            old(ecx).machine.stacked_borrows matches Some(state) ==> state.next_call_id < u64::MAX,
        ensures
            final(ecx).machine.wf(),
            extra.unwind_catch is None,
            extra.timing == timing,
            match old(ecx).machine.stacked_borrows {
                Some(state) => {
                    &&& extra.call_id == state.next_call_id
                    &&& final(ecx).machine.stacked_borrows matches Some(state_after)
                    &&& state_after.same_but_calls(state)
                    &&& state_after.next_call_id == state.next_call_id + 1
                    &&& state_after.active_calls@ == state.active_calls@.insert(extra.call_id)
                    &&& final(ecx).machine.diagnostics@ == old(ecx).machine.diagnostics@
                        + state.new_call_notices()
                    &&& final(ecx).machine == (Evaluator {
                        stacked_borrows: final(ecx).machine.stacked_borrows,
                        diagnostics: final(ecx).machine.diagnostics,
                        ..old(ecx).machine
                    })
                    &&& final(ecx).os == old(ecx).os
                    &&& global_laws::call_started(state, state_after)
                },
                None => extra.call_id == 1 && *final(ecx) == *old(ecx),
            },
    {
        let call_id: u64 = if let Some(state) = &mut ecx.machine.stacked_borrows {
            state.new_call(&mut ecx.machine.diagnostics)
        } else {
            1
        };
        FrameData { call_id, unwind_catch: None, timing }
    }

    /// Takes the extra data of a frame that was popped apart: what is needed to go on after it,
    /// and the timing to finish recording, if there is a profile.
    pub fn after_stack_pop<C>(&self, extra: FrameData<C>) -> (parts: (
        FrameData<C>,
        Option<measureme::DetachedTiming>,
    ))
        requires
            self.profiling ==> extra.timing is Some,
        ensures
            parts.0 == (FrameData::<C> { timing: None, ..extra }),
            parts.1 == (if self.profiling {
                extra.timing
            } else {
                None
            }),
    {
        let (extra, timing) = extra.take_timing();
        if self.profiling {
            (extra, timing)
        } else {
            (extra, None)
        }
    }
}

} // verus!
