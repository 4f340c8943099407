//! What the hooks of the machine guarantee.
use vstd::prelude::*;

use crate::error::InterpError;
use crate::machine::alloc_extra::AllocExtra;
use crate::machine::config::MiriConfig;
use crate::machine::evaluator;
use crate::machine::evaluator::Evaluator;
use crate::machine::extern_statics;
use crate::machine::hooks;
use crate::machine::layouts::PrimitiveTy;
use crate::machine::memory_kind::{MayLeak, MemoryKind, MiriMemoryKind};
use crate::machine::profiling::FrameTiming;
use crate::machine::tag::{Pointer, Tag};
use crate::memory::{AllocId, AllocRange, Size};
use crate::stacked_borrows::allocation_laws;
use crate::stacked_borrows::allocation_laws::SweepDone;
use crate::stacked_borrows::diagnostics::{DiagnosticView, HistoryEvent};
use crate::stacked_borrows::global::TagBook;
use crate::stacked_borrows::item::{CallId, Permission, PtrId, SbTag};
use crate::stacked_borrows::retag::Retagging;
use crate::stacked_borrows::retag_laws;
use crate::stacked_borrows::stack::StackOp;
use crate::stacked_borrows::stacks;
use crate::stacked_borrows::stacks::Track;

verus! {

/// Without extra data, no access is ever refused, and none leaves a trace in the allocation.
pub proof fn law_unchecked_memory_is_left_alone<L>(
    op: StackOp,
    alloc_id: AllocId,
    range: AllocRange,
    race: Result<(), String>,
    notices: Seq<DiagnosticView>,
    before: Evaluator<L>,
    after: Evaluator<L>,
    extra_before: AllocExtra,
    extra_after: AllocExtra,
    result: Result<(), InterpError>,
)
    requires
        hooks::memory_hook(
            op,
            alloc_id,
            range,
            race,
            notices,
            before,
            after,
            extra_before,
            extra_after,
            result,
        ),
        extra_before.stacked_borrows is None,
        !extra_before.data_race,
    ensures
        result is Ok,
        extra_after == extra_before,
        after.diagnostics@ == notices,
{
}

/// A race stops the program before the borrow stacks are looked at.
pub proof fn law_race_stops_first<L>(
    op: StackOp,
    alloc_id: AllocId,
    range: AllocRange,
    race: Result<(), String>,
    notices: Seq<DiagnosticView>,
    before: Evaluator<L>,
    after: Evaluator<L>,
    extra_before: AllocExtra,
    extra_after: AllocExtra,
    result: Result<(), InterpError>,
)
    requires
        hooks::memory_hook(
            op,
            alloc_id,
            range,
            race,
            notices,
            before,
            after,
            extra_before,
            extra_after,
            result,
        ),
        extra_before.data_race,
        race is Err,
    ensures
        result matches Err(InterpError::DataRace(message)) && message == race->Err_0,
        extra_after == extra_before,
{
}

/// The memory hooks change nothing about the machine but what there is to report.
pub proof fn law_memory_hooks_only_report<L>(
    op: StackOp,
    alloc_id: AllocId,
    range: AllocRange,
    race: Result<(), String>,
    notices: Seq<DiagnosticView>,
    before: Evaluator<L>,
    after: Evaluator<L>,
    extra_before: AllocExtra,
    extra_after: AllocExtra,
    result: Result<(), InterpError>,
)
    requires
        before.wf(),
        hooks::memory_hook(
            op,
            alloc_id,
            range,
            race,
            notices,
            before,
            after,
            extra_before,
            extra_after,
            result,
        ),
    ensures
        after.wf(),
        after.stacked_borrows == before.stacked_borrows,
        after.extern_statics == before.extern_statics,
        after.rng == before.rng,
        extra_after.data_race == extra_before.data_race,
        extra_after.stacked_borrows is Some == extra_before.stacked_borrows is Some,
{
}

/// The borrow stacks of the allocation, if it has any, are sound.
pub open spec fn sound_extra<L>(extra: AllocExtra, machine: Evaluator<L>) -> bool {
    extra.stacked_borrows matches Some(stacks) ==> {
        &&& machine.stacked_borrows matches Some(state)
        &&& allocation_laws::sound(stacks.locations(), state.next_ptr_id)
    }
}

/// A new allocation starts with sound borrow stacks.
pub proof fn law_allocations_start_sound<L>(
    before: Evaluator<L>,
    id: AllocId,
    size: Size,
    kind: MemoryKind,
    pointers: Seq<(AllocId, u64)>,
    after: Evaluator<L>,
    extra: AllocExtra,
    tagged: Seq<Pointer<Tag>>,
)
    requires
        before.wf(),
        after.wf(),
        before.allocated(id, size, kind, pointers, after, extra, tagged),
    ensures
        sound_extra(extra, after),
{
    if let Some(state) = before.stacked_borrows {
        lemma_allocation_keeps_initial_tag(before, id, size, kind, pointers, after, extra, tagged);
        let state_after = after.stacked_borrows->Some_0;
        assert(state_after.base_ptr_ids@.contains_key(id));
        allocation_laws::law_new_allocation_is_sound(
            extra.stacked_borrows->Some_0,
            size,
            stacks::initial_perm(kind),
            stacks::initial_tag(id, kind, state),
            state_after.next_ptr_id,
        );
    }
}

/// Reading and writing memory keep its borrow stacks sound, however that ends.
pub proof fn law_accesses_keep_allocations_sound<L>(
    op: StackOp,
    alloc_id: AllocId,
    range: AllocRange,
    race: Result<(), String>,
    notices: Seq<DiagnosticView>,
    before: Evaluator<L>,
    after: Evaluator<L>,
    extra_before: AllocExtra,
    extra_after: AllocExtra,
    result: Result<(), InterpError>,
)
    requires
        before.can_follow(extra_before, range),
        sound_extra(extra_before, before),
        op is Access,
        hooks::memory_hook(
            op,
            alloc_id,
            range,
            race,
            notices,
            before,
            after,
            extra_before,
            extra_after,
            result,
        ),
    ensures
        sound_extra(extra_after, after),
{
    if extra_before.stacked_borrows is Some && !(extra_before.data_race && race is Err) {
        let stacks = extra_before.stacked_borrows->Some_0;
        let done = SweepDone {
            op,
            alloc_id,
            range,
            global: before.stacked_borrows->Some_0,
            before: Track { notices, ..stacks.track(before.diagnostics) },
            after: extra_after.stacked_borrows->Some_0.track(after.diagnostics),
            result: match result {
                Ok(()) => Ok(()),
                Err(InterpError::ExperimentalUb(error)) => Err(error),
                Err(_) => arbitrary(),
            },
        };
        allocation_laws::law_stacks_stay_sound(
            done,
            before.stacked_borrows->Some_0.next_ptr_id,
        );
    }
}

/// Retagging a pointer keeps the borrow stacks of the allocation that it points into sound,
/// however that ends.
pub proof fn law_retagging_keeps_allocations_sound<L>(
    before: Evaluator<L>,
    extra: AllocExtra,
    retagging: Retagging,
    after: Evaluator<L>,
    extra_after: AllocExtra,
    result: Result<Pointer<Option<Tag>>, InterpError>,
)
    requires
        before.wf(),
        extra.wf(),
        before.can_retag(extra, retagging),
        sound_extra(extra, before),
        before.retagged(extra, retagging, after, extra_after, result),
        retagging.place.parts_disjoint(),
    ensures
        sound_extra(extra_after, after),
{
    if before.stacked_borrows is Some && retagging.size is Some && extra.stacked_borrows is Some {
        let state = before.stacked_borrows->Some_0;
        let state_after = after.stacked_borrows->Some_0;
        let stacks = extra.stacked_borrows->Some_0;
        let size = retagging.size->Some_0;
        if size == 0 {
            allocation_laws::law_sound_stacks_stay_so(
                stacks.locations(),
                state.next_ptr_id,
                state_after.next_ptr_id,
            );
        } else {
            retag_laws::law_retagging_keeps_stacks_sound(
                retagging,
                state,
                state_after,
                stacks.track(before.diagnostics),
                extra_after.stacked_borrows->Some_0.track(after.diagnostics),
                result,
            );
        }
    }
}

/// The pointers in a new allocation that point to itself have the tag that it starts with.
pub proof fn law_cyclic_pointers_have_the_initial_tag<L>(
    before: Evaluator<L>,
    id: AllocId,
    size: Size,
    kind: MemoryKind,
    pointers: Seq<(AllocId, u64)>,
    after: Evaluator<L>,
    extra: AllocExtra,
    tagged: Seq<Pointer<Tag>>,
    k: int,
)
    requires
        before.stacked_borrows is Some,
        before.allocated(id, size, kind, pointers, after, extra, tagged),
        0 <= k < pointers.len(),
        pointers[k].0 == id,
    ensures
        tagged[k].provenance.alloc_id == id,
        tagged[k].provenance.sb == stacks::initial_tag(
            id,
            kind,
            before.stacked_borrows->Some_0,
        ),
{
    lemma_allocation_keeps_initial_tag(before, id, size, kind, pointers, after, extra, tagged);
    let pointer = tagged[k];
}

/// The base pointer to a new allocation may be used for all of it.
pub proof fn law_base_pointer_may_access_the_allocation<L>(
    before: Evaluator<L>,
    id: AllocId,
    size: Size,
    kind: MemoryKind,
    pointers: Seq<(AllocId, u64)>,
    after: Evaluator<L>,
    extra: AllocExtra,
    tagged: Seq<Pointer<Tag>>,
    done: SweepDone,
)
    requires
        before.stacked_borrows is Some,
        before.allocated(id, size, kind, pointers, after, extra, tagged),
        done.valid(),
        done.before.locations == extra.stacked_borrows->Some_0.locations(),
        done.range.within(size as int),
        done.op matches StackOp::Access { access, tag } ==> tag
            == after.stacked_borrows->Some_0.base_tag_spec(id),
        done.op matches StackOp::Dealloc { tag } ==> tag
            == after.stacked_borrows->Some_0.base_tag_spec(id),
        !(done.op is Grant),
    ensures
        done.result is Ok,
{
    lemma_allocation_keeps_initial_tag(before, id, size, kind, pointers, after, extra, tagged);
    let stacks = extra.stacked_borrows->Some_0;
    let perm = stacks::initial_perm(kind);
    let tag = stacks::initial_tag(id, kind, before.stacked_borrows->Some_0);
    allocation_laws::law_new_allocation_is_accessible(stacks, size, perm, tag, done);
}

/// The base tag of a new allocation stays the one that it starts with while the pointers in it
/// are tagged.
proof fn lemma_allocation_keeps_initial_tag<L>(
    before: Evaluator<L>,
    id: AllocId,
    size: Size,
    kind: MemoryKind,
    pointers: Seq<(AllocId, u64)>,
    after: Evaluator<L>,
    extra: AllocExtra,
    tagged: Seq<Pointer<Tag>>,
)
    requires
        before.stacked_borrows is Some,
        before.allocated(id, size, kind, pointers, after, extra, tagged),
    ensures
        after.stacked_borrows matches Some(state) && state.base_ptr_ids@.contains_key(id)
            && state.base_ptr_ids@[id] == stacks::initial_tag(
            id,
            kind,
            before.stacked_borrows->Some_0,
        ),
{
    let state = before.stacked_borrows->Some_0;
    let book = stacks::initial_book(id, kind, state);
    let ids = hooks::pointed_to(pointers);
    book.lemma_asked_for(ids, 0, pointers.len() as int);
    assert(book.asked_for(ids, 0).table.contains_key(id));
    let state_after = after.stacked_borrows->Some_0;
    assert(state_after.base_ptr_ids@ == state_after.book().table);
}

/// Every extern static that was set up is found under its name.
pub proof fn law_extern_statics_are_found(
    table: Map<Seq<char>, Pointer<Tag>>,
    os: Seq<char>,
    pointers: Seq<Pointer<Option<Tag>>>,
    n: int,
    k: int,
)
    requires
        0 <= k < n <= extern_statics::statics_on(os).len(),
    ensures
        ({
            let decls = extern_statics::statics_on(os);
            let after = evaluator::with_statics(table, decls, pointers, n);
            after.contains_key(decls[k].0) && after[decls[k].0] == evaluator::with_provenance(
                pointers[k],
            )
        }),
    decreases n,
{
    extern_statics::lemma_names_differ(os);
    if k < n - 1 {
        law_extern_statics_are_found(table, os, pointers, n - 1, k);
        let (a, b) = (extern_statics::statics_on(os)[k], extern_statics::statics_on(os)[n - 1]);
    }
}

/// Setting up the extern statics touches no other name.
pub proof fn law_other_names_are_kept(
    table: Map<Seq<char>, Pointer<Tag>>,
    os: Seq<char>,
    pointers: Seq<Pointer<Option<Tag>>>,
    n: int,
    name: Seq<char>,
)
    requires
        n <= extern_statics::statics_on(os).len(),
        forall|k: int|
            0 <= k < extern_statics::statics_on(os).len() ==> (
            #[trigger] extern_statics::statics_on(os)[k]).0 != name,
    ensures
        ({
            let after = evaluator::with_statics(
                table,
                extern_statics::statics_on(os),
                pointers,
                n,
            );
            after.contains_key(name) == table.contains_key(name) && (table.contains_key(name)
                ==> after[name] == table[name])
        }),
    decreases n,
{
    if n > 0 {
        law_other_names_are_kept(table, os, pointers, n - 1, name);
        let decl = extern_statics::statics_on(os)[n - 1];
    }
}

/// Once a label was allocated for a function, its frames are recorded under a label, and those of
/// other functions as before.
pub proof fn law_labelled_functions_are_recorded<L>(
    before: Evaluator<L>,
    after: Evaluator<L>,
    fn_name: Seq<char>,
    label: u32,
    other: Seq<char>,
)
    requires
        before.profiling,
        after.profiling,
        after.labels() == before.labels_with(fn_name, label),
    ensures
        after.timing_for(fn_name) is Start,
        before.timing_for(fn_name) == FrameTiming::NewLabel ==> after.timing_for(fn_name)
            == (FrameTiming::Start { kind: label, event: label }),
        other != fn_name ==> after.timing_for(other) == before.timing_for(other),
{
}

/// A base pointer that was made of a pointer, whatever address that has, is taken apart into what
/// it was made of: the allocation and the offset, with the tag that it got.
pub proof fn law_base_pointer_is_taken_apart<L>(
    machine: Evaluator<L>,
    ptr: Pointer<AllocId>,
    absolute_addr: u64,
)
    ensures
        ({
            let tagged = machine.base_pointer(ptr.provenance, absolute_addr);
            hooks::alloc_parts(tagged, ptr.offset) == (
                ptr.provenance,
                ptr.offset,
                tagged.provenance.sb,
            )
        }),
{
}

/// Converting a pointer to an absolute address and back gives the same allocation and offset: if
/// `address_of` says where the offsets of an allocation are, and `offset_of` undoes that, a base
/// pointer is taken apart into what it was made of, by its address alone.
pub proof fn law_addresses_lead_back<L>(
    machine: Evaluator<L>,
    ptr: Pointer<AllocId>,
    address_of: spec_fn(AllocId, Size) -> u64,
    offset_of: spec_fn(AllocId, u64) -> Size,
)
    requires
        offset_of(ptr.provenance, address_of(ptr.provenance, ptr.offset)) == ptr.offset,
    ensures
        ({
            let tagged = machine.base_pointer(
                ptr.provenance,
                address_of(ptr.provenance, ptr.offset),
            );
            let rel = offset_of(tagged.provenance.alloc_id, tagged.offset);
            hooks::alloc_parts(tagged, rel) == (
                ptr.provenance,
                ptr.offset,
                tagged.provenance.sb,
            )
        }),
{
}

/// The same where each allocation has a base address and addresses wrap around at the end of the
/// address space: every offset in the pointer range comes back.
pub proof fn law_wrapping_addresses_lead_back<L>(
    machine: Evaluator<L>,
    ptr: Pointer<AllocId>,
    base_addr: u64,
    range: int,
)
    requires
        ptr.offset < range <= u64::MAX + 1,
    ensures
        ({
            let tagged = machine.base_pointer(
                ptr.provenance,
                ((base_addr + ptr.offset) % range) as u64,
            );
            let rel = ((tagged.offset - base_addr) % range) as Size;
            hooks::alloc_parts(tagged, rel) == (
                ptr.provenance,
                ptr.offset,
                tagged.provenance.sb,
            )
        }),
{
    let sum = base_addr + ptr.offset;
    vstd::arithmetic::div_mod::lemma_mod_bound(sum, range);
    vstd::arithmetic::div_mod::lemma_sub_mod_noop(sum, base_addr as int, range);
    vstd::arithmetic::div_mod::lemma_sub_mod_noop(sum % range, base_addr as int, range);
    vstd::arithmetic::div_mod::lemma_mod_twice(sum, range);
    vstd::arithmetic::div_mod::lemma_small_mod(ptr.offset as nat, range as nat);
}

/// No extern static is provided on an operating system that is neither Linux nor Windows.
pub proof fn law_other_systems_have_no_extern_statics(os: Seq<char>)
    requires
        os != "linux"@,
        os != "windows"@,
    ensures
        extern_statics::statics_on(os).len() == 0,
{
}

/// Every byte of a new allocation has exactly one item, without a protector. It is for the first
/// pointer to the allocation: the base tag that was asked for before, or else the next pointer ID.
/// Only memory on a heap has none, unless raw pointers are told apart. The item is unique exactly
/// for locals, because anything else can be reached through other pointers.
pub proof fn law_new_memory_has_one_item<L>(
    before: Evaluator<L>,
    id: AllocId,
    size: Size,
    kind: MemoryKind,
    pointers: Seq<(AllocId, u64)>,
    after: Evaluator<L>,
    extra: AllocExtra,
    tagged: Seq<Pointer<Tag>>,
    i: int,
)
    requires
        before.stacked_borrows is Some,
        before.allocated(id, size, kind, pointers, after, extra, tagged),
        0 <= i < size,
    ensures
        extra.stacks_of_bytes().len() == size,
        ({
            let state = before.stacked_borrows->Some_0;
            let s = extra.stacks_of_bytes()[i];
            let heap = kind == MemoryKind::Machine(MiriMemoryKind::Rust) || kind
                == MemoryKind::Machine(MiriMemoryKind::C) || kind == MemoryKind::Machine(
                MiriMemoryKind::WinHeap,
            );
            &&& s.len() == 1
            &&& s[0].protector is None
            &&& kind == MemoryKind::Stack ==> s[0].perm == Permission::Unique
            &&& kind != MemoryKind::Stack ==> s[0].perm == Permission::SharedReadWrite
            &&& heap && !state.tag_raw ==> s[0].tag == SbTag::Untagged
            &&& !(heap && !state.tag_raw) && state.base_ptr_ids@.contains_key(id) ==> s[0].tag
                == state.base_ptr_ids@[id]
            &&& !(heap && !state.tag_raw) && !state.base_ptr_ids@.contains_key(id) ==> s[0].tag
                == SbTag::Tagged(state.next_ptr_id)
            &&& after.stacked_borrows->Some_0.base_ptr_ids@.contains_key(id)
            &&& after.stacked_borrows->Some_0.base_ptr_ids@[id] == s[0].tag
        }),
{
    lemma_allocation_keeps_initial_tag(before, id, size, kind, pointers, after, extra, tagged);
}

/// The pointers in a new allocation keep their addresses and what they point to. One to an
/// allocation that had a base tag gets that. One to an allocation that had none, other than the new
/// one, gets a pointer ID that nobody had, and that is the base tag from now on. Base tags that
/// were there stay.
pub proof fn law_pointers_in_new_memory_are_tagged<L>(
    before: Evaluator<L>,
    id: AllocId,
    size: Size,
    kind: MemoryKind,
    pointers: Seq<(AllocId, u64)>,
    after: Evaluator<L>,
    extra: AllocExtra,
    tagged: Seq<Pointer<Tag>>,
    k: int,
)
    requires
        before.wf(),
        before.can_tag_allocation(id, kind, pointers),
        before.allocated(id, size, kind, pointers, after, extra, tagged),
        0 <= k < pointers.len(),
    ensures
        tagged.len() == pointers.len(),
        tagged[k].offset == pointers[k].1,
        tagged[k].provenance.alloc_id == pointers[k].0,
        before.stacked_borrows is None ==> tagged[k].provenance.sb == SbTag::Untagged,
        before.stacked_borrows matches Some(state) ==> {
            let target = pointers[k].0;
            let state_after = after.stacked_borrows->Some_0;
            &&& state_after.base_ptr_ids@.contains_key(target)
            &&& tagged[k].provenance.sb == state_after.base_ptr_ids@[target]
            &&& state.base_ptr_ids@.contains_key(target) ==> tagged[k].provenance.sb
                == state.base_ptr_ids@[target]
            &&& !state.base_ptr_ids@.contains_key(target) && target != id ==> (
            tagged[k].provenance.sb matches SbTag::Tagged(n) && state.next_ptr_id <= n
                < state_after.next_ptr_id)
        },
{
    if let Some(state) = before.stacked_borrows {
        let book = stacks::initial_book(id, kind, state);
        let ids = hooks::pointed_to(pointers);
        let n = pointers.len() as int;
        let state_after = after.stacked_borrows->Some_0;
        let target = pointers[k].0;
        assert(state_after.base_ptr_ids@ == state_after.book().table);
        assert(ids[k] == target);
        let pointer = tagged[k];
        book.lemma_asked_for(ids, k + 1, n);
        assert(book.asked_for(ids, k + 1).table.contains_key(target));
        book.lemma_asked_for(ids, 0, n);
        if state.base_ptr_ids@.contains_key(target) {
            assert(book.asked_for(ids, 0).table.contains_key(target));
        } else if target != id {
            lemma_new_base_tag(book, ids, n, target);
        }
    }
}

/// A base tag that was not in the book gets one of the pointer IDs that are handed out.
proof fn lemma_new_base_tag(book: TagBook, ids: Seq<AllocId>, n: int, id: AllocId)
    requires
        !book.table.contains_key(id),
        0 <= book.next,
        book.asked_for(ids, n).next <= u64::MAX,
        book.asked_for(ids, n).table.contains_key(id),
    ensures
        book.asked_for(ids, n).table[id] matches SbTag::Tagged(m) && book.next <= m
            < book.asked_for(ids, n).next,
    decreases n,
{
    if n > 0 {
        let earlier = book.asked_for(ids, n - 1);
        book.lemma_asked_for(ids, n - 1, n);
        book.lemma_asked_for(ids, 0, n - 1);
        if earlier.table.contains_key(id) {
            lemma_new_base_tag(book, ids, n - 1, id);
        }
    }
}

/// A new allocation is reported exactly if it is one of those to report about, before anything
/// else that is reported of it. What was reported before stays.
pub proof fn law_new_allocations_are_reported<L>(
    before: Evaluator<L>,
    id: AllocId,
    size: Size,
    kind: MemoryKind,
    pointers: Seq<(AllocId, u64)>,
    after: Evaluator<L>,
    extra: AllocExtra,
    tagged: Seq<Pointer<Tag>>,
)
    requires
        before.allocated(id, size, kind, pointers, after, extra, tagged),
    ensures
        ({
            let n = before.diagnostics@.len() as int;
            let created = DiagnosticView::CreatedAlloc(id);
            &&& n <= after.diagnostics@.len()
            &&& forall|k: int| 0 <= k < n ==> after.diagnostics@[k] == before.diagnostics@[k]
            &&& before.tracked_alloc_ids@.contains(id) ==> n < after.diagnostics@.len()
                && after.diagnostics@[n] == created
            &&& !before.tracked_alloc_ids@.contains(id) ==> forall|k: int|
                n <= k < after.diagnostics@.len() ==> (#[trigger] after.diagnostics@[k])
                    is CreatedPointerTag
        }),
{
    if let Some(state) = before.stacked_borrows {
        let book = stacks::initial_book(id, kind, state);
        lemma_book_reports(
            book,
            hooks::pointed_to(pointers),
            pointers.len() as int,
            state.tracked_pointer_tags@,
        );
    }
}

/// Asking for base tags reports nothing but new tags.
proof fn lemma_book_reports(book: TagBook, ids: Seq<AllocId>, n: int, traced: Set<PtrId>)
    ensures
        forall|k: int|
            0 <= k < book.notices_for(ids, n, traced).len() ==> (#[trigger] book.notices_for(
                ids,
                n,
                traced,
            )[k]) is CreatedPointerTag,
    decreases n,
{
    if n > 0 {
        lemma_book_reports(book, ids, n - 1, traced);
    }
}

/// A machine does what it was configured to do, each thing as it was asked for and no other way.
pub proof fn law_configuration_is_obeyed<L>(machine: Evaluator<L>, config: MiriConfig, id: u64)
    requires
        machine.configured(config),
    ensures
        config.stacked_borrows <==> machine.stacked_borrows is Some,
        machine.stacked_borrows matches Some(state) ==> {
            &&& state.tag_raw == config.tag_raw
            &&& state.tracked_pointer_tags@.contains(id) == config.tracked_pointer_tags@.contains(
                id,
            )
            &&& state.tracked_call_ids@.contains(id) == config.tracked_call_ids@.contains(id)
            &&& state.tracked_alloced_location_ids@.contains(id)
                == config.tracked_alloced_location_ids@.contains(id)
        },
        machine.tracked_alloc_ids@.contains(id) == config.tracked_alloc_ids@.contains(id),
        machine.data_race == config.data_race_detector,
        machine.validate == config.validate,
        machine.enforce_number_validity == config.check_number_validity,
        machine.enforce_abi == config.check_abi,
        machine.panic_on_unsupported == config.panic_on_unsupported,
        machine.isolated_op == config.isolated_op,
        machine.check_alignment == config.check_alignment,
        machine.backtrace_style == config.backtrace_style,
        machine.profiling <==> config.measureme_out is Some,
{
}

/// A machine that nothing happened to hands out the first identifiers first, has reported nothing,
/// and knows of no allocation, no call and no static.
pub proof fn law_new_machine_knows_nothing<L>(
    machine: Evaluator<L>,
    id: AllocId,
    call: CallId,
    name: Seq<char>,
)
    requires
        machine.unused(),
    ensures
        machine.diagnostics@.len() == 0,
        machine.static_roots@.len() == 0,
        machine.argc is None && machine.argv is None && machine.cmd_line is None,
        !machine.statics().contains_key(name),
        !machine.labels().contains_key(name),
        machine.stacked_borrows matches Some(state) ==> {
            &&& state.base_tag_spec(id) == SbTag::Tagged(1)
            &&& state.next_call_id == 1
            &&& !state.active_calls@.contains(call)
        },
{
}

/// The history of a new allocation starts with its first pointer, which points to all of it.
pub proof fn law_new_allocations_are_recorded<L>(
    before: Evaluator<L>,
    id: AllocId,
    size: Size,
    kind: MemoryKind,
    pointers: Seq<(AllocId, u64)>,
    after: Evaluator<L>,
    extra: AllocExtra,
    tagged: Seq<Pointer<Tag>>,
)
    requires
        before.stacked_borrows is Some,
        before.allocated(id, size, kind, pointers, after, extra, tagged),
    ensures
        extra.stacked_borrows is Some,
        ({
            let history = extra.stacked_borrows->Some_0.history;
            &&& history@.len() == 1
            &&& history@[0] matches HistoryEvent::Creation { parent, tag, range }
            &&& parent is None
            &&& tag == after.stacked_borrows->Some_0.base_ptr_ids@[id]
            &&& range.start == 0 && range.size == size
            &&& history.local_crates@ == before.local_crates@
        }),
{
    lemma_allocation_keeps_initial_tag(before, id, size, kind, pointers, after, extra, tagged);
}

/// The base pointer of an allocation has its base tag: the one that it has, or else the next
/// pointer ID. Without Stacked Borrows there are no tags. It has the address that was asked for.
pub proof fn law_base_pointer_has_the_base_tag<L>(machine: Evaluator<L>, id: AllocId, addr: u64)
    ensures
        machine.base_pointer(id, addr).offset == addr,
        machine.base_pointer(id, addr).provenance.alloc_id == id,
        machine.stacked_borrows is None ==> machine.base_pointer(id, addr).provenance.sb
            == SbTag::Untagged,
        machine.stacked_borrows matches Some(state) ==> {
            let sb = machine.base_pointer(id, addr).provenance.sb;
            &&& state.base_ptr_ids@.contains_key(id) ==> sb == state.base_ptr_ids@[id]
            &&& !state.base_ptr_ids@.contains_key(id) ==> sb == SbTag::Tagged(state.next_ptr_id)
        },
{
}

/// An extern static is found exactly where it was put.
pub proof fn law_extern_static_is_where_it_was_put(
    table: Map<Seq<char>, Pointer<Tag>>,
    os: Seq<char>,
    pointers: Seq<Pointer<Option<Tag>>>,
    n: int,
    k: int,
)
    requires
        0 <= k < n <= extern_statics::statics_on(os).len(),
        pointers[k].provenance is Some,
    ensures
        ({
            let decls = extern_statics::statics_on(os);
            let found = evaluator::with_statics(table, decls, pointers, n)[decls[k].0];
            found.offset == pointers[k].offset && Some(found.provenance) == pointers[k].provenance
        }),
{
    law_extern_statics_are_found(table, os, pointers, n, k);
}

/// An allocation is followed by what the machine follows memory with, and by nothing else. Making
/// it known changes nothing about the machine but which tags there are and what was reported.
pub proof fn law_allocations_are_followed_as_configured<L>(
    before: Evaluator<L>,
    id: AllocId,
    size: Size,
    kind: MemoryKind,
    pointers: Seq<(AllocId, u64)>,
    after: Evaluator<L>,
    extra: AllocExtra,
    tagged: Seq<Pointer<Tag>>,
)
    requires
        before.allocated(id, size, kind, pointers, after, extra, tagged),
    ensures
        extra.stacked_borrows is Some <==> before.stacked_borrows is Some,
        extra.data_race <==> before.data_race,
        after.stacked_borrows is Some <==> before.stacked_borrows is Some,
        after.extern_statics == before.extern_statics,
        after.rng == before.rng,
        after.tracked_alloc_ids == before.tracked_alloc_ids,
        before.stacked_borrows matches Some(state) ==> {
            let state_after = after.stacked_borrows->Some_0;
            &&& state_after.active_calls == state.active_calls
            &&& state_after.next_call_id == state.next_call_id
            &&& state_after.tag_raw == state.tag_raw
            &&& state_after.tracked_pointer_tags == state.tracked_pointer_tags
            &&& state_after.tracked_alloced_location_ids == state.tracked_alloced_location_ids
        },
{
}

/// Frames are recorded exactly if there is a profile, and under the label of their function.
pub proof fn law_frames_are_recorded_under_their_function<L>(
    machine: Evaluator<L>,
    fn_name: Seq<char>,
)
    ensures
        machine.timing_for(fn_name) is Off <==> !machine.profiling,
        machine.timing_for(fn_name) is NewLabel <==> machine.profiling
            && !machine.labels().contains_key(fn_name),
        machine.timing_for(fn_name) matches FrameTiming::Start { kind, event } ==> kind
            == machine.labels()[fn_name] && event == machine.labels()[fn_name],
{
}

/// A frame is local exactly if its function is in the crate that is being interpreted or in one of
/// the others that count as local, wherever in their list.
pub proof fn law_local_crates_are_recognized(local_crates: Seq<u32>, krate: u32, i: int)
    ensures
        evaluator::in_local_crate(local_crates, 0),
        0 <= i < local_crates.len() ==> evaluator::in_local_crate(local_crates, local_crates[i]),
        krate != 0 && (forall|j: int| 0 <= j < local_crates.len() ==> local_crates[j] != krate)
            ==> !evaluator::in_local_crate(local_crates, krate),
{
    if 0 <= i < local_crates.len() {
        assert(local_crates.contains(local_crates[i]));
    }
}

/// A static outside of the program goes by its link name, and only without one by its own.
pub proof fn law_link_name_comes_first(link_name: Seq<char>, item_name: Seq<char>)
    ensures
        hooks::static_name(Some(link_name), item_name) == link_name,
        hooks::static_name(None, item_name) == item_name,
{
}

/// Memory must be given back exactly if the program asked an allocator for it, or if the runtime
/// did.
pub proof fn law_heap_memory_may_not_leak(kind: MiriMemoryKind)
    ensures
        MemoryKind::Machine(kind).is_heap() ==> !kind.leakable(),
        kind == MiriMemoryKind::Runtime ==> !kind.leakable(),
        !MemoryKind::Machine(kind).is_heap() && kind != MiriMemoryKind::Runtime
            ==> kind.leakable(),
{
}

/// Each layout is asked for at its own turn.
pub proof fn law_layouts_have_their_turns(a: PrimitiveTy, b: PrimitiveTy)
    ensures
        0 <= a.rank() < 9,
        a.rank() == b.rank() ==> a == b,
{
}

/// A function keeps the label that it was given first.
pub proof fn law_labels_are_kept<L>(
    machine: Evaluator<L>,
    fn_name: Seq<char>,
    label: u32,
    other: Seq<char>,
)
    ensures
        machine.labels_with(fn_name, label).contains_key(fn_name),
        machine.labels().contains_key(fn_name) ==> machine.labels_with(fn_name, label)[fn_name]
            == machine.labels()[fn_name],
        !machine.labels().contains_key(fn_name) ==> machine.labels_with(fn_name, label)[fn_name]
            == label,
        other != fn_name ==> machine.labels_with(fn_name, label).contains_key(other)
            == machine.labels().contains_key(other) && machine.labels_with(fn_name, label)[other]
            == machine.labels()[other],
{
}

} // verus!
