use std::collections::HashSet;

use miri_machine::error::InterpError;
use miri_machine::machine::tag::{Pointer, Tag};
use miri_machine::memory::alloc_range;
use miri_machine::stacked_borrows::diagnostics::{BorrowError, Diagnostics, HistoryEvent};
use miri_machine::stacked_borrows::global::GlobalStateInner;
use miri_machine::stacked_borrows::item::{Permission, RefKind, SbTag};
use miri_machine::stacked_borrows::retag::{
    new_tag, qualify, reborrow, retag_reference, retag_return_place, retag_zero_sized, Mutability,
    ReborrowPlace, RetagKind, TyKind,
};
use miri_machine::stacked_borrows::stacks::Stacks;

const UNIQUE: RefKind = RefKind::Unique { two_phase: false };
const TWO_PHASE: RefKind = RefKind::Unique { two_phase: true };

fn state(tag_raw: bool) -> GlobalStateInner {
    GlobalStateInner::new(HashSet::new(), HashSet::new(), HashSet::new(), tag_raw)
}

fn tag(id: u64) -> SbTag {
    SbTag::Tagged(id)
}

fn pointer(sb: SbTag) -> Pointer<Option<Tag>> {
    Pointer { provenance: Some(Tag { alloc_id: 9, sb }), offset: 0x1000 }
}

/// A pointer to two bytes at offset 1, the second of which is inside of an `UnsafeCell`.
fn place(unpin: bool) -> ReborrowPlace {
    ReborrowPlace {
        alloc_id: 9,
        base_offset: 1,
        tag: tag(1),
        unpin,
        parts: vec![(alloc_range(0, 1), true), (alloc_range(1, 1), false)],
    }
}

fn shown(stacks: &Stacks) -> Vec<String> {
    let mut out = Vec::new();
    for elem in &stacks.stacks.elems {
        for _ in elem.start..elem.end {
            out.push(elem.data.to_string());
        }
    }
    out
}

fn derived(kind: RefKind, unpin: bool) -> Vec<String> {
    let mut stacks = Stacks::new(4, Permission::SharedReadWrite, tag(1), Vec::new());
    let result = reborrow(
        &mut stacks,
        &place(unpin),
        2,
        kind,
        tag(2),
        false,
        1,
        &state(false),
        &mut Diagnostics::new(),
    );
    assert!(result.is_ok());
    shown(&stacks)
}

#[test]
fn references_qualify() {
    let unique = TyKind::Ref(Mutability::Mut);
    let shared = TyKind::Ref(Mutability::Not);
    assert_eq!(qualify(unique, RetagKind::Default), Some((UNIQUE, false)));
    assert_eq!(qualify(unique, RetagKind::FnEntry), Some((UNIQUE, true)));
    assert_eq!(qualify(unique, RetagKind::TwoPhase), Some((TWO_PHASE, false)));
    assert_eq!(qualify(unique, RetagKind::Raw), Some((UNIQUE, false)));
    assert_eq!(qualify(shared, RetagKind::Default), Some((RefKind::Shared, false)));
    assert_eq!(qualify(shared, RetagKind::FnEntry), Some((RefKind::Shared, true)));
}

#[test]
fn raw_pointers_need_to_be_enabled() {
    for kind in [RetagKind::Default, RetagKind::FnEntry, RetagKind::TwoPhase] {
        assert_eq!(qualify(TyKind::RawPtr(Mutability::Mut), kind), None);
        assert_eq!(qualify(TyKind::RawPtr(Mutability::Not), kind), None);
    }
    assert_eq!(
        qualify(TyKind::RawPtr(Mutability::Mut), RetagKind::Raw),
        Some((RefKind::Raw { mutable: true }, false))
    );
    assert_eq!(
        qualify(TyKind::RawPtr(Mutability::Not), RetagKind::Raw),
        Some((RefKind::Raw { mutable: false }, false))
    );
}

#[test]
fn boxes_get_no_protector() {
    for kind in [RetagKind::Default, RetagKind::FnEntry, RetagKind::TwoPhase, RetagKind::Raw] {
        assert_eq!(qualify(TyKind::Box, kind), Some((UNIQUE, false)));
        assert_eq!(qualify(TyKind::Other, kind), None);
    }
}

#[test]
fn mutable_reference_is_on_top() {
    assert_eq!(
        derived(UNIQUE, true),
        vec!["[SRW<1>]", "[SRW<1>, UNQ<2>]", "[SRW<1>, UNQ<2>]", "[SRW<1>]"]
    );
}

#[test]
fn uniqueness_is_enforced_only_for_unpin() {
    let weak = vec!["[SRW<1>]", "[SRW<1>, TPU<2>]", "[SRW<1>, TPU<2>]", "[SRW<1>]"];
    assert_eq!(derived(UNIQUE, false), weak);
    assert_eq!(derived(TWO_PHASE, true), weak);
    assert_eq!(derived(RefKind::Raw { mutable: true }, true), weak);
}

#[test]
fn shared_reference_is_read_only_outside_of_cells() {
    let mixed = vec!["[SRW<1>]", "[SRW<1>, SRO<2>]", "[SRW<1>, TPU<2>]", "[SRW<1>]"];
    assert_eq!(derived(RefKind::Shared, true), mixed);
    assert_eq!(derived(RefKind::Raw { mutable: false }, true), mixed);
}

#[test]
fn derivations_are_recorded() {
    let mut stacks = Stacks::new(4, Permission::SharedReadWrite, tag(1), Vec::new());
    let mut global = state(false);
    let mut diagnostics = Diagnostics::new();
    let call = global.new_call(&mut diagnostics);
    let result = reborrow(
        &mut stacks,
        &place(true),
        2,
        UNIQUE,
        tag(2),
        true,
        call,
        &global,
        &mut diagnostics,
    );
    assert!(result.is_ok());
    assert_eq!(shown(&stacks)[1], "[SRW<1>, UNQ<2>[proc(1)]]");
    assert_eq!(
        stacks.history.events,
        vec![
            HistoryEvent::Creation {
                parent: Some(tag(1)),
                tag: tag(2),
                range: alloc_range(1, 3),
            },
            HistoryEvent::Protector { derived_from: tag(1), tag: tag(2) },
        ]
    );
}

#[test]
fn out_of_bounds_pointer_is_refused() {
    let mut stacks = Stacks::new(2, Permission::SharedReadWrite, tag(1), Vec::new());
    let result = reborrow(
        &mut stacks,
        &place(true),
        2,
        UNIQUE,
        tag(2),
        false,
        1,
        &state(false),
        &mut Diagnostics::new(),
    );
    assert!(matches!(
        result,
        Err(InterpError::PointerOutOfBounds {
            alloc_id: 9,
            alloc_size: 2,
            ptr_offset: 1,
            ptr_size: 2
        })
    ));
    assert_eq!(shown(&stacks), vec!["[SRW<1>]"; 2]);
}

#[test]
fn violation_stops_the_derivation() {
    let mut stacks = Stacks::new(4, Permission::SharedReadOnly, tag(1), Vec::new());
    let result = reborrow(
        &mut stacks,
        &place(true),
        2,
        UNIQUE,
        tag(2),
        false,
        1,
        &state(false),
        &mut Diagnostics::new(),
    );
    assert!(matches!(
        result,
        Err(InterpError::ExperimentalUb(BorrowError::Grant {
            derived_from: SbTag::Tagged(1),
            ..
        }))
    ));
    // The read-only part is granted, the other one is not.
    let result = reborrow(
        &mut stacks,
        &place(true),
        2,
        RefKind::Shared,
        tag(3),
        false,
        1,
        &state(false),
        &mut Diagnostics::new(),
    );
    assert!(result.is_err());
    assert_eq!(shown(&stacks), vec!["[SRO<1>]", "[SRO<1>, SRO<3>]", "[SRO<1>]", "[SRO<1>]"]);
}

#[test]
fn raw_pointers_are_tagged_only_if_wanted() {
    let mut diagnostics = Diagnostics::new();
    let mut global = state(false);
    assert_eq!(
        new_tag(&mut global, RefKind::Raw { mutable: true }, &mut diagnostics),
        SbTag::Untagged
    );
    assert_eq!(global.next_ptr_id, 1);
    assert_eq!(new_tag(&mut global, RefKind::Shared, &mut diagnostics), tag(1));
    let mut global = state(true);
    assert_eq!(
        new_tag(&mut global, RefKind::Raw { mutable: false }, &mut diagnostics),
        tag(1)
    );
}

#[test]
fn retagged_pointer_has_a_new_tag() {
    let mut stacks = Stacks::new(4, Permission::SharedReadWrite, tag(1), Vec::new());
    let mut global = state(false);
    let mut diagnostics = Diagnostics::new();
    global.base_tag(9, &mut diagnostics);
    let result = retag_reference(
        &mut stacks,
        pointer(tag(1)),
        &place(true),
        Some(2),
        UNIQUE,
        false,
        1,
        &mut global,
        &mut diagnostics,
    );
    assert_eq!(result.unwrap(), pointer(tag(2)));
    assert_eq!(shown(&stacks)[1], "[SRW<1>, UNQ<2>]");
    // Without a known size, the pointer stays as it is.
    let result = retag_reference(
        &mut stacks,
        pointer(tag(1)),
        &place(true),
        None,
        UNIQUE,
        false,
        1,
        &mut global,
        &mut diagnostics,
    );
    assert_eq!(result.unwrap(), pointer(tag(1)));
    assert_eq!(global.next_ptr_id, 3);
    // A pointer to nothing gets a new tag, but touches no memory.
    assert_eq!(
        retag_zero_sized(pointer(tag(1)), UNIQUE, &mut global, &mut diagnostics),
        pointer(tag(3))
    );
    let nowhere = Pointer { provenance: None, offset: 16 };
    let ptr = retag_zero_sized(nowhere, UNIQUE, &mut global, &mut diagnostics);
    assert_eq!(ptr, Pointer { provenance: None, offset: 16 });
}

#[test]
fn return_place_is_protected() {
    let mut stacks = Stacks::new(4, Permission::SharedReadWrite, tag(1), Vec::new());
    let mut global = state(false);
    let mut diagnostics = Diagnostics::new();
    global.base_tag(9, &mut diagnostics);
    let call = global.new_call(&mut diagnostics);
    let result = retag_return_place(
        &mut stacks,
        Some(pointer(tag(1))),
        &place(true),
        2,
        call,
        &mut global,
        &mut diagnostics,
    );
    assert_eq!(result.unwrap(), Some(pointer(tag(2))));
    assert_eq!(
        shown(&stacks),
        vec!["[SRW<1>]", "[SRW<1>, UNQ<2>[proc(1)]]", "[SRW<1>, UNQ<2>[proc(1)]]", "[SRW<1>]"]
    );
    assert!(stacks
        .memory_read(9, tag(1), alloc_range(0, 4), &global, &mut diagnostics)
        .is_err());
    global.end_call(call);
    assert!(stacks
        .memory_read(9, tag(1), alloc_range(0, 4), &global, &mut diagnostics)
        .is_ok());
    // There may be no return place, or nothing in it.
    let before = shown(&stacks);
    let result = retag_return_place(
        &mut stacks,
        None,
        &place(true),
        2,
        call,
        &mut global,
        &mut diagnostics,
    );
    assert_eq!(result.unwrap(), None);
    let result = retag_return_place(
        &mut stacks,
        Some(pointer(tag(1))),
        &place(true),
        0,
        call,
        &mut global,
        &mut diagnostics,
    );
    assert_eq!(result.unwrap(), Some(pointer(tag(1))));
    assert_eq!(shown(&stacks), before);
}

#[test]
fn stacks_stay_sound() {
    let mut stacks = Stacks::new(4, Permission::Unique, tag(1), Vec::new());
    let mut global = state(true);
    let mut diagnostics = Diagnostics::new();
    global.base_tag(9, &mut diagnostics);
    let kinds =
        [UNIQUE, RefKind::Shared, TWO_PHASE, RefKind::Raw { mutable: true }, RefKind::Shared];
    for round in 0..40u64 {
        // Derive from some tag, and then use some other one; both may be refused.
        let from = tag(1 + round * 7 % global.next_ptr_id);
        let mut place = place(round % 3 != 0);
        place.tag = from;
        place.base_offset = round % 3;
        let _ = retag_reference(
            &mut stacks,
            pointer(from),
            &place,
            Some(2),
            kinds[round as usize % kinds.len()],
            false,
            1,
            &mut global,
            &mut diagnostics,
        );
        let used = tag(1 + round * 5 % global.next_ptr_id);
        let range = alloc_range(round % 4, 1);
        if round % 4 == 3 {
            let _ = stacks.memory_written(9, used, range, &global, &mut diagnostics);
        } else {
            let _ = stacks.memory_read(9, used, range, &global, &mut diagnostics);
        }
        for elem in &stacks.stacks.elems {
            let items = &elem.data.borrows;
            assert!(!items.is_empty());
            let mut seen = HashSet::new();
            for item in items {
                match item.tag {
                    SbTag::Tagged(id) => {
                        assert!(1 <= id && id < global.next_ptr_id);
                        assert!(seen.insert(id));
                    }
                    SbTag::Untagged => {}
                }
            }
        }
    }
    assert!(stacks.stacks.elems.len() > 1);
}
