use std::collections::HashSet;

use miri_machine::machine::memory_kind::{MemoryKind, MiriMemoryKind};
use miri_machine::memory::alloc_range;
use miri_machine::range_map::RangeMap;
use miri_machine::stacked_borrows::diagnostics::{
    AccessSite, BorrowError, Diagnostics, HistoryEvent, NonHaltingDiagnostic,
};
use miri_machine::stacked_borrows::global::GlobalStateInner;
use miri_machine::stacked_borrows::item::{AccessKind, Item, Permission, SbTag};
use miri_machine::stacked_borrows::stack::{Stack, StackOp};
use miri_machine::stacked_borrows::stacks::Stacks;

fn state(tag_raw: bool) -> GlobalStateInner {
    GlobalStateInner::new(HashSet::new(), HashSet::new(), HashSet::new(), tag_raw)
}

fn tag(id: u64) -> SbTag {
    SbTag::Tagged(id)
}

/// The stack of every location, as text.
fn shown(stacks: &Stacks) -> Vec<String> {
    let mut out = Vec::new();
    for elem in &stacks.stacks.elems {
        for _ in elem.start..elem.end {
            out.push(elem.data.to_string());
        }
    }
    out
}

#[test]
fn entries_are_split_where_needed() {
    let stack = Stack {
        borrows: vec![Item { perm: Permission::Unique, tag: tag(1), protector: None }],
    };
    let mut map = RangeMap::new(8, stack);
    assert_eq!(map.elems.len(), 1);
    assert_eq!(map.split_at(3), 1);
    assert_eq!(map.split_at(3), 1);
    assert_eq!(map.split_at(0), 0);
    assert_eq!(map.split_at(8), 2);
    assert_eq!(map.split_at(1), 1);
    let bounds: Vec<(u64, u64)> = map.elems.iter().map(|e| (e.start, e.end)).collect();
    assert_eq!(bounds, vec![(0, 1), (1, 3), (3, 8)]);
    assert_eq!(map.elems[2].data.to_string(), "[UNQ<1>]");
    map.elems[1].data.borrows.clear();
    let shown: Vec<String> = (0..8).map(|i| map.get(i).to_string()).collect();
    assert_eq!(shown[0], "[UNQ<1>]");
    assert_eq!(shown[1..3], ["[]", "[]"]);
    assert_eq!(shown[3..], ["[UNQ<1>]"; 5]);
}

#[test]
fn new_allocations_start_with_their_base_tag() {
    let mut global = state(false);
    let mut diagnostics = Diagnostics::new();
    let local =
        Stacks::new_allocation(1, 2, &mut global, MemoryKind::Stack, vec![7], &mut diagnostics);
    assert_eq!(shown(&local), vec!["[UNQ<1>]", "[UNQ<1>]"]);
    assert_eq!(local.history.local_crates, vec![7]);
    assert_eq!(
        local.history.events,
        vec![HistoryEvent::Creation { parent: None, tag: tag(1), range: alloc_range(0, 2) }]
    );
    let shared = [
        MemoryKind::CallerLocation,
        MemoryKind::Machine(MiriMemoryKind::Global),
        MemoryKind::Machine(MiriMemoryKind::ExternStatic),
        MemoryKind::Machine(MiriMemoryKind::Tls),
        MemoryKind::Machine(MiriMemoryKind::Runtime),
        MemoryKind::Machine(MiriMemoryKind::Machine),
    ];
    for (k, kind) in shared.into_iter().enumerate() {
        let id = 2 + k as u64;
        let stacks =
            Stacks::new_allocation(id, 1, &mut global, kind, Vec::new(), &mut diagnostics);
        assert_eq!(shown(&stacks), vec![format!("[SRW<{}>]", id)]);
    }
    assert!(diagnostics.log.is_empty());
}

#[test]
fn heap_is_tracked_only_with_raw_pointers() {
    let heap = [MiriMemoryKind::Rust, MiriMemoryKind::C, MiriMemoryKind::WinHeap];
    let mut global = state(false);
    let mut diagnostics = Diagnostics::new();
    for (k, kind) in heap.into_iter().enumerate() {
        let kind = MemoryKind::Machine(kind);
        let stacks = Stacks::new_allocation(
            k as u64,
            1,
            &mut global,
            kind,
            Vec::new(),
            &mut diagnostics,
        );
        assert_eq!(shown(&stacks), vec!["[SRW<untagged>]"]);
        assert_eq!(global.base_tag(k as u64, &mut diagnostics), SbTag::Untagged);
    }
    assert_eq!(global.next_ptr_id, 1);
    let mut global = state(true);
    for (k, kind) in heap.into_iter().enumerate() {
        let kind = MemoryKind::Machine(kind);
        let stacks = Stacks::new_allocation(
            k as u64,
            1,
            &mut global,
            kind,
            Vec::new(),
            &mut diagnostics,
        );
        assert_eq!(shown(&stacks), vec![format!("[SRW<{}>]", k + 1)]);
    }
}

#[test]
fn early_pointers_have_the_initial_tag() {
    let mut global = state(false);
    let mut diagnostics = Diagnostics::new();
    assert_eq!(global.base_tag(40, &mut diagnostics), tag(1));
    assert_eq!(global.base_tag(41, &mut diagnostics), tag(2));
    let kind = MemoryKind::Machine(MiriMemoryKind::Global);
    let stacks =
        Stacks::new_allocation(40, 1, &mut global, kind, Vec::new(), &mut diagnostics);
    assert_eq!(shown(&stacks), vec!["[SRW<1>]"]);
    assert_eq!(global.base_tag(40, &mut diagnostics), tag(1));
    assert_eq!(global.next_ptr_id, 3);
}

#[test]
fn operations_stay_in_their_range() {
    let global = state(false);
    let mut diagnostics = Diagnostics::new();
    let mut stacks = Stacks::new(6, Permission::SharedReadWrite, tag(1), Vec::new());
    let new = Item { perm: Permission::Unique, tag: tag(2), protector: None };
    let grant = StackOp::Grant { derived_from: tag(1), new };
    assert_eq!(stacks.for_each(alloc_range(1, 4), grant, 9, &global, &mut diagnostics), Ok(()));
    assert_eq!(
        shown(&stacks),
        vec![
            "[SRW<1>]",
            "[SRW<1>, UNQ<2>]",
            "[SRW<1>, UNQ<2>]",
            "[SRW<1>, UNQ<2>]",
            "[SRW<1>, UNQ<2>]",
            "[SRW<1>]"
        ]
    );
    assert_eq!(
        stacks.memory_written(9, tag(1), alloc_range(2, 2), &global, &mut diagnostics),
        Ok(())
    );
    assert_eq!(
        shown(&stacks),
        vec![
            "[SRW<1>]",
            "[SRW<1>, UNQ<2>]",
            "[SRW<1>]",
            "[SRW<1>]",
            "[SRW<1>, UNQ<2>]",
            "[SRW<1>]"
        ]
    );
    // Nothing happens in an empty range.
    assert_eq!(
        stacks.memory_read(9, tag(77), alloc_range(3, 0), &global, &mut diagnostics),
        Ok(())
    );
}

#[test]
fn operations_stop_where_they_fail() {
    let global = state(false);
    let mut diagnostics = Diagnostics::new();
    let mut stacks = Stacks::new(4, Permission::SharedReadWrite, tag(1), Vec::new());
    let new = Item { perm: Permission::Unique, tag: tag(2), protector: None };
    let grant = StackOp::Grant { derived_from: tag(1), new };
    assert_eq!(stacks.for_each(alloc_range(0, 2), grant, 9, &global, &mut diagnostics), Ok(()));
    let range = alloc_range(1, 3);
    let result = stacks.memory_read(9, tag(2), range, &global, &mut diagnostics);
    assert_eq!(
        result,
        Err(BorrowError::Access {
            access: AccessKind::Read,
            tag: tag(2),
            site: AccessSite { alloc_id: 9, range, offset: 2 },
        })
    );
    // What was done before it failed stays done.
    let newer = Item { perm: Permission::Unique, tag: tag(3), protector: None };
    let grant = StackOp::Grant { derived_from: tag(2), new: newer };
    assert!(stacks.for_each(range, grant, 9, &global, &mut diagnostics).is_err());
    assert_eq!(
        shown(&stacks),
        vec!["[SRW<1>, UNQ<2>]", "[SRW<1>, UNQ<2>, UNQ<3>]", "[SRW<1>]", "[SRW<1>]"]
    );
}

#[test]
fn new_allocation_is_accessible_with_its_tag_only() {
    let global = state(false);
    let mut diagnostics = Diagnostics::new();
    let mut stacks = Stacks::new(4, Permission::Unique, tag(1), Vec::new());
    let all = alloc_range(0, 4);
    assert_eq!(stacks.memory_read(3, tag(1), all, &global, &mut diagnostics), Ok(()));
    assert_eq!(stacks.memory_written(3, tag(1), all, &global, &mut diagnostics), Ok(()));
    assert!(stacks.memory_read(3, tag(2), all, &global, &mut diagnostics).is_err());
    assert!(stacks.memory_written(3, SbTag::Untagged, all, &global, &mut diagnostics).is_err());
    assert!(stacks.memory_deallocated(3, tag(2), all, &global, &mut diagnostics).is_err());
    assert_eq!(shown(&stacks), vec!["[UNQ<1>]"; 4]);
    assert_eq!(stacks.memory_deallocated(3, tag(1), all, &global, &mut diagnostics), Ok(()));
    assert_eq!(shown(&stacks), vec!["[]"; 4]);
    assert!(stacks.memory_read(3, tag(1), all, &global, &mut diagnostics).is_err());
}

#[test]
fn identifiers_are_handed_out_in_order() {
    let mut global =
        GlobalStateInner::new(HashSet::from([2]), HashSet::from([1, 3]), HashSet::new(), false);
    let mut diagnostics = Diagnostics::new();
    assert_eq!(global.new_ptr(&mut diagnostics), 1);
    assert!(diagnostics.log.is_empty());
    assert_eq!(global.base_tag(9, &mut diagnostics), tag(2));
    assert!(matches!(diagnostics.log[0], NonHaltingDiagnostic::CreatedPointerTag(2)));
    assert_eq!(global.base_tag(9, &mut diagnostics), tag(2));
    assert_eq!(global.base_tag(10, &mut diagnostics), tag(3));
    assert_eq!(diagnostics.log.len(), 1);

    let first = global.new_call(&mut diagnostics);
    let second = global.new_call(&mut diagnostics);
    assert_eq!((first, second), (1, 2));
    assert_eq!(diagnostics.log.len(), 2);
    assert!(matches!(diagnostics.log[1], NonHaltingDiagnostic::CreatedCallId(1)));
    assert!(global.is_active(first) && global.is_active(second));
    global.end_call(first);
    assert!(!global.is_active(first) && global.is_active(second));
    // IDs are not used again.
    assert_eq!(global.new_call(&mut diagnostics), 3);
    assert_eq!(global.base_tag_untagged(11), SbTag::Untagged);
    assert_eq!(global.base_tag(11, &mut diagnostics), SbTag::Untagged);
}
