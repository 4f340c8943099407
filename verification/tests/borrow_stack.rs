use std::collections::HashSet;

use miri_machine::memory::alloc_range;
use miri_machine::stacked_borrows::diagnostics::{
    AccessSite, AllocHistory, BorrowError, Diagnostics, HistoryEvent, HistoryQuery,
    NonHaltingDiagnostic, StackUpdateType,
};
use miri_machine::stacked_borrows::global::GlobalStateInner;
use miri_machine::stacked_borrows::item::{AccessKind, Item, Permission, SbTag};
use miri_machine::stacked_borrows::stack::{Stack, StackOp};

fn state() -> GlobalStateInner {
    GlobalStateInner::new(HashSet::new(), HashSet::new(), HashSet::new(), false)
}

fn site() -> AccessSite {
    AccessSite { alloc_id: 5, range: alloc_range(0, 8), offset: 3 }
}

fn tag(id: u64) -> SbTag {
    SbTag::Tagged(id)
}

fn item(perm: Permission, id: u64) -> Item {
    Item { perm, tag: tag(id), protector: None }
}

fn unq(id: u64) -> Item {
    item(Permission::Unique, id)
}

fn srw(id: u64) -> Item {
    item(Permission::SharedReadWrite, id)
}

fn tpu(id: u64) -> Item {
    item(Permission::TwoPhasedRW, id)
}

fn sro(id: u64) -> Item {
    item(Permission::SharedReadOnly, id)
}

fn dbl(id: u64) -> Item {
    item(Permission::Disabled, id)
}

fn stack(items: Vec<Item>) -> Stack {
    Stack { borrows: items }
}

fn access(stack: &mut Stack, access: AccessKind, id: u64) -> Result<(), BorrowError> {
    let mut history = AllocHistory::new(Vec::new());
    stack.access(access, tag(id), site(), &state(), &mut Diagnostics::new(), &mut history)
}

fn grant(stack: &mut Stack, from: u64, new: Item) -> Result<(), BorrowError> {
    let mut history = AllocHistory::new(Vec::new());
    stack.grant(tag(from), new, site(), &state(), &mut Diagnostics::new(), &mut history)
}

#[test]
fn unique_is_created_on_top() {
    let mut s = stack(vec![srw(1), sro(3)]);
    assert_eq!(grant(&mut s, 1, unq(2)), Ok(()));
    assert_eq!(s.borrows, vec![srw(1), unq(2)]);
}

#[test]
fn read_only_is_created_on_top() {
    let mut s = stack(vec![unq(1)]);
    assert_eq!(grant(&mut s, 1, sro(2)), Ok(()));
    assert_eq!(s.borrows, vec![unq(1), sro(2)]);
    // Deriving it counts as a read.
    let mut s = stack(vec![unq(1), unq(3)]);
    assert_eq!(grant(&mut s, 1, sro(2)), Ok(()));
    assert_eq!(s.borrows, vec![unq(1), dbl(3), sro(2)]);
}

#[test]
fn unique_on_top_is_used_or_lost() {
    let mut s = stack(vec![unq(1), unq(2)]);
    assert_eq!(access(&mut s, AccessKind::Write, 1), Ok(()));
    assert_eq!(s.borrows, vec![unq(1)]);
    let mut s = stack(vec![unq(1), unq(2)]);
    assert_eq!(access(&mut s, AccessKind::Read, 1), Ok(()));
    assert_eq!(s.borrows, vec![unq(1), dbl(2)]);
    let mut s = stack(vec![unq(1), unq(2)]);
    assert_eq!(access(&mut s, AccessKind::Write, 2), Ok(()));
    assert_eq!(s.borrows, vec![unq(1), unq(2)]);
}

#[test]
fn access_needs_an_item() {
    let mut s = stack(vec![unq(1), dbl(2)]);
    let expected = BorrowError::Access { access: AccessKind::Read, tag: tag(2), site: site() };
    assert_eq!(access(&mut s, AccessKind::Read, 2), Err(expected));
    assert_eq!(s.borrows, vec![unq(1), dbl(2)]);
    assert_eq!(
        expected.message(&s),
        "attempting a read access using <2> at alloc5[0x3], \
         but that tag does not exist in the borrow stack for this location"
    );
    assert_eq!(
        expected.history(),
        Some(HistoryQuery { tag: tag(2), range: alloc_range(0, 8), offset: 3, protector_tag: None })
    );
    assert_eq!(
        expected.url(),
        "https://github.com/rust-lang/unsafe-code-guidelines/blob/master/wip/stacked-borrows.md"
    );
    let mut s = stack(vec![unq(1), sro(2)]);
    assert_eq!(
        access(&mut s, AccessKind::Write, 2),
        Err(BorrowError::Access { access: AccessKind::Write, tag: tag(2), site: site() })
    );
    assert_eq!(access(&mut s, AccessKind::Read, 2), Ok(()));
}

#[test]
fn reborrowing_shared_as_unique_is_explained() {
    let mut s = stack(vec![srw(1), sro(468243)]);
    let site = AccessSite { alloc_id: 177241, range: alloc_range(0, 1), offset: 0 };
    let mut history = AllocHistory::new(Vec::new());
    let result = s.grant(
        tag(468243),
        unq(468244),
        site,
        &state(),
        &mut Diagnostics::new(),
        &mut history,
    );
    let error = BorrowError::Grant { derived_from: tag(468243), new: unq(468244), site };
    assert_eq!(result, Err(error));
    assert_eq!(
        error.message(&s),
        "trying to reborrow <468243> for Unique permission at alloc177241[0x0], \
         but that tag only grants SharedReadOnly permission for this location"
    );
    let site = AccessSite { alloc_id: 76288, range: alloc_range(0, 32), offset: 0x14 };
    let error = BorrowError::Grant { derived_from: tag(193482), new: unq(1), site };
    assert_eq!(
        error.message(&stack(vec![sro(193482)])),
        "trying to reborrow <193482> for Unique permission at alloc76288[0x14], \
         but that tag only grants SharedReadOnly permission for this location"
    );
}

#[test]
fn write_pops_read_only() {
    let mut s = stack(vec![srw(1), sro(2), sro(3)]);
    assert_eq!(access(&mut s, AccessKind::Write, 1), Ok(()));
    assert_eq!(s.borrows, vec![srw(1)]);
}

#[test]
fn write_keeps_compatible_neighbours() {
    let mut s = stack(vec![srw(1), srw(2), tpu(3), unq(4), srw(5)]);
    assert_eq!(access(&mut s, AccessKind::Write, 1), Ok(()));
    assert_eq!(s.borrows, vec![srw(1), srw(2), tpu(3)]);
    // Everything is incompatible with a write through a unique pointer.
    let mut s = stack(vec![unq(1), srw(2)]);
    assert_eq!(access(&mut s, AccessKind::Write, 1), Ok(()));
    assert_eq!(s.borrows, vec![unq(1)]);
}

#[test]
fn no_writer_above_read_only() {
    let mut s = stack(vec![srw(1), sro(2)]);
    assert_eq!(grant(&mut s, 1, tpu(3)), Ok(()));
    assert_eq!(s.borrows, vec![srw(1), tpu(3), sro(2)]);
    let mut s = stack(vec![srw(1), sro(2)]);
    assert_eq!(grant(&mut s, 1, unq(3)), Ok(()));
    assert_eq!(s.borrows, vec![srw(1), unq(3)]);
}

#[test]
fn shared_grant_is_next_to_its_parent() {
    let mut s = stack(vec![unq(1), unq(2)]);
    assert_eq!(grant(&mut s, 1, srw(3)), Ok(()));
    assert_eq!(s.borrows, vec![unq(1), srw(3), unq(2)]);
    let mut s = stack(vec![srw(1), srw(2), unq(3)]);
    assert_eq!(grant(&mut s, 1, tpu(4)), Ok(()));
    assert_eq!(s.borrows, vec![srw(1), srw(2), tpu(4), unq(3)]);
}

#[test]
fn first_write_ends_two_phase_borrow() {
    let mut s = stack(vec![unq(1), tpu(2)]);
    assert_eq!(access(&mut s, AccessKind::Read, 2), Ok(()));
    assert_eq!(s.borrows, vec![unq(1), tpu(2)]);
    assert_eq!(access(&mut s, AccessKind::Write, 2), Ok(()));
    assert_eq!(s.borrows, vec![unq(1), srw(2)]);
}

#[test]
fn reading_the_parent_revokes_writing() {
    let mut s = stack(vec![unq(1), srw(2)]);
    assert_eq!(access(&mut s, AccessKind::Read, 1), Ok(()));
    assert_eq!(s.borrows, vec![unq(1), sro(2)]);
    // A two-phase borrow that was not written through yet is left alone.
    let mut s = stack(vec![unq(1), tpu(2)]);
    assert_eq!(access(&mut s, AccessKind::Read, 1), Ok(()));
    assert_eq!(s.borrows, vec![unq(1), tpu(2)]);
    // Pointers that share their right to write do not disturb each other.
    let mut s = stack(vec![srw(1), srw(2), unq(3), srw(4)]);
    assert_eq!(access(&mut s, AccessKind::Read, 1), Ok(()));
    assert_eq!(s.borrows, vec![srw(1), srw(2), dbl(3), srw(4)]);
    let mut s = stack(vec![sro(1), srw(2)]);
    assert_eq!(access(&mut s, AccessKind::Read, 1), Ok(()));
    assert_eq!(s.borrows, vec![sro(1), sro(2)]);
}

#[test]
fn raw_pointer_survives_read_of_its_origin() {
    // let raw = &mut *x as *mut _; let _val = *x;
    let mut s = stack(vec![unq(1)]);
    assert_eq!(grant(&mut s, 1, unq(2)), Ok(()));
    assert_eq!(grant(&mut s, 2, tpu(3)), Ok(()));
    assert_eq!(access(&mut s, AccessKind::Read, 1), Ok(()));
    assert_eq!(s.borrows, vec![unq(1), dbl(2), tpu(3)]);
    assert_eq!(access(&mut s, AccessKind::Read, 3), Ok(()));
}

#[test]
fn read_can_leave_a_writer_above_read_only() {
    let mut s = stack(vec![unq(1), srw(2), tpu(3)]);
    assert_eq!(access(&mut s, AccessKind::Read, 1), Ok(()));
    assert_eq!(s.borrows, vec![unq(1), sro(2), tpu(3)]);
}

#[test]
fn read_removes_nothing() {
    let mut s = stack(vec![unq(1), unq(2), srw(3), sro(4)]);
    assert_eq!(access(&mut s, AccessKind::Read, 1), Ok(()));
    assert_eq!(s.borrows, vec![unq(1), dbl(2), sro(3), sro(4)]);
}

#[test]
fn access_can_be_repeated() {
    for kind in [AccessKind::Read, AccessKind::Write] {
        let mut s = stack(vec![srw(1), tpu(2), srw(3), unq(4), sro(5)]);
        assert_eq!(access(&mut s, kind, 2), Ok(()));
        let after = s.borrows.clone();
        assert_eq!(access(&mut s, kind, 2), Ok(()));
        assert_eq!(s.borrows, after);
    }
}

#[test]
fn highest_granting_item_counts() {
    let untagged = |perm| Item { perm, tag: SbTag::Untagged, protector: None };
    let mut s = stack(vec![
        untagged(Permission::SharedReadWrite),
        unq(1),
        untagged(Permission::SharedReadWrite),
        unq(2),
    ]);
    assert_eq!(s.find_granting(AccessKind::Write, SbTag::Untagged), Some(2));
    assert_eq!(s.find_granting(AccessKind::Write, tag(3)), None);
    assert_eq!(s.find_first_write_incompatible(2), 3);
    assert_eq!(s.find_first_write_incompatible(1), 2);
    let mut history = AllocHistory::new(Vec::new());
    let result = s.access(
        AccessKind::Write,
        SbTag::Untagged,
        site(),
        &state(),
        &mut Diagnostics::new(),
        &mut history,
    );
    assert_eq!(result, Ok(()));
    assert_eq!(s.borrows.len(), 3);
}

#[test]
fn redundant_item_is_not_added() {
    let new = Item { perm: Permission::TwoPhasedRW, tag: SbTag::Untagged, protector: None };
    let mut s = stack(vec![unq(1)]);
    assert_eq!(grant(&mut s, 1, new), Ok(()));
    assert_eq!(s.borrows, vec![unq(1), new]);
    // It would be put below its equal.
    assert_eq!(grant(&mut s, 1, new), Ok(()));
    assert_eq!(s.borrows, vec![unq(1), new]);
    let mut s = stack(vec![srw(1), new]);
    // It would be put above its equal.
    assert_eq!(grant(&mut s, 1, new), Ok(()));
    assert_eq!(s.borrows, vec![srw(1), new]);
}

#[test]
fn protected_item_stops_the_access() {
    let mut global = state();
    let mut diagnostics = Diagnostics::new();
    let call = global.new_call(&mut diagnostics);
    assert_eq!(call, 1);
    let protected = Item { perm: Permission::Unique, tag: tag(2), protector: Some(call) };
    let mut history = AllocHistory::new(Vec::new());

    let mut s = stack(vec![srw(1), protected, sro(3)]);
    let result =
        s.access(AccessKind::Write, tag(1), site(), &global, &mut diagnostics, &mut history);
    let error = BorrowError::Protected {
        tag: tag(1),
        item: protected,
        history: HistoryQuery {
            tag: tag(1),
            range: alloc_range(0, 8),
            offset: 3,
            protector_tag: Some(tag(2)),
        },
    };
    assert_eq!(result, Err(error));
    assert_eq!(s.borrows, vec![srw(1)]);
    assert_eq!(
        error.message(&s),
        "not granting access to tag <1> because incompatible item is protected: \
         [Unique for <2> (call 1)]"
    );
    // The item above it was popped, which was recorded.
    assert_eq!(
        history.events,
        vec![HistoryEvent::Invalidation { tag: tag(3), range: alloc_range(0, 8) }]
    );

    let mut s = stack(vec![srw(1), protected]);
    let result =
        s.access(AccessKind::Read, tag(1), site(), &global, &mut diagnostics, &mut history);
    assert_eq!(result, Err(error));
    assert_eq!(s.borrows, vec![srw(1), protected]);

    // The protector is over when the call is.
    global.end_call(call);
    let result =
        s.access(AccessKind::Write, tag(1), site(), &global, &mut diagnostics, &mut history);
    assert_eq!(result, Ok(()));
    assert_eq!(s.borrows, vec![srw(1)]);
}

#[test]
fn read_needs_no_consent_of_shared_protected_items() {
    let mut global = state();
    let mut diagnostics = Diagnostics::new();
    let call = global.new_call(&mut diagnostics);
    let protected = Item { perm: Permission::SharedReadOnly, tag: tag(2), protector: Some(call) };
    let mut s = stack(vec![srw(1), protected]);
    let mut history = AllocHistory::new(Vec::new());
    let result =
        s.access(AccessKind::Read, tag(1), site(), &global, &mut diagnostics, &mut history);
    assert_eq!(result, Ok(()));
    assert_eq!(s.borrows, vec![srw(1), protected]);
}

#[test]
fn dealloc_removes_everything() {
    let mut s = stack(vec![srw(1), unq(2), sro(3)]);
    let mut history = AllocHistory::new(Vec::new());
    let result = s.dealloc(tag(1), site(), &state(), &mut Diagnostics::new(), &mut history);
    assert_eq!(result, Ok(()));
    assert!(s.borrows.is_empty());
    assert!(history.events.is_empty());
}

#[test]
fn dealloc_needs_write_access() {
    let mut s = stack(vec![srw(1), sro(3)]);
    let mut history = AllocHistory::new(Vec::new());
    let result = s.dealloc(tag(3), site(), &state(), &mut Diagnostics::new(), &mut history);
    let error = BorrowError::Dealloc {
        tag: tag(3),
        alloc_id: 5,
        history: HistoryQuery {
            tag: tag(3),
            range: alloc_range(0, 8),
            offset: 3,
            protector_tag: None,
        },
    };
    assert_eq!(result, Err(error));
    assert_eq!(s.borrows, vec![srw(1), sro(3)]);
    assert_eq!(
        error.message(&s),
        "no item granting write access for deallocation to tag <3> at alloc5 found in borrow stack"
    );
}

#[test]
fn dealloc_needs_no_protectors() {
    let mut global = state();
    let mut diagnostics = Diagnostics::new();
    let call = global.new_call(&mut diagnostics);
    let protected = Item { perm: Permission::SharedReadOnly, tag: tag(2), protector: Some(call) };
    let mut s = stack(vec![srw(1), protected, sro(3)]);
    let mut history = AllocHistory::new(Vec::new());
    let result = s.dealloc(tag(1), site(), &global, &mut diagnostics, &mut history);
    let error = BorrowError::ProtectedDealloc { item: protected };
    assert_eq!(result, Err(error));
    assert_eq!(s.borrows, vec![srw(1)]);
    assert_eq!(
        error.message(&s),
        "deallocating while item is protected: [SharedReadOnly for <2> (call 1)]"
    );
    assert_eq!(error.history(), None);
}

#[test]
fn invalidations_are_recorded_top_down() {
    let mut s = stack(vec![unq(1), unq(2), srw(3), unq(4)]);
    let mut history = AllocHistory::new(Vec::new());
    let result = s.access(
        AccessKind::Read,
        tag(1),
        site(),
        &state(),
        &mut Diagnostics::new(),
        &mut history,
    );
    assert_eq!(result, Ok(()));
    // Losing only the right to write is not recorded.
    let range = alloc_range(0, 8);
    assert_eq!(
        history.events,
        vec![
            HistoryEvent::Invalidation { tag: tag(4), range },
            HistoryEvent::Invalidation { tag: tag(2), range },
        ]
    );
}

#[test]
fn tracked_pointers_are_reported() {
    let global =
        GlobalStateInner::new(HashSet::from([2, 3]), HashSet::new(), HashSet::new(), false);
    let mut diagnostics = Diagnostics::new();
    let mut history = AllocHistory::new(Vec::new());
    let mut s = stack(vec![srw(1), unq(2), unq(3), sro(4)]);
    s.access(AccessKind::Write, tag(1), site(), &global, &mut diagnostics, &mut history).unwrap();
    assert_eq!(diagnostics.log.len(), 2);
    assert!(matches!(
        diagnostics.log[0],
        NonHaltingDiagnostic::PoppedPointerTag(
            Item { tag: SbTag::Tagged(3), .. },
            Some((SbTag::Tagged(1), AccessKind::Write))
        )
    ));
    assert!(matches!(
        diagnostics.log[1],
        NonHaltingDiagnostic::PoppedPointerTag(Item { tag: SbTag::Tagged(2), .. }, Some(_))
    ));
    let mut s = stack(vec![srw(1), unq(2)]);
    s.dealloc(tag(1), site(), &global, &mut diagnostics, &mut history).unwrap();
    assert_eq!(diagnostics.log.len(), 3);
    assert!(matches!(
        diagnostics.log[2],
        NonHaltingDiagnostic::PoppedPointerTag(Item { tag: SbTag::Tagged(2), .. }, None)
    ));
}

#[test]
fn tracked_allocations_are_reported() {
    let global = GlobalStateInner::new(HashSet::new(), HashSet::new(), HashSet::from([5]), false);
    let mut diagnostics = Diagnostics::new();
    let mut history = AllocHistory::new(Vec::new());
    let mut s = stack(vec![unq(1), tpu(2), unq(3)]);
    s.apply(
        StackOp::Access { access: AccessKind::Write, tag: tag(2) },
        site(),
        &global,
        &mut diagnostics,
        &mut history,
    )
    .unwrap();
    s.apply(
        StackOp::Grant { derived_from: tag(2), new: sro(4) },
        site(),
        &global,
        &mut diagnostics,
        &mut history,
    )
    .unwrap();
    let shown: Vec<String> = diagnostics
        .log
        .iter()
        .map(|notice| match notice {
            NonHaltingDiagnostic::StackUpdate(s, StackUpdateType::Added(t)) => {
                format!("added {} {}", t.debug_string(), s.to_string())
            }
            NonHaltingDiagnostic::StackUpdate(s, StackUpdateType::Remove(t)) => {
                format!("removed {} {}", t.debug_string(), s.to_string())
            }
            NonHaltingDiagnostic::StackUpdate(s, StackUpdateType::Changed(t)) => {
                format!("changed {} {}", t.debug_string(), s.to_string())
            }
            NonHaltingDiagnostic::StackAccess(s, t) => {
                format!("accessed {} {}", t.debug_string(), s.to_string())
            }
            _ => panic!("unexpected notice"),
        })
        .collect();
    assert_eq!(
        shown,
        vec![
            "changed <2> [UNQ<1>, SRW<2>, UNQ<3>]",
            "removed <3> [UNQ<1>, SRW<2>]",
            "accessed <2> [UNQ<1>, SRW<2>]",
            "accessed <2> [UNQ<1>, SRW<2>]",
            "added <4> [UNQ<1>, SRW<2>, SRO<4>]",
        ]
    );
    s.apply(
        StackOp::Dealloc { tag: tag(1) },
        site(),
        &global,
        &mut diagnostics,
        &mut history,
    )
    .unwrap();
    assert_eq!(diagnostics.log.len(), 8);
}

#[test]
fn stacks_are_printed() {
    let protected =
        Item { perm: Permission::SharedReadWrite, tag: SbTag::Untagged, protector: Some(3) };
    let s = stack(vec![unq(1), protected, tpu(2), dbl(4), sro(10)]);
    assert_eq!(s.to_string(), "[UNQ<1>, SRW<untagged>[proc(3)], TPU<2>, DBL<4>, SRO<10>]");
    assert_eq!(stack(vec![]).to_string(), "[]");
}

#[test]
fn frozen_item_is_popped_or_stays_frozen() {
    // What is below the read-only items does not matter.
    let frozen = || stack(vec![unq(1), sro(2), tpu(3), sro(4), sro(5)]);
    let mut s = frozen();
    assert_eq!(access(&mut s, AccessKind::Read, 1), Ok(()));
    assert_eq!(s.borrows, vec![unq(1), sro(2), tpu(3), sro(4), sro(5)]);
    let mut s = frozen();
    assert_eq!(access(&mut s, AccessKind::Write, 3), Ok(()));
    assert_eq!(s.borrows, vec![unq(1), sro(2), srw(3)]);
    let mut s = frozen();
    assert_eq!(grant(&mut s, 3, tpu(6)), Ok(()));
    assert_eq!(s.borrows, vec![unq(1), sro(2), tpu(3), tpu(6), sro(4), sro(5)]);
    let mut s = frozen();
    assert_eq!(grant(&mut s, 3, unq(6)), Ok(()));
    assert_eq!(s.borrows, vec![unq(1), sro(2), srw(3), unq(6)]);
    let mut s = frozen();
    assert_eq!(grant(&mut s, 4, sro(6)), Ok(()));
    assert_eq!(s.borrows, vec![unq(1), sro(2), tpu(3), sro(4), sro(5), sro(6)]);
    let mut s = stack(vec![unq(1), sro(2), dbl(3)]);
    assert_eq!(grant(&mut s, 1, tpu(6)), Ok(()));
    assert_eq!(s.borrows, vec![unq(1), tpu(6), sro(2), dbl(3)]);
}

#[test]
fn protected_item_stops_the_derivation() {
    let mut global = state();
    let mut diagnostics = Diagnostics::new();
    let call = global.new_call(&mut diagnostics);
    let protected = Item { perm: Permission::Unique, tag: tag(2), protector: Some(call) };
    let mut history = AllocHistory::new(Vec::new());
    for new in [unq(3), sro(3)] {
        let mut s = stack(vec![srw(1), protected]);
        let result = s.grant(tag(1), new, site(), &global, &mut diagnostics, &mut history);
        assert!(matches!(result, Err(BorrowError::Protected { .. })));
    }
    // An item that is put below it does not disturb it.
    let mut s = stack(vec![srw(1), protected]);
    let result = s.grant(tag(1), tpu(3), site(), &global, &mut diagnostics, &mut history);
    assert_eq!(result, Ok(()));
    assert_eq!(s.borrows, vec![srw(1), tpu(3), protected]);
}
