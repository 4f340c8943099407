use miri_machine::machine::memory_kind::{MayLeak, MemoryKind, MiriMemoryKind};
use miri_machine::machine::tag::{
    Pointer, Tag, ERR_ON_PARTIAL_PTR_OVERWRITE, OFFSET_IS_ADDR,
};
use miri_machine::memory::push_alloc_id;
use miri_machine::stacked_borrows::item::{AccessKind, Item, Permission, RefKind, SbTag};
use miri_machine::text::{push_decimal, push_hexadecimal};

fn decimal(n: u64) -> String {
    let mut out = String::new();
    push_decimal(&mut out, n);
    out
}

fn hexadecimal(n: u64) -> String {
    let mut out = String::new();
    push_hexadecimal(&mut out, n);
    out
}

#[test]
fn numbers_are_written_like_std_does() {
    for n in [0, 1, 9, 10, 15, 16, 99, 100, 255, 256, 4096, 1234567890, u64::MAX - 1, u64::MAX] {
        assert_eq!(decimal(n), format!("{}", n));
        assert_eq!(hexadecimal(n), format!("{:x}", n));
    }
}

#[test]
fn tags_are_written() {
    assert_eq!(SbTag::Tagged(17).debug_string(), "<17>");
    assert_eq!(SbTag::Untagged.debug_string(), "<untagged>");
}

#[test]
fn items_are_written() {
    let item = Item { perm: Permission::TwoPhasedRW, tag: SbTag::Tagged(4), protector: None };
    assert_eq!(item.debug_string(), "[TwoPhasedRW for <4>]");
    let item = Item { perm: Permission::Disabled, tag: SbTag::Untagged, protector: Some(12) };
    assert_eq!(item.debug_string(), "[Disabled for <untagged> (call 12)]");
}

#[test]
fn kinds_of_access_and_reference_are_written() {
    assert_eq!(AccessKind::Read.to_string(), "read access");
    assert_eq!(AccessKind::Write.to_string(), "write access");
    assert_eq!(RefKind::Unique { two_phase: false }.to_string(), "unique");
    assert_eq!(RefKind::Unique { two_phase: true }.to_string(), "unique (two-phase)");
    assert_eq!(RefKind::Shared.to_string(), "shared");
    assert_eq!(RefKind::Raw { mutable: true }.to_string(), "raw (mutable)");
    assert_eq!(RefKind::Raw { mutable: false }.to_string(), "raw (constant)");
}

#[test]
fn permissions_grant_what_they_say() {
    let all = [
        (Permission::Unique, true, true, "Unique", "UNQ"),
        (Permission::SharedReadWrite, true, true, "SharedReadWrite", "SRW"),
        (Permission::TwoPhasedRW, true, true, "TwoPhasedRW", "TPU"),
        (Permission::SharedReadOnly, true, false, "SharedReadOnly", "SRO"),
        (Permission::Disabled, false, false, "Disabled", "DBL"),
    ];
    for (perm, read, write, name, short) in all {
        assert_eq!(perm.grants(AccessKind::Read), read);
        assert_eq!(perm.grants(AccessKind::Write), write);
        assert_eq!(perm.name(), name);
        assert_eq!(perm.short_name(), short);
    }
    assert!(Permission::SharedReadWrite.shares_writes());
    assert!(Permission::TwoPhasedRW.shares_writes());
    assert!(!Permission::Unique.shares_writes());
}

#[test]
fn memory_kinds_are_written_and_may_leak() {
    let all = [
        (MiriMemoryKind::Rust, "Rust heap", false),
        (MiriMemoryKind::C, "C heap", false),
        (MiriMemoryKind::WinHeap, "Windows heap", false),
        (MiriMemoryKind::Machine, "machine-managed memory", true),
        (MiriMemoryKind::Runtime, "language runtime memory", false),
        (MiriMemoryKind::Global, "global (static or const)", true),
        (MiriMemoryKind::ExternStatic, "extern static", true),
        (MiriMemoryKind::Tls, "thread-local static", true),
    ];
    for (kind, words, leaks) in all {
        assert_eq!(kind.to_string(), words);
        assert_eq!(kind.may_leak(), leaks);
        assert_eq!(MemoryKind::from(kind), MemoryKind::Machine(kind));
    }
}

#[test]
fn allocations_are_written() {
    let mut out = String::new();
    push_alloc_id(&mut out, 1636, false);
    assert_eq!(out, "alloc1636");
    push_alloc_id(&mut out, 7, true);
    assert_eq!(out, "alloc1636a7");
}

#[test]
fn pointers_are_written() {
    let ptr = || Pointer {
        provenance: Tag { alloc_id: 12, sb: SbTag::Tagged(3) },
        offset: 0x20010,
    };
    assert_eq!(Tag::pointer_string(ptr(), false), "0x20010[alloc12]<3>");
    assert_eq!(Tag::pointer_string(ptr(), true), "0x20010[a12]<3>");
    assert_eq!(ptr().provenance.get_alloc_id(), 12);
    assert!(OFFSET_IS_ADDR);
    assert!(!ERR_ON_PARTIAL_PTR_OVERWRITE);
}
