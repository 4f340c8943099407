use std::collections::HashSet;

use rand::rngs::StdRng;
use rand::{RngCore, SeedableRng};

use miri_machine::error::InterpError;
use miri_machine::machine::alloc_extra::AllocExtra;
use miri_machine::machine::config::{
    AlignmentCheck, BacktraceStyle, IsolatedOp, MiriConfig, NUM_CPUS, PAGE_SIZE, STACK_ADDR,
    STACK_SIZE,
};
use miri_machine::machine::context::{MiriEvalContext, MiriEvalContextExt};
use miri_machine::machine::evaluator::{DefId, Evaluator, FrameInfo};
use miri_machine::machine::extern_statics::{extern_statics, StaticMemory};
use miri_machine::machine::frame::FrameData;
use miri_machine::machine::hooks::{extern_static_kind, global_kind, PANIC_ON_ALLOC_FAIL};
use miri_machine::machine::layouts::{PrimitiveLayouts, PrimitiveTy};
use miri_machine::machine::memory_kind::{MemoryKind, MiriMemoryKind};
use miri_machine::machine::profiling::FrameTiming;
use miri_machine::machine::tag::{Pointer, Tag};
use miri_machine::memory::alloc_range;
use miri_machine::stacked_borrows::diagnostics::{BorrowError, NonHaltingDiagnostic};
use miri_machine::stacked_borrows::item::{RefKind, SbTag};
use miri_machine::stacked_borrows::retag::{
    needs_id, Mutability, ReborrowPlace, RetagKind, TyKind,
};

type Machine = Evaluator<PrimitiveTy>;

fn config() -> MiriConfig {
    MiriConfig {
        stacked_borrows: true,
        tracked_pointer_tags: HashSet::new(),
        tracked_call_ids: HashSet::new(),
        tracked_alloced_location_ids: HashSet::new(),
        tag_raw: false,
        tracked_alloc_ids: HashSet::new(),
        data_race_detector: false,
        isolated_op: IsolatedOp::Reject,
        validate: true,
        check_number_validity: false,
        check_abi: true,
        check_alignment: AlignmentCheck::Symbolic,
        panic_on_unsupported: false,
        backtrace_style: BacktraceStyle::Short,
        seed: None,
        measureme_out: None,
    }
}

fn context(config: &MiriConfig) -> MiriEvalContext<PrimitiveTy> {
    let layouts = PrimitiveLayouts::new(|ty| Ok::<PrimitiveTy, String>(ty)).unwrap();
    MiriEvalContext {
        machine: Evaluator::new(config, vec![3, 5], layouts),
        os: String::from("linux"),
    }
}

fn tag(id: u64) -> SbTag {
    SbTag::Tagged(id)
}

fn pointer(alloc_id: u64, sb: SbTag, offset: u64) -> Pointer<Option<Tag>> {
    Pointer { provenance: Some(Tag { alloc_id, sb }), offset }
}

fn shown(extra: &AllocExtra) -> Vec<String> {
    let mut out = Vec::new();
    for elem in &extra.stacked_borrows.as_ref().unwrap().stacks.elems {
        for _ in elem.start..elem.end {
            out.push(elem.data.to_string());
        }
    }
    out
}

#[test]
fn facts_about_the_machine() {
    assert_eq!(PAGE_SIZE, 4096);
    assert_eq!(STACK_ADDR, 131072);
    assert_eq!(STACK_SIZE, 65536);
    assert_eq!(NUM_CPUS, 1);
    assert!(!PANIC_ON_ALLOC_FAIL);
    assert_eq!(global_kind(), Some(MiriMemoryKind::Global));
    assert_eq!(extern_static_kind(), MemoryKind::Machine(MiriMemoryKind::ExternStatic));
}

#[test]
fn layouts_are_asked_for_in_order() {
    let asked = std::cell::RefCell::new(Vec::new());
    let layouts = PrimitiveLayouts::new(|ty| {
        asked.borrow_mut().push(ty);
        Ok::<PrimitiveTy, String>(ty)
    })
    .unwrap();
    assert_eq!(layouts.unit, PrimitiveTy::Unit);
    assert_eq!(layouts.i8, PrimitiveTy::I8);
    assert_eq!(layouts.i32, PrimitiveTy::I32);
    assert_eq!(layouts.isize, PrimitiveTy::Isize);
    assert_eq!(layouts.u8, PrimitiveTy::U8);
    assert_eq!(layouts.u32, PrimitiveTy::U32);
    assert_eq!(layouts.usize, PrimitiveTy::Usize);
    assert_eq!(layouts.bool, PrimitiveTy::Bool);
    assert_eq!(layouts.mut_raw_ptr, PrimitiveTy::MutRawPtr);
    assert_eq!(asked.borrow().len(), 9);
    for ty in asked.into_inner() {
        assert_eq!(*layouts.get(ty), ty);
    }
}

#[test]
fn first_missing_layout_is_reported() {
    let result = PrimitiveLayouts::new(|ty| match ty {
        PrimitiveTy::U8 => Err("no u8"),
        PrimitiveTy::Bool => Err("no bool"),
        _ => Ok(0u64),
    });
    assert_eq!(result.err(), Some("no u8"));
}

#[test]
fn machine_is_as_configured() {
    let mut wanted = config();
    wanted.tracked_pointer_tags = HashSet::from([4, 8]);
    wanted.tracked_call_ids = HashSet::from([2]);
    wanted.tracked_alloced_location_ids = HashSet::from([6]);
    wanted.tracked_alloc_ids = HashSet::from([1, 7]);
    wanted.tag_raw = true;
    wanted.data_race_detector = true;
    wanted.measureme_out = Some(String::from("profile"));
    let machine = context(&wanted).machine;
    let state = machine.stacked_borrows.as_ref().unwrap();
    assert_eq!(state.tracked_pointer_tags, wanted.tracked_pointer_tags);
    assert_eq!(state.tracked_call_ids, wanted.tracked_call_ids);
    assert_eq!(state.tracked_alloced_location_ids, wanted.tracked_alloced_location_ids);
    assert!(state.tag_raw);
    assert_eq!((state.next_ptr_id, state.next_call_id), (1, 1));
    assert_eq!(machine.tracked_alloc_ids, wanted.tracked_alloc_ids);
    assert!(machine.data_race);
    assert!(machine.profiling);
    assert_eq!(machine.backtrace_style, BacktraceStyle::Short);
    assert!(machine.argc.is_none() && machine.argv.is_none() && machine.cmd_line.is_none());
    assert!(machine.static_roots.is_empty());
    assert!(machine.string_cache.is_empty());
    assert!(machine.extern_statics.is_empty());
    assert!(machine.diagnostics.log.is_empty());
    wanted.stacked_borrows = false;
    assert!(context(&wanted).machine.stacked_borrows.is_none());
}

#[test]
fn generator_is_seeded() {
    let mut wanted = config();
    assert_eq!(context(&wanted).machine.rng.next_u64(), StdRng::seed_from_u64(0).next_u64());
    wanted.seed = Some(42);
    assert_eq!(context(&wanted).machine.rng.next_u64(), StdRng::seed_from_u64(42).next_u64());
    assert_ne!(StdRng::seed_from_u64(0).next_u64(), StdRng::seed_from_u64(42).next_u64());
}

#[test]
fn settings_are_handed_to_the_interpreter() {
    let mut ecx = context(&config());
    assert!(Machine::enforce_alignment(&ecx));
    assert!(!Machine::force_int_for_alignment_check(&ecx));
    assert!(Machine::enforce_validity(&ecx));
    assert!(!Machine::enforce_number_validity(&ecx));
    assert!(Machine::enforce_abi(&ecx));
    assert!(!ecx.machine.communicate());
    ecx.eval_context_mut().machine.isolated_op = IsolatedOp::Allow;
    ecx.eval_context_mut().machine.check_alignment = AlignmentCheck::Int;
    assert!(ecx.eval_context_ref().machine.communicate());
    assert!(Machine::enforce_alignment(&ecx));
    assert!(Machine::force_int_for_alignment_check(&ecx));
    ecx.machine.check_alignment = AlignmentCheck::Off;
    assert!(!Machine::enforce_alignment(&ecx));
    assert!(!Machine::force_int_for_alignment_check(&ecx));
}

#[test]
fn local_frames_are_recognized() {
    let machine = context(&config()).machine;
    for (krate, local) in [(0, true), (1, false), (3, true), (4, false), (5, true)] {
        let frame = FrameInfo { def_id: DefId { krate, index: 17 } };
        assert_eq!(machine.is_local(&frame), local);
    }
}

#[test]
fn extern_statics_depend_on_the_system() {
    let on = |os: &str| -> Vec<(String, StaticMemory)> {
        extern_statics(&String::from(os)).into_iter().map(|d| (d.name, d.memory)).collect()
    };
    let pointer_sized = StaticMemory::Zeroed(PrimitiveTy::Usize);
    assert_eq!(
        on("linux"),
        vec![
            (String::from("environ"), StaticMemory::Environ),
            (String::from("__cxa_thread_atexit_impl"), pointer_sized),
            (String::from("getrandom"), pointer_sized),
            (String::from("statx"), pointer_sized),
        ]
    );
    assert_eq!(
        on("windows"),
        vec![(String::from("_tls_used"), StaticMemory::Zeroed(PrimitiveTy::U8))]
    );
    assert!(on("macos").is_empty());
    assert!(on("Linux").is_empty());
}

#[test]
fn extern_statics_are_found() {
    let mut ecx = context(&config());
    let pointers =
        vec![pointer(1, tag(1), 64), pointer(2, tag(2), 128), pointer(3, tag(3), 192), pointer(
            4,
            tag(4),
            256,
        )];
    assert!(Machine::late_init(&mut ecx, Ok(()), pointers, Ok(())).is_ok());
    assert_eq!(ecx.machine.extern_statics.len(), 4);
    let find = |link: Option<&str>, name: &str| {
        Machine::extern_static_base_pointer(
            &ecx,
            link.map(String::from),
            String::from(name),
            "DefId(1:2 ~ libc::statx)",
        )
    };
    let expected = Pointer { provenance: Tag { alloc_id: 4, sb: tag(4) }, offset: 256 };
    assert_eq!(find(None, "statx").unwrap(), expected);
    assert_eq!(find(Some("getrandom"), "statx").unwrap().offset, 192);
    match find(Some("open"), "statx") {
        Err(InterpError::Unsupported(message)) => assert_eq!(
            message,
            "`extern` static DefId(1:2 ~ libc::statx) is not supported by Miri"
        ),
        _ => panic!("it is not there"),
    }
}

#[test]
fn failed_setup_keeps_what_was_done() {
    let mut ecx = context(&config());
    let failed = || Err(InterpError::Unsupported(String::from("no memory")));
    let result =
        Machine::late_init(&mut ecx, Ok(()), vec![pointer(1, tag(1), 64)], failed());
    assert!(matches!(result, Err(InterpError::Unsupported(_))));
    assert_eq!(ecx.machine.extern_statics.len(), 1);
    assert!(ecx.machine.extern_statics.contains_key("environ"));
    let mut ecx = context(&config());
    let result = Machine::late_init(&mut ecx, failed(), Vec::new(), Ok(()));
    assert!(matches!(result, Err(InterpError::Unsupported(_))));
    assert!(ecx.machine.extern_statics.is_empty());
}

#[test]
fn abort_stops_the_program() {
    match Machine::abort(String::from("the program aborted")) {
        Err(InterpError::Abort(message)) => assert_eq!(message, "the program aborted"),
        _ => panic!("it goes on"),
    }
}

#[test]
fn base_pointers_keep_their_tag() {
    let mut ecx = context(&config());
    let base = |ecx: &mut MiriEvalContext<PrimitiveTy>, id, addr| {
        Machine::tag_alloc_base_pointer(ecx, Pointer { provenance: id, offset: 4 }, addr)
    };
    let first = base(&mut ecx, 10, 0x5004);
    assert_eq!(first, Pointer { provenance: Tag { alloc_id: 10, sb: tag(1) }, offset: 0x5004 });
    assert_eq!(base(&mut ecx, 11, 0x6004).provenance.sb, tag(2));
    assert_eq!(base(&mut ecx, 10, 0x5008).provenance.sb, tag(1));
    assert_eq!(Machine::ptr_get_alloc(first, 4), (10, 4, tag(1)));
    let mut unchecked = config();
    unchecked.stacked_borrows = false;
    let mut ecx = context(&unchecked);
    assert_eq!(base(&mut ecx, 10, 0x5004).provenance.sb, SbTag::Untagged);
}

#[test]
fn new_allocation_is_made_known() {
    let mut wanted = config();
    wanted.tracked_alloc_ids = HashSet::from([10]);
    wanted.tracked_pointer_tags = HashSet::from([2]);
    let mut ecx = context(&wanted);
    // It points to itself, and to another allocation twice.
    let pointers = vec![(11, 0x6000), (10, 0x5000), (11, 0x6008)];
    let kind = Some(MemoryKind::Machine(MiriMemoryKind::Global));
    let (extra, tagged) = Machine::init_allocation_extra(&mut ecx, 10, 3, &pointers, kind);
    assert_eq!(shown(&extra), vec!["[SRW<1>]"; 3]);
    assert!(!extra.data_race);
    assert_eq!(extra.stacked_borrows.as_ref().unwrap().history.local_crates, vec![3, 5]);
    let expected = [(11, 2, 0x6000), (10, 1, 0x5000), (11, 2, 0x6008)];
    assert_eq!(tagged.len(), 3);
    for (ptr, (alloc_id, sb, offset)) in tagged.iter().zip(expected) {
        assert_eq!(*ptr, Pointer { provenance: Tag { alloc_id, sb: tag(sb) }, offset });
    }
    assert_eq!(ecx.machine.diagnostics.log.len(), 2);
    assert!(matches!(ecx.machine.diagnostics.log[0], NonHaltingDiagnostic::CreatedAlloc(10)));
    assert!(matches!(ecx.machine.diagnostics.log[1], NonHaltingDiagnostic::CreatedPointerTag(2)));

    let mut unchecked = config();
    unchecked.stacked_borrows = false;
    unchecked.data_race_detector = true;
    let mut ecx = context(&unchecked);
    let (extra, tagged) = Machine::init_allocation_extra(&mut ecx, 10, 3, &pointers, kind);
    assert!(extra.stacked_borrows.is_none());
    assert!(extra.data_race);
    assert!(tagged.iter().all(|ptr| ptr.provenance.sb == SbTag::Untagged));
}

#[test]
fn accesses_are_checked() {
    let mut wanted = config();
    wanted.tracked_alloc_ids = HashSet::from([10]);
    let mut ecx = context(&wanted);
    let (mut extra, _) =
        Machine::init_allocation_extra(&mut ecx, 10, 4, &Vec::new(), Some(MemoryKind::Stack));
    let machine = &mut ecx.machine;
    let range = alloc_range(1, 2);
    assert!(Machine::memory_read(machine, &mut extra, 10, tag(1), range, Ok(())).is_ok());
    assert!(Machine::memory_written(machine, &mut extra, 10, tag(1), range, Ok(())).is_ok());
    let refused = Machine::memory_written(machine, &mut extra, 10, tag(2), range, Ok(()));
    assert!(matches!(
        refused,
        Err(InterpError::ExperimentalUb(BorrowError::Access { tag: SbTag::Tagged(2), .. }))
    ));
    // The detector does not follow the allocation, so it is not listened to.
    let race = || Err(String::from("data race"));
    assert!(Machine::memory_read(machine, &mut extra, 10, tag(1), range, race()).is_ok());
    let all = alloc_range(0, 4);
    assert!(Machine::memory_deallocated(machine, &mut extra, 10, tag(1), all, race()).is_ok());
    assert_eq!(shown(&extra), vec!["[]"; 4]);
    assert_eq!(machine.diagnostics.log.len(), 2);
    assert!(matches!(machine.diagnostics.log[1], NonHaltingDiagnostic::FreedAlloc(10)));
}

#[test]
fn races_stop_first() {
    let mut wanted = config();
    wanted.data_race_detector = true;
    let mut ecx = context(&wanted);
    let (mut extra, _) =
        Machine::init_allocation_extra(&mut ecx, 10, 2, &Vec::new(), Some(MemoryKind::Stack));
    let machine = &mut ecx.machine;
    let all = alloc_range(0, 2);
    let hooks = [Machine::memory_read, Machine::memory_written, Machine::memory_deallocated];
    for hook in hooks {
        let race = Err(String::from("data race"));
        match hook(machine, &mut extra, 10, tag(7), all, race) {
            Err(InterpError::DataRace(message)) => assert_eq!(message, "data race"),
            _ => panic!("the race was not reported"),
        }
        assert_eq!(shown(&extra), vec!["[UNQ<1>]"; 2]);
    }
    // Without a race, the borrow stacks decide.
    assert!(Machine::memory_read(machine, &mut extra, 10, tag(7), all, Ok(())).is_err());
    assert!(Machine::memory_read(machine, &mut extra, 10, tag(1), all, Ok(())).is_ok());
}

#[test]
fn unchecked_memory_is_left_alone() {
    let mut wanted = config();
    wanted.stacked_borrows = false;
    let mut ecx = context(&wanted);
    let mut extra = AllocExtra { stacked_borrows: None, data_race: false };
    let machine = &mut ecx.machine;
    let range = alloc_range(0, 100);
    let race = || Err(String::from("data race"));
    assert!(Machine::memory_read(machine, &mut extra, 1, tag(7), range, race()).is_ok());
    assert!(Machine::memory_written(machine, &mut extra, 1, tag(7), range, race()).is_ok());
    assert!(Machine::memory_deallocated(machine, &mut extra, 1, tag(7), range, race()).is_ok());
    assert!(machine.diagnostics.log.is_empty());
    assert!(extra.stacked_borrows.is_none() && !extra.data_race);
}

#[test]
fn values_are_retagged() {
    let mut ecx = context(&config());
    let (mut extra, _) =
        Machine::init_allocation_extra(&mut ecx, 10, 2, &Vec::new(), Some(MemoryKind::Stack));
    let place = ReborrowPlace {
        alloc_id: 10,
        base_offset: 0,
        tag: tag(1),
        unpin: true,
        parts: vec![(alloc_range(0, 2), true)],
    };
    let mut retag = |kind, ty, size| {
        let val = pointer(10, tag(1), 0x5000);
        Machine::retag(&mut ecx, &mut extra, kind, ty, val, &place, size, 1).unwrap()
    };
    let unique = TyKind::Ref(Mutability::Mut);
    assert_eq!(retag(RetagKind::Default, unique, Some(2)), pointer(10, tag(2), 0x5000));
    assert_eq!(retag(RetagKind::Default, unique, Some(0)), pointer(10, tag(3), 0x5000));
    assert_eq!(retag(RetagKind::Default, unique, None), pointer(10, tag(1), 0x5000));
    assert_eq!(retag(RetagKind::Default, TyKind::Other, Some(2)), pointer(10, tag(1), 0x5000));
    let raw = TyKind::RawPtr(Mutability::Mut);
    assert_eq!(retag(RetagKind::Default, raw, Some(2)), pointer(10, tag(1), 0x5000));
    assert_eq!(retag(RetagKind::Raw, raw, Some(2)), pointer(10, SbTag::Untagged, 0x5000));
    assert_eq!(shown(&extra), vec!["[UNQ<1>, TPU<untagged>, UNQ<2>]"; 2]);

    let mut wanted = config();
    wanted.stacked_borrows = false;
    let mut ecx = context(&wanted);
    let mut extra = AllocExtra { stacked_borrows: None, data_race: false };
    let val = pointer(10, tag(1), 0x5000);
    let result =
        Machine::retag(&mut ecx, &mut extra, RetagKind::Default, unique, val, &place, Some(2), 1);
    assert_eq!(result.unwrap(), pointer(10, tag(1), 0x5000));
}

#[test]
fn frames_get_their_call_id() {
    let mut wanted = config();
    wanted.tracked_call_ids = HashSet::from([2]);
    let mut ecx = context(&wanted);
    let first: FrameData<String> = Machine::init_frame_extra(&mut ecx, None);
    let second: FrameData<String> = Machine::init_frame_extra(&mut ecx, None);
    assert_eq!((first.call_id, second.call_id), (1, 2));
    assert!(first.unwind_catch.is_none() && first.timing.is_none());
    assert_eq!(ecx.machine.diagnostics.log.len(), 1);
    assert!(matches!(ecx.machine.diagnostics.log[0], NonHaltingDiagnostic::CreatedCallId(2)));
    assert!(ecx.machine.stacked_borrows.as_ref().unwrap().is_active(1));
    wanted.stacked_borrows = false;
    let mut ecx = context(&wanted);
    for _ in 0..3 {
        let frame: FrameData<String> = Machine::init_frame_extra(&mut ecx, None);
        assert_eq!(frame.call_id, 1);
    }
}

#[test]
fn frames_are_written() {
    let mut frame = FrameData { call_id: 12, unwind_catch: None, timing: None };
    assert_eq!(frame.debug_string("data"), "FrameData { call_id: 12, catch_unwind: None }");
    frame.unwind_catch = Some(5);
    assert_eq!(frame.debug_string("5"), "FrameData { call_id: 12, catch_unwind: Some(5) }");
}

#[test]
fn pushed_frame_retags_its_return_place() {
    let mut ecx = context(&config());
    let (mut extra, _) =
        Machine::init_allocation_extra(&mut ecx, 10, 2, &Vec::new(), Some(MemoryKind::Stack));
    let frame: FrameData<String> = Machine::init_frame_extra(&mut ecx, None);
    let place = ReborrowPlace {
        alloc_id: 10,
        base_offset: 0,
        tag: tag(1),
        unpin: true,
        parts: Vec::new(),
    };
    let val = || pointer(10, tag(1), 0x5000);
    let result = Machine::after_stack_push(&mut ecx, &mut extra, None, &place, 2, frame.call_id);
    assert_eq!(result.unwrap(), None);
    let result =
        Machine::after_stack_push(&mut ecx, &mut extra, Some(val()), &place, 0, frame.call_id);
    assert_eq!(result.unwrap(), Some(val()));
    let result =
        Machine::after_stack_push(&mut ecx, &mut extra, Some(val()), &place, 2, frame.call_id);
    assert_eq!(result.unwrap(), Some(pointer(10, tag(2), 0x5000)));
    assert_eq!(shown(&extra), vec!["[UNQ<1>, UNQ<2>[proc(1)]]"; 2]);
    let mut wanted = config();
    wanted.stacked_borrows = false;
    let mut ecx = context(&wanted);
    let result =
        Machine::after_stack_push(&mut ecx, &mut extra, Some(val()), &place, 2, frame.call_id);
    assert_eq!(result.unwrap(), Some(val()));
}

#[test]
fn functions_are_labelled_once() {
    let mut wanted = config();
    let name = || String::from("core::fmt::write");
    assert_eq!(context(&wanted).machine.frame_timing(&name()), FrameTiming::Off);
    wanted.measureme_out = Some(String::from("profile"));
    let mut machine = context(&wanted).machine;
    assert_eq!(machine.frame_timing(&name()), FrameTiming::NewLabel);
    machine.add_label(name(), 77);
    assert_eq!(machine.frame_timing(&name()), FrameTiming::Start { kind: 77, event: 77 });
    machine.add_label(name(), 78);
    assert_eq!(machine.frame_timing(&name()), FrameTiming::Start { kind: 77, event: 77 });
    assert_eq!(machine.frame_timing(&String::from("main")), FrameTiming::NewLabel);
}

#[test]
fn popped_frame_hands_out_its_timing() {
    let machine = context(&config()).machine;
    let frame = FrameData { call_id: 3, unwind_catch: Some(1), timing: None };
    let (rest, timing) = machine.after_stack_pop(frame);
    assert_eq!((rest.call_id, rest.unwind_catch), (3, Some(1)));
    assert!(rest.timing.is_none() && timing.is_none());
}

#[test]
fn base_pointer_is_taken_apart() {
    let mut ecx = context(&config());
    // Addresses wrap around at the end of the address space.
    for (base, offset) in [(0x5000u64, 0u64), (0x5000, 4), (u64::MAX - 7, 20), (3, u64::MAX)] {
        let ptr = Pointer { provenance: 10, offset };
        let tagged = Machine::tag_alloc_base_pointer(&mut ecx, ptr, base.wrapping_add(offset));
        let rel = tagged.offset.wrapping_sub(base);
        assert_eq!(Machine::ptr_get_alloc(tagged, rel), (10, offset, tag(1)));
    }
}

#[test]
fn refused_retagging_uses_up_a_tag() {
    let mut ecx = context(&config());
    let reason = || InterpError::Unsupported(String::from("dangling"));
    let unique = TyKind::Ref(Mutability::Mut);
    let result = Machine::retag_refused(&mut ecx, RetagKind::Default, unique, reason());
    assert!(matches!(result, Err(InterpError::Unsupported(_))));
    assert_eq!(ecx.machine.stacked_borrows.as_ref().unwrap().next_ptr_id, 2);
    // Raw pointers are not tracked here.
    let raw = TyKind::RawPtr(Mutability::Mut);
    let result = Machine::retag_refused(&mut ecx, RetagKind::Raw, raw, reason());
    assert!(result.is_err());
    let state = ecx.machine.stacked_borrows.as_ref().unwrap();
    assert_eq!(state.next_ptr_id, 2);
    assert!(!needs_id(RefKind::Raw { mutable: true }, state));
    assert!(needs_id(RefKind::Shared, state));
    let result = Machine::return_place_refused(&mut ecx, reason());
    assert!(matches!(result, Err(InterpError::Unsupported(_))));
    assert_eq!(ecx.machine.stacked_borrows.as_ref().unwrap().next_ptr_id, 3);
}

#[test]
fn violations_can_be_explained() {
    let mut ecx = context(&config());
    let (mut extra, _) =
        Machine::init_allocation_extra(&mut ecx, 10, 4, &Vec::new(), Some(MemoryKind::Stack));
    let range = alloc_range(2, 2);
    let result =
        Machine::memory_read(&mut ecx.machine, &mut extra, 10, tag(7), range, Ok(()));
    let Err(InterpError::ExperimentalUb(error)) = result else { panic!("it was granted") };
    assert_eq!(
        extra.stacked_borrows.as_ref().unwrap().message(error),
        "attempting a read access using <7> at alloc10[0x2], \
         but that tag does not exist in the borrow stack for this location"
    );
}
