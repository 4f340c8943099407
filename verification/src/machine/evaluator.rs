//! The machine itself.
use std::collections::HashSet;

use rand::rngs::StdRng;
use rand::SeedableRng;
use rustc_data_structures::fx::FxHashMap;
use vstd::prelude::*;

use crate::error::InterpError;
use crate::machine::config::{copy_set, AlignmentCheck, BacktraceStyle, IsolatedOp, MiriConfig};
use crate::machine::context::MiriEvalContext;
use crate::machine::extern_statics;
use crate::machine::extern_statics::StaticMemory;
use crate::machine::layouts::PrimitiveLayouts;
use crate::machine::tag::{Pointer, Tag};
use crate::memory::AllocId;
use crate::stacked_borrows::diagnostics::{DiagnosticView, Diagnostics};
use crate::stacked_borrows::global::GlobalStateInner;
use crate::stacked_borrows::item::{CallId, SbTag};
use crate::tables;

verus! {

/// The random number generator of the machine.
#[verifier::external_type_specification]
#[verifier::external_body]
pub struct ExStdRng(rand::rngs::StdRng);

/// The generator that `StdRng::seed_from_u64` makes of a seed.
pub uninterp spec fn seeded_rng(seed: u64) -> StdRng;

/// Makes a generator with `StdRng::seed_from_u64`, which depends on nothing but the seed. What
/// the generator then produces is not stated.
#[verifier::external_body]
fn seed_rng(seed: u64) -> (rng: StdRng)
    ensures
        rng == seeded_rng(seed),
{
    StdRng::seed_from_u64(seed)
}

/// The machine itself.
pub struct Evaluator<L> {
    /// Stacked Borrows state is only there if it is enabled.
    pub stacked_borrows: Option<GlobalStateInner>,
    /// Whether accesses are shown to a race detector.
    pub data_race: bool,
    /// Program arguments (`Option` because we can only initialize them after creating the
    /// machine). These are *pointers* to argc/argv because macOS.
    /// We also need the full command line as one string because of Windows.
    pub argc: Option<Pointer<Option<Tag>>>,
    pub argv: Option<Pointer<Option<Tag>>>,
    pub cmd_line: Option<Pointer<Option<Tag>>>,
    /// What should be done when an op requires communicating with the host,
    /// such as accessing host env vars, random number generation, and
    /// file system access.
    pub isolated_op: IsolatedOp,
    /// Whether to enforce the validity invariant.
    pub validate: bool,
    /// Whether to enforce validity (e.g., initialization) of integers and floats.
    pub enforce_number_validity: bool,
    /// Whether to enforce the ABI of function calls.
    pub enforce_abi: bool,
    /// Precomputed layouts for primitive data types that are commonly used.
    pub layouts: PrimitiveLayouts<L>,
    /// Allocations that are considered roots of static memory (that may leak).
    pub static_roots: Vec<AllocId>,
    /// Whether timing information about the emulated program is recorded.
    pub profiling: bool,
    /// Caches the numbers of the event names used with the profiler.
    pub string_cache: FxHashMap<String, u32>,
    /// Whether to raise a panic in the context of the evaluated process when unsupported
    /// functionality is encountered. If `false`, an error is propagated in the context of the
    /// interpreter instead (default behavior)
    pub panic_on_unsupported: bool,
    /// Equivalent setting as RUST_BACKTRACE on encountering an error.
    pub backtrace_style: BacktraceStyle,
    /// Crates which are considered local for the purposes of error reporting.
    pub local_crates: Vec<u32>,
    /// Mapping the names of statics outside of the program to their base pointer.
    pub extern_statics: FxHashMap<String, Pointer<Tag>>,
    /// The random number generator used for resolving non-determinism.
    pub rng: StdRng,
    /// The allocation IDs to report when they are being allocated
    /// (helps for debugging memory leaks and use after free bugs).
    pub tracked_alloc_ids: HashSet<AllocId>,
    /// Controls whether alignment of memory accesses is being checked.
    pub check_alignment: AlignmentCheck,
    /// What there is to report to the user.
    pub diagnostics: Diagnostics,
}

/// Identifies a definition: its crate, and which of the definitions there it is.
#[derive(Copy, Clone, Debug, PartialEq, Eq, Structural)]
pub struct DefId {
    pub krate: u32,
    pub index: u32,
}

impl DefId {
    /// Whether the definition is in the crate that is being interpreted, which is number 0.
    pub fn is_local(self) -> (local: bool)
        ensures
            local == (self.krate == 0),
    {
        self.krate == 0
    }
}

/// A stack frame, as far as error reporting goes.
#[derive(Copy, Clone, Debug, PartialEq, Eq, Structural)]
pub struct FrameInfo {
    /// The function that the frame is of.
    pub def_id: DefId,
}

/// Whether the crate is the one that is being interpreted, or one of the others that count as
/// local.
pub open spec fn in_local_crate(local_crates: Seq<u32>, krate: u32) -> bool {
    krate == 0 || local_crates.contains(krate)
}

/// The pointer without the possibility of having no provenance.
pub open spec fn with_provenance(ptr: Pointer<Option<Tag>>) -> Pointer<Tag> {
    Pointer { provenance: ptr.provenance->Some_0, offset: ptr.offset }
}

/// The table of statics after the first `n` of the declared ones were added to it.
pub open spec fn with_statics(
    table: Map<Seq<char>, Pointer<Tag>>,
    decls: Seq<(Seq<char>, StaticMemory)>,
    pointers: Seq<Pointer<Option<Tag>>>,
    n: int,
) -> Map<Seq<char>, Pointer<Tag>>
    decreases n,
{
    if n <= 0 {
        table
    } else {
        with_statics(table, decls, pointers, n - 1).insert(
            decls[n - 1].0,
            with_provenance(pointers[n - 1]),
        )
    }
}

/// Whether `pointers` are where the first of the declared statics are: of all of them, unless
/// setting them up `ended` early.
pub open spec fn statics_set_up(
    decls: Seq<(Seq<char>, StaticMemory)>,
    pointers: Seq<Pointer<Option<Tag>>>,
    ended: Result<(), InterpError>,
) -> bool {
    &&& forall|k: int|
        0 <= k < pointers.len() ==> (#[trigger] pointers[k]).provenance is Some
    &&& if ended is Ok {
        pointers.len() == decls.len()
    } else {
        pointers.len() < decls.len()
    }
}

impl<L> Evaluator<L> {
    /// The state of Stacked Borrows makes sense.
    pub open spec fn wf(self) -> bool {
        self.stacked_borrows matches Some(state) ==> state.wf()
    }

    /// What the labels of functions in the profile are.
    pub open spec fn labels(self) -> Map<Seq<char>, u32> {
        tables::label_table(self.string_cache)
    }

    /// Where the statics outside of the program are.
    pub open spec fn statics(self) -> Map<Seq<char>, Pointer<Tag>> {
        tables::static_table(self.extern_statics)
    }

    /// Whether the machine does what the configuration asks for.
    pub open spec fn configured(self, config: MiriConfig) -> bool {
        &&& self.stacked_borrows is Some == config.stacked_borrows
        &&& self.stacked_borrows matches Some(state) ==> {
            &&& state.tracked_pointer_tags@ == config.tracked_pointer_tags@
            &&& state.tracked_call_ids@ == config.tracked_call_ids@
            &&& state.tracked_alloced_location_ids@ == config.tracked_alloced_location_ids@
            &&& state.tag_raw == config.tag_raw
        }
        &&& self.data_race == config.data_race_detector
        &&& self.isolated_op == config.isolated_op
        &&& self.validate == config.validate
        &&& self.enforce_number_validity == config.check_number_validity
        &&& self.enforce_abi == config.check_abi
        &&& self.profiling == config.measureme_out is Some
        &&& self.panic_on_unsupported == config.panic_on_unsupported
        &&& self.backtrace_style == config.backtrace_style
        &&& self.tracked_alloc_ids@ == config.tracked_alloc_ids@
        &&& self.check_alignment == config.check_alignment
    }

    /// Whether nothing happened to the machine yet.
    pub open spec fn unused(self) -> bool {
        &&& self.stacked_borrows matches Some(state) ==> {
            &&& state.next_ptr_id == 1
            &&& state.next_call_id == 1
            &&& state.base_ptr_ids@ == Map::<AllocId, SbTag>::empty()
            &&& state.active_calls@ == Set::<CallId>::empty()
        }
        &&& self.argc is None
        &&& self.argv is None
        &&& self.cmd_line is None
        &&& self.static_roots@ == Seq::<AllocId>::empty()
        &&& self.labels() == Map::<Seq<char>, u32>::empty()
        &&& self.statics() == Map::<Seq<char>, Pointer<Tag>>::empty()
        &&& self.diagnostics@ == Seq::<DiagnosticView>::empty()
    }

    /// A machine for the program whose own crates are `local_crates`.
    pub fn new(
        config: &MiriConfig,
        local_crates: Vec<u32>,
        layouts: PrimitiveLayouts<L>,
    ) -> (machine: Self)
        ensures
            machine.wf(),
            machine.configured(*config),
            machine.unused(),
            machine.local_crates == local_crates,
            machine.layouts == layouts,
            machine.rng == seeded_rng(
                match config.seed {
                    Some(seed) => seed,
                    None => 0,
                },
            ),
    {
        let seed: u64 = match config.seed {
            Some(seed) => seed,
            None => 0,
        };
        let rng = seed_rng(seed);
        let stacked_borrows = if config.stacked_borrows {
            Some(
                GlobalStateInner::new(
                    copy_set(&config.tracked_pointer_tags),
                    copy_set(&config.tracked_call_ids),
                    copy_set(&config.tracked_alloced_location_ids),
                    config.tag_raw,
                ),
            )
        } else {
            None
        };
        Evaluator {
            stacked_borrows,
            data_race: config.data_race_detector,
            argc: None,
            argv: None,
            cmd_line: None,
            isolated_op: config.isolated_op,
            validate: config.validate,
            enforce_number_validity: config.check_number_validity,
            enforce_abi: config.check_abi,
            layouts,
            static_roots: Vec::new(),
            profiling: config.measureme_out.is_some(),
            string_cache: tables::labels_new(),
            panic_on_unsupported: config.panic_on_unsupported,
            backtrace_style: config.backtrace_style,
            local_crates,
            extern_statics: tables::statics_new(),
            rng,
            tracked_alloc_ids: copy_set(&config.tracked_alloc_ids),
            check_alignment: config.check_alignment,
            diagnostics: Diagnostics::new(),
        }
    }

    /// Makes a static outside of the program known. It got just allocated, so there definitely is
    /// a pointer to it, and there is none of that name yet.
    pub fn add_extern_static(
        this: &mut MiriEvalContext<L>,
        name: String,
        ptr: Pointer<Option<Tag>>,
    )
        requires
            ptr.provenance is Some,
            !old(this).machine.statics().contains_key(name@),
        ensures
            final(this).machine.statics() == old(this).machine.statics().insert(
                name@,
                with_provenance(ptr),
            ),
            final(this).machine == (Evaluator {
                extern_statics: final(this).machine.extern_statics,
                ..old(this).machine
            }),
            final(this).os == old(this).os,
    {
        if let Some(provenance) = ptr.provenance {
            tables::statics_insert(
                &mut this.machine.extern_statics,
                name,
                Pointer { provenance, offset: ptr.offset },
            );
        }
    }

    /// Sets up the "extern statics" for this machine. `pointers` says where they are, as far as
    /// the interpreter got with allocating and initializing them before it `ended`.
    pub fn init_extern_statics(
        this: &mut MiriEvalContext<L>,
        pointers: Vec<Pointer<Option<Tag>>>,
        ended: Result<(), InterpError>,
    ) -> (result: Result<(), InterpError>)
        requires
            statics_set_up(extern_statics::statics_on(old(this).os@), pointers@, ended),
            forall|k: int|
                0 <= k < extern_statics::statics_on(old(this).os@).len() ==> !old(
                    this,
                ).machine.statics().contains_key(
                    (#[trigger] extern_statics::statics_on(old(this).os@)[k]).0,
                ),
        ensures
            result == ended,
            final(this).machine.statics() == with_statics(
                old(this).machine.statics(),
                extern_statics::statics_on(old(this).os@),
                pointers@,
                pointers@.len() as int,
            ),
            final(this).machine == (Evaluator {
                extern_statics: final(this).machine.extern_statics,
                ..old(this).machine
            }),
            final(this).os == old(this).os,
    {
        let decls = extern_statics::extern_statics(&this.os);
        let ghost names = extern_statics::statics_on(old(this).os@);
        let ghost table = old(this).machine.statics();
        let len = pointers.len();
        let mut k: usize = 0;
        while k < len
            invariant
                k <= len == pointers@.len(),
                names == extern_statics::statics_on(old(this).os@),
                table == old(this).machine.statics(),
                decls@.map_values(|decl: extern_statics::StaticDecl| decl@) == names,
                statics_set_up(names, pointers@, ended),
                forall|j: int|
                    0 <= j < names.len() ==> !table.contains_key((#[trigger] names[j]).0),
                this.machine.statics() == with_statics(table, names, pointers@, k as int),
                this.machine == (Evaluator {
                    extern_statics: this.machine.extern_statics,
                    ..old(this).machine
                }),
                this.os == old(this).os,
            decreases len - k,
        {
            assert(decls@[k as int]@ == names[k as int]) by {
                assert(decls@.map_values(|decl: extern_statics::StaticDecl| decl@)[k as int]
                    == names[k as int]);
            }
            proof {
                extern_statics::lemma_names_differ(old(this).os@);
                lemma_not_added(table, names, pointers@, k as int, k as int);
            }
            let ptr = Pointer { provenance: pointers[k].provenance, offset: pointers[k].offset };
            Self::add_extern_static(this, decls[k].name.clone(), ptr);
            k = k + 1;
        }
        ended
    }

    /// Finishes initializing the machine, when the interpreter is there: the environment, if that
    /// worked, and the "extern statics".
    pub fn late_init(
        this: &mut MiriEvalContext<L>,
        environment: Result<(), InterpError>,
        pointers: Vec<Pointer<Option<Tag>>>,
        ended: Result<(), InterpError>,
    ) -> (result: Result<(), InterpError>)
        requires
            environment is Ok ==> statics_set_up(
                extern_statics::statics_on(old(this).os@),
                pointers@,
                ended,
            ),
            environment is Ok ==> forall|k: int|
                0 <= k < extern_statics::statics_on(old(this).os@).len() ==> !old(
                    this,
                ).machine.statics().contains_key(
                    (#[trigger] extern_statics::statics_on(old(this).os@)[k]).0,
                ),
        ensures
            environment is Err ==> result == environment && *final(this) == *old(this),
            environment is Ok ==> {
                &&& result == ended
                &&& final(this).machine.statics() == with_statics(
                    old(this).machine.statics(),
                    extern_statics::statics_on(old(this).os@),
                    pointers@,
                    pointers@.len() as int,
                )
                &&& final(this).machine == (Evaluator {
                    extern_statics: final(this).machine.extern_statics,
                    ..old(this).machine
                })
                &&& final(this).os == old(this).os
            },
    {
        match environment {
            Ok(()) => Self::init_extern_statics(this, pointers, ended),
            Err(error) => Err(error),
        }
    }

    /// Whether the program can communicate with the host.
    pub fn communicate(&self) -> (possible: bool)
        ensures
            possible == (self.isolated_op == IsolatedOp::Allow),
    {
        self.isolated_op == IsolatedOp::Allow
    }

    /// Check whether the stack frame that this `FrameInfo` refers to is part of a local crate.
    pub fn is_local(&self, frame: &FrameInfo) -> (local: bool)
        ensures
            local == (frame.def_id.krate == 0 || self.local_crates@.contains(
                frame.def_id.krate,
            )),
            local == in_local_crate(self.local_crates@, frame.def_id.krate),
    {
        let def_id = frame.def_id;
        if def_id.is_local() {
            return true;
        }
        let len = self.local_crates.len();
        let mut i: usize = 0;
        while i < len
            invariant
                i <= len == self.local_crates@.len(),
                def_id == frame.def_id,
                forall|j: int| 0 <= j < i ==> self.local_crates@[j] != def_id.krate,
            decreases len - i,
        {
            if self.local_crates[i] == def_id.krate {
                assert(self.local_crates@[i as int] == def_id.krate);
                return true;
            }
            i = i + 1;
        }
        false
    }
}

/// A name that is declared later has not been added yet.
proof fn lemma_not_added(
    table: Map<Seq<char>, Pointer<Tag>>,
    decls: Seq<(Seq<char>, StaticMemory)>,
    pointers: Seq<Pointer<Option<Tag>>>,
    n: int,
    k: int,
)
    requires
        n <= k < decls.len(),
        !table.contains_key(decls[k].0),
        forall|i: int, j: int|
            #![trigger decls[i], decls[j]]
            0 <= i < j < decls.len() ==> decls[i].0 != decls[j].0,
    ensures
        !with_statics(table, decls, pointers, n).contains_key(decls[k].0),
    decreases n,
{
    if n > 0 {
        lemma_not_added(table, decls, pointers, n - 1, k);
        assert(decls[n - 1].0 != decls[k].0);
    }
}

} // verus!
