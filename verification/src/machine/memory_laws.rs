//! What reading, writing and freeing memory mean for the pointers to it.
use vstd::prelude::*;

use crate::error::InterpError;
use crate::machine::alloc_extra::AllocExtra;
use crate::machine::evaluator::Evaluator;
use crate::machine::hooks;
use crate::machine::pointer_laws;
use crate::memory::{AllocId, AllocRange, Size};
use crate::stacked_borrows::allocation_laws;
use crate::stacked_borrows::allocation_laws::SweepDone;
use crate::stacked_borrows::diagnostics::{BorrowError, DiagnosticView};
use crate::stacked_borrows::effects;
use crate::stacked_borrows::item::{AccessKind, CallId, Item, Permission, SbTag};
use crate::stacked_borrows::report_laws;
use crate::stacked_borrows::stack::StackOp;
use crate::stacked_borrows::stacks::{Sweep, Track};

verus! {

/// A call of one of the memory hooks, with what it found, what it left, and how it ended.
pub struct MemoryCall<L> {
    pub op: StackOp,
    pub alloc_id: AllocId,
    pub range: AllocRange,
    pub race: Result<(), String>,
    pub notices: Seq<DiagnosticView>,
    pub before: Evaluator<L>,
    pub after: Evaluator<L>,
    pub extra_before: AllocExtra,
    pub extra_after: AllocExtra,
    pub result: Result<(), InterpError>,
}

impl<L> MemoryCall<L> {
    /// Whether this can have happened, to an allocation that has borrow stacks.
    pub open spec fn valid(self) -> bool {
        &&& self.before.can_follow(self.extra_before, self.range)
        &&& self.extra_before.stacked_borrows is Some
        &&& hooks::memory_hook(
            self.op,
            self.alloc_id,
            self.range,
            self.race,
            self.notices,
            self.before,
            self.after,
            self.extra_before,
            self.extra_after,
            self.result,
        )
    }

    /// The stack of each byte before the call.
    pub open spec fn old_stacks(self) -> Seq<Seq<Item>> {
        self.extra_before.stacked_borrows->Some_0.locations()
    }

    /// The stack of each byte after the call.
    pub open spec fn new_stacks(self) -> Seq<Seq<Item>> {
        self.extra_after.stacked_borrows->Some_0.locations()
    }

    /// The calls that are running.
    pub open spec fn running(self) -> Set<CallId> {
        self.before.stacked_borrows->Some_0.active_calls@
    }

    /// The call, as an operation on the borrow stacks.
    pub proof fn lemma_effects(self)
        requires
            self.valid(),
            !(self.extra_before.data_race && self.race is Err),
        ensures
            self.extra_after.stacked_borrows is Some,
            ({
                let before = self.old_stacks();
                let after = self.new_stacks();
                let ok = self.result is Ok;
                match self.op {
                    StackOp::Access { access: AccessKind::Read, tag } => effects::range_read(
                        before,
                        after,
                        self.range,
                        tag,
                        self.running(),
                        ok,
                    ),
                    StackOp::Access { access: AccessKind::Write, tag } => effects::range_written(
                        before,
                        after,
                        self.range,
                        tag,
                        self.running(),
                        ok,
                    ),
                    StackOp::Dealloc { tag } => effects::range_freed(
                        before,
                        after,
                        self.range,
                        tag,
                        self.running(),
                        ok,
                    ),
                    StackOp::Grant { derived_from, new } => effects::range_derived(
                        before,
                        after,
                        self.range,
                        derived_from,
                        new,
                        self.running(),
                        ok,
                    ),
                }
            }),
    {
        let stacks = self.extra_before.stacked_borrows->Some_0;
        allocation_laws::law_range_effects(
            SweepDone {
                op: self.op,
                alloc_id: self.alloc_id,
                range: self.range,
                global: self.before.stacked_borrows->Some_0,
                before: Track {
                    notices: self.notices,
                    ..stacks.track(self.before.diagnostics)
                },
                after: self.extra_after.stacked_borrows->Some_0.track(self.after.diagnostics),
                result: match self.result {
                    Ok(()) => Ok(()),
                    Err(InterpError::ExperimentalUb(error)) => Err(error),
                    Err(_) => arbitrary(),
                },
            },
        );
    }
}

/// Memory that was read at the byte `i` with a tag, through its highest item `g` that is not
/// disabled: every item is where it was, with its tag and its protector. Every `Unique` above `g`
/// is disabled now. If `g` is a `Unique` or a `SharedReadOnly`, every `SharedReadWrite` above it is
/// read-only now. Every other item permits what it did.
pub proof fn law_reading_memory<L>(call: MemoryCall<L>, tag: SbTag, i: int, g: int, j: int)
    requires
        call.valid(),
        call.op == (StackOp::Access { access: AccessKind::Read, tag }),
        call.result is Ok,
        call.range.start <= i < call.range.start + call.range.size,
        0 <= g < call.old_stacks()[i].len(),
        call.old_stacks()[i][g].tag == tag,
        call.old_stacks()[i][g].perm != Permission::Disabled,
        forall|k: int|
            g < k < call.old_stacks()[i].len() ==> (#[trigger] call.old_stacks()[i][k]).tag != tag
                || call.old_stacks()[i][k].perm == Permission::Disabled,
        0 <= j < call.old_stacks()[i].len(),
    ensures
        ({
            let s = call.old_stacks()[i];
            let t = call.new_stacks()[i];
            &&& t.len() == s.len()
            &&& t[j].tag == s[j].tag && t[j].protector == s[j].protector
            &&& j <= g ==> t[j] == s[j]
            &&& j > g && s[j].perm == Permission::Unique ==> t[j].perm == Permission::Disabled
            &&& j > g && s[j].perm == Permission::SharedReadWrite ==> t[j].perm == (if s[g].perm
                == Permission::Unique || s[g].perm == Permission::SharedReadOnly {
                Permission::SharedReadOnly
            } else {
                Permission::SharedReadWrite
            })
            &&& s[j].perm != Permission::Unique && s[j].perm != Permission::SharedReadWrite
                ==> t[j] == s[j]
        }),
{
    call.lemma_effects();
    let s = call.old_stacks()[i];
    let t = call.new_stacks()[i];
    assert(effects::inside(call.range, i));
    let h = choose|h: int| #[trigger]
        effects::grants_read(s, tag, h) && effects::read_through(s, h, t);
    assert(effects::grants_read(s, tag, g)) by {
        assert forall|k: int| g < k < s.len() implies !((#[trigger] s[k]).tag == tag
            && effects::may_read(s[k].perm)) by {}
    }
    effects::lemma_one_granting(s, tag, g, h);
    let after = t[j];
}

/// Reading memory is refused if some byte of the range has no item with the tag that is not
/// disabled, or a call that is running protects an item above the highest such one, `g`, from which
/// the read would take something.
pub proof fn law_reading_is_refused<L>(call: MemoryCall<L>, tag: SbTag, i: int, g: int, j: int)
    requires
        call.valid(),
        call.op == (StackOp::Access { access: AccessKind::Read, tag }),
        call.range.start <= i < call.range.start + call.range.size,
        ({
            let s = call.old_stacks()[i];
            ||| forall|k: int|
                0 <= k < s.len() ==> (#[trigger] s[k]).tag != tag || s[k].perm
                    == Permission::Disabled
            ||| {
                &&& 0 <= g < j < s.len()
                &&& s[g].tag == tag
                &&& s[g].perm != Permission::Disabled
                &&& forall|k: int|
                    g < k < s.len() ==> (#[trigger] s[k]).tag != tag || s[k].perm
                        == Permission::Disabled
                &&& s[j].protector is Some
                &&& call.running().contains(s[j].protector->Some_0)
                &&& s[j].perm == Permission::Unique || (s[j].perm == Permission::SharedReadWrite
                    && (s[g].perm == Permission::Unique || s[g].perm
                    == Permission::SharedReadOnly))
            }
        }),
    ensures
        call.result is Err,
{
    if !(call.extra_before.data_race && call.race is Err) {
        call.lemma_effects();
        let s = call.old_stacks()[i];
        assert(effects::inside(call.range, i));
        if call.result is Ok {
            assert(effects::readable(s, tag, call.running()));
            let h = choose|h: int| #[trigger]
                effects::grants_read(s, tag, h) && effects::read_harms_none(s, h, call.running());
            if 0 <= g < j < s.len() && effects::grants_read(s, tag, g) {
                effects::lemma_one_granting(s, tag, g, h);
                assert(effects::loses(s, g, j) ==> !effects::protected(s[j], call.running()));
            }
            if 0 <= g < s.len() && s[g].tag == tag && s[g].perm != Permission::Disabled {
                let k = s[h];
            }
        }
    }
}

/// Memory that was written at the byte `i` with a tag, through its highest item `g` that may be
/// written through: the items up to `g` stay, and so does an item above it if it and all between,
/// and `g` itself, are for shared mutable access. Anything else is gone. What stays is as it was,
/// but for `g`, if it was the first phase of a two-phase borrow: that is over.
pub proof fn law_writing_memory<L>(call: MemoryCall<L>, tag: SbTag, i: int, g: int, j: int)
    requires
        call.valid(),
        call.op == (StackOp::Access { access: AccessKind::Write, tag }),
        call.result is Ok,
        call.range.start <= i < call.range.start + call.range.size,
        0 <= g < call.old_stacks()[i].len(),
        call.old_stacks()[i][g].tag == tag,
        call.old_stacks()[i][g].perm != Permission::Disabled,
        call.old_stacks()[i][g].perm != Permission::SharedReadOnly,
        forall|k: int|
            g < k < call.old_stacks()[i].len() ==> (#[trigger] call.old_stacks()[i][k]).tag != tag
                || call.old_stacks()[i][k].perm == Permission::Disabled
                || call.old_stacks()[i][k].perm == Permission::SharedReadOnly,
        0 <= j < call.old_stacks()[i].len(),
    ensures
        ({
            let s = call.old_stacks()[i];
            let t = call.new_stacks()[i];
            let stays = j <= g || forall|k: int|
                g <= k <= j ==> (#[trigger] s[k]).perm == Permission::SharedReadWrite || s[k].perm
                    == Permission::TwoPhasedRW;
            &&& t.len() <= s.len()
            &&& j < t.len() <==> stays
            &&& stays && j != g ==> t[j] == s[j]
            &&& t[g].tag == s[g].tag && t[g].protector == s[g].protector
            &&& s[g].perm == Permission::TwoPhasedRW ==> t[g].perm == Permission::SharedReadWrite
            &&& s[g].perm != Permission::TwoPhasedRW ==> t[g].perm == s[g].perm
        }),
{
    call.lemma_effects();
    let s = call.old_stacks()[i];
    let t = call.new_stacks()[i];
    assert(effects::inside(call.range, i));
    let h = choose|h: int| #[trigger]
        effects::grants_write(s, tag, h) && effects::written_through(s, h, t);
    assert(effects::grants_write(s, tag, g)) by {
        assert forall|k: int| g < k < s.len() implies !((#[trigger] s[k]).tag == tag
            && effects::may_write(s[k].perm)) by {}
    }
    effects::lemma_one_granting(s, tag, g, h);
    assert(j < t.len() <==> effects::stays(s, g, j));
    assert(effects::stays(s, g, j) <==> (j <= g || forall|k: int|
        g <= k <= j ==> (#[trigger] s[k]).perm == Permission::SharedReadWrite || s[k].perm
            == Permission::TwoPhasedRW)) by {
        if effects::stays(s, g, j) && j > g {
            assert forall|k: int| g <= k <= j implies (#[trigger] s[k]).perm
                == Permission::SharedReadWrite || s[k].perm == Permission::TwoPhasedRW by {
                assert(effects::shares(s[k].perm));
            }
        }
    }
}

/// Writing memory is refused if some byte of the range has no item with the tag that may be written
/// through, or a call that is running protects an item `j` above the highest such one, `g`, which
/// would have to go: it is not for shared mutable access, or an item between is not, or `g`.
pub proof fn law_writing_is_refused<L>(
    call: MemoryCall<L>,
    tag: SbTag,
    i: int,
    g: int,
    k: int,
    j: int,
)
    requires
        call.valid(),
        call.op == (StackOp::Access { access: AccessKind::Write, tag }),
        call.range.start <= i < call.range.start + call.range.size,
        ({
            let s = call.old_stacks()[i];
            ||| forall|m: int|
                0 <= m < s.len() ==> (#[trigger] s[m]).tag != tag || s[m].perm
                    == Permission::Disabled || s[m].perm == Permission::SharedReadOnly
            ||| {
                &&& 0 <= g <= k <= j < s.len()
                &&& g < j
                &&& s[g].tag == tag
                &&& s[g].perm != Permission::Disabled && s[g].perm != Permission::SharedReadOnly
                &&& forall|m: int|
                    g < m < s.len() ==> (#[trigger] s[m]).tag != tag || s[m].perm
                        == Permission::Disabled || s[m].perm == Permission::SharedReadOnly
                &&& s[k].perm != Permission::SharedReadWrite && s[k].perm
                    != Permission::TwoPhasedRW
                &&& s[j].protector is Some
                &&& call.running().contains(s[j].protector->Some_0)
            }
        }),
    ensures
        call.result is Err,
{
    if !(call.extra_before.data_race && call.race is Err) {
        call.lemma_effects();
        let s = call.old_stacks()[i];
        assert(effects::inside(call.range, i));
        if call.result is Ok {
            assert(effects::writable(s, tag, call.running()));
            let h = choose|h: int| #[trigger]
                effects::grants_write(s, tag, h) && effects::write_harms_none(
                    s,
                    h,
                    call.running(),
                );
            let item = s[h];
            assert(effects::grants_write(s, tag, g));
            effects::lemma_one_granting(s, tag, g, h);
            assert(!effects::shares(s[k].perm));
            assert(!effects::stays(s, g, j));
            assert(!effects::protected(s[j], call.running()));
        }
    }
}

/// Memory with borrow stacks is freed exactly if each byte of the range has an item with the tag
/// that may be written through, and no item that is protected by a call that is running. Then
/// nothing is left for any of these bytes. It does not matter whether a race detector follows the
/// allocation, as long as it has found no race.
pub proof fn law_freeing_memory<L>(call: MemoryCall<L>, tag: SbTag)
    requires
        call.valid(),
        call.op == (StackOp::Dealloc { tag }),
        call.extra_before.data_race ==> call.race is Ok,
    ensures
        call.result is Ok <==> forall|i: int|
            call.range.start <= i < call.range.start + call.range.size ==> may_free(
                #[trigger] call.old_stacks()[i],
                tag,
                call.running(),
            ),
        call.result is Ok ==> forall|i: int|
            call.range.start <= i < call.range.start + call.range.size ==> (
            #[trigger] call.new_stacks()[i]).len() == 0,
        forall|i: int|
            0 <= i < call.old_stacks().len() && !(call.range.start <= i < call.range.start
                + call.range.size) ==> #[trigger] call.new_stacks()[i] == call.old_stacks()[i],
{
    call.lemma_effects();
    let before = call.old_stacks();
    assert forall|i: int| call.range.start <= i < call.range.start + call.range.size implies (
    effects::freeable(#[trigger] before[i], tag, call.running()) <==> may_free(
        before[i],
        tag,
        call.running(),
    )) by {
        let s = before[i];
        assert(effects::inside(call.range, i));
        if may_free(s, tag, call.running()) {
            let g = choose|g: int|
                0 <= g < s.len() && (#[trigger] s[g]).tag == tag && s[g].perm
                    != Permission::Disabled && s[g].perm != Permission::SharedReadOnly;
            effects::law_some_writer_is_the_highest(s, tag, g);
            assert forall|j: int| 0 <= j < s.len() implies !effects::protected(
                #[trigger] s[j],
                call.running(),
            ) by {}
        }
        if effects::freeable(s, tag, call.running()) {
            let g = choose|g: int| #[trigger] effects::grants_write(s, tag, g);
            let item = s[g];
            assert forall|j: int|
                0 <= j < s.len() && (
                #[trigger] s[j]).protector is Some implies !call.running().contains(
                s[j].protector->Some_0,
            ) by {
                assert(!effects::protected(s[j], call.running()));
            }
        }
    }
    if call.result is Ok {
        assert forall|i: int|
            call.range.start <= i < call.range.start + call.range.size implies may_free(
            #[trigger] before[i],
            tag,
            call.running(),
        ) by {
            assert(effects::inside(call.range, i));
        }
    } else {
        let i = choose|i: int|
            effects::inside(call.range, i) && !effects::freeable(
                #[trigger] before[i],
                tag,
                call.running(),
            );
        let s = before[i];
    }
}

/// Some item has the tag and is neither disabled nor read-only, and no item has a protector that is
/// running.
pub open spec fn may_free(s: Seq<Item>, tag: SbTag, running: Set<CallId>) -> bool {
    &&& exists|g: int|
        0 <= g < s.len() && (#[trigger] s[g]).tag == tag && s[g].perm != Permission::Disabled
            && s[g].perm != Permission::SharedReadOnly
    &&& forall|j: int|
        0 <= j < s.len() && (#[trigger] s[j]).protector is Some ==> !running.contains(
            s[j].protector->Some_0,
        )
}

/// A memory hook keeps what was reported so far, and adds to it only what happens to the stacks.
pub proof fn law_memory_hooks_keep_reports<L>(call: MemoryCall<L>, k: int)
    requires
        call.valid(),
        0 <= k < call.after.diagnostics@.len(),
    ensures
        call.notices.len() <= call.after.diagnostics@.len(),
        k < call.notices.len() ==> call.after.diagnostics@[k] == call.notices[k],
        k >= call.notices.len() ==> report_laws::about_a_stack(call.after.diagnostics@[k]),
{
    if !(call.extra_before.data_race && call.race is Err) {
        let stacks = call.extra_before.stacked_borrows->Some_0;
        let sweep = Sweep {
            before: stacks.locations(),
            op: call.op,
            alloc_id: call.alloc_id,
            range: call.range,
            global: call.before.stacked_borrows->Some_0,
        };
        let after = call.extra_after.stacked_borrows->Some_0.track(call.after.diagnostics);
        let ended: Result<(), BorrowError> = match call.result {
            Ok(()) => Ok(()),
            Err(InterpError::ExperimentalUb(error)) => Err(error),
            Err(_) => arbitrary(),
        };
        let (cuts, n) = choose|cuts: Seq<Size>, n: int|
            {
                &&& #[trigger] sweep.performed(cuts, n, after.locations, ended)
                &&& after.notices == call.notices + sweep.notices(cuts, n)
                &&& after.history == stacks.history@ + sweep.history(cuts, n)
            };
        pointer_laws::lemma_runs_only_invalidate(sweep, cuts, n);
        if k >= call.notices.len() {
            let m = k - call.notices.len();
            assert(sweep.notices(cuts, n)[m] == after.notices[k]);
        }
    }
}

} // verus!
