//! The borrow stacks of an allocation: per-stack operations mapped to per-location-range
//! operations.
use vstd::prelude::*;

use crate::error::InterpError;
use crate::machine::memory_kind::{MemoryKind, MiriMemoryKind};
use crate::memory::{alloc_range, AllocId, AllocRange, Size};
use crate::range_map;
use crate::range_map::RangeMap;
use crate::stacked_borrows::allocation_laws;
use crate::stacked_borrows::allocation_laws::SweepDone;
use crate::stacked_borrows::diagnostics::{
    AccessSite, AllocHistory, BorrowError, DiagnosticView, Diagnostics, HistoryEvent,
};
use crate::stacked_borrows::effects;
use crate::stacked_borrows::global::{GlobalStateInner, TagBook};
use crate::stacked_borrows::item::{AccessKind, Item, Permission, SbTag};
use crate::stacked_borrows::stack;
use crate::stacked_borrows::stack::{Outcome, Stack, StackOp};

verus! {

/// Extra per-allocation state.
#[derive(Debug)]
pub struct Stacks {
    pub stacks: RangeMap<Stack>,
    /// Stores past operations on this allocation
    pub history: AllocHistory,
}

/// An operation that is to be performed on every location of a range.
pub struct Sweep {
    /// The stack of each location of the allocation.
    pub before: Seq<Seq<Item>>,
    pub op: StackOp,
    pub alloc_id: AllocId,
    pub range: AllocRange,
    pub global: GlobalStateInner,
}

/// Everything about an allocation that an operation can change, and what was reported so far.
#[verifier::ext_equal]
pub struct Track {
    /// The stack of each location.
    pub locations: Seq<Seq<Item>>,
    pub history: Seq<HistoryEvent>,
    pub notices: Seq<DiagnosticView>,
}

/// Whether performing the operation on every location of the range turns `before` into `after`
/// and ends with `result`.
pub open spec fn swept(
    op: StackOp,
    alloc_id: AllocId,
    range: AllocRange,
    global: GlobalStateInner,
    before: Track,
    after: Track,
    result: Result<(), BorrowError>,
) -> bool {
    let sweep = Sweep { before: before.locations, op, alloc_id, range, global };
    &&& after.locations.len() == before.locations.len()
    &&& sweep.explains(after.locations, result)
    &&& sweep.reported(
        after.locations,
        result,
        before.notices,
        after.notices,
        before.history,
        after.history,
    )
}

/// Whether a step of the interpreter that performs the operation on every location of the range
/// turns `before` into `after` and ends with `result`.
pub open spec fn stepped(
    op: StackOp,
    alloc_id: AllocId,
    range: AllocRange,
    global: GlobalStateInner,
    before: Track,
    after: Track,
    result: Result<(), InterpError>,
) -> bool {
    match result {
        Ok(()) => swept(op, alloc_id, range, global, before, after, Ok(())),
        Err(InterpError::ExperimentalUb(error)) => swept(
            op,
            alloc_id,
            range,
            global,
            before,
            after,
            Err(error),
        ),
        Err(_) => false,
    }
}

impl Sweep {
    pub open spec fn site(self, offset: Size) -> AccessSite {
        AccessSite { alloc_id: self.alloc_id, range: self.range, offset }
    }

    /// What the operation does at one location.
    pub open spec fn outcome(self, offset: Size) -> Outcome {
        stack::op_outcome(self.before[offset as int], self.op, self.site(offset), self.global)
    }

    /// Whether the operation succeeds at every location of the range below `end`.
    pub open spec fn permitted_below(self, end: int) -> bool {
        forall|i: Size|
            self.range.covers(i as int) && i < end ==> (#[trigger] self.outcome(i)).result is Ok
    }

    /// Whether the operation succeeds at every location of the range.
    pub open spec fn permitted(self) -> bool {
        self.permitted_below(self.range.end())
    }

    /// Whether `cuts` divides the range into runs of locations with equal stacks: each run starts
    /// at one cut and ends at the next.
    pub open spec fn divided_by(self, cuts: Seq<Size>) -> bool {
        &&& cuts.len() >= 1
        &&& cuts[0] == self.range.start
        &&& cuts.last() == self.range.end()
        &&& forall|j: int, k: int|
            #![trigger cuts[j], cuts[k]]
            0 <= j < k < cuts.len() ==> cuts[j] < cuts[k]
        &&& forall|k: int, i: int|
            #![trigger cuts[k], self.before[i]]
            0 <= k < cuts.len() - 1 && cuts[k] <= i < cuts[k + 1] ==> self.before[i]
                == self.before[cuts[k] as int]
    }

    /// What the first `n` runs report.
    pub open spec fn notices(self, cuts: Seq<Size>, n: int) -> Seq<DiagnosticView>
        decreases n,
    {
        if n <= 0 {
            Seq::empty()
        } else {
            self.notices(cuts, n - 1) + self.outcome(cuts[n - 1]).notices
        }
    }

    /// What the first `n` runs record.
    pub open spec fn history(self, cuts: Seq<Size>, n: int) -> Seq<HistoryEvent>
        decreases n,
    {
        if n <= 0 {
            Seq::empty()
        } else {
            self.history(cuts, n - 1) + self.outcome(cuts[n - 1]).history
        }
    }

    /// Whether performing the operation run by run, for the first `done` runs, leaves the stacks
    /// as in `after` and ends with `result`. It ends early exactly at a run where the operation
    /// fails.
    pub open spec fn performed(
        self,
        cuts: Seq<Size>,
        done: int,
        after: Seq<Seq<Item>>,
        result: Result<(), BorrowError>,
    ) -> bool {
        &&& self.divided_by(cuts)
        &&& 0 <= done < cuts.len()
        &&& after.len() == self.before.len()
        &&& forall|k: int|
            0 <= k < done - 1 ==> self.outcome(#[trigger] cuts[k]).result is Ok
        &&& result is Ok ==> done == cuts.len() - 1
        &&& result is Err ==> done > 0
        &&& done > 0 ==> self.outcome(cuts[done - 1]).result == result
        &&& forall|i: int|
            0 <= i < after.len() ==> #[trigger] after[i] == if self.range.start <= i < cuts[done] {
                self.outcome(i as Size).stack
            } else {
                self.before[i]
            }
    }

    /// Whether performing the operation on the runs of some division of the range leaves the
    /// stacks as in `after`, ends with `result`, and adds to the reports and to the history what
    /// the runs report and record.
    pub open spec fn reported(
        self,
        after: Seq<Seq<Item>>,
        result: Result<(), BorrowError>,
        old_notices: Seq<DiagnosticView>,
        new_notices: Seq<DiagnosticView>,
        old_history: Seq<HistoryEvent>,
        new_history: Seq<HistoryEvent>,
    ) -> bool {
        exists|cuts: Seq<Size>, done: int|
            {
                &&& #[trigger] self.performed(cuts, done, after, result)
                &&& new_notices == old_notices + self.notices(cuts, done)
                &&& new_history == old_history + self.history(cuts, done)
            }
    }

    /// What performing the operation does, location by location.
    pub open spec fn explains(
        self,
        after: Seq<Seq<Item>>,
        result: Result<(), BorrowError>,
    ) -> bool {
        &&& result is Ok <==> self.permitted()
        &&& result is Ok ==> after.len() == self.before.len() && forall|i: int|
            0 <= i < after.len() ==> #[trigger] after[i] == if self.range.covers(i) {
                self.outcome(i as Size).stack
            } else {
                self.before[i]
            }
        &&& result is Err ==> exists|i: Size|
            {
                &&& self.range.covers(i as int)
                &&& #[trigger] self.outcome(i).result == result
                &&& self.permitted_below(i as int)
            }
    }

    /// Performing the operation run by run is performing it location by location, up to the first
    /// location where it fails.
    pub proof fn lemma_explains(
        self,
        cuts: Seq<Size>,
        done: int,
        after: Seq<Seq<Item>>,
        result: Result<(), BorrowError>,
    )
        requires
            self.performed(cuts, done, after, result),
            self.range.within(self.before.len() as int),
            self.before.len() <= u64::MAX,
        ensures
            self.explains(after, result),
    {
        if result is Ok {
            self.lemma_permitted_below(cuts, done);
        } else {
            self.lemma_permitted_below(cuts, done - 1);
            let a = cuts[done];
            let i = cuts[done - 1];
            let first = cuts[0];
            let last = cuts[cuts.len() - 1];
            assert(self.range.covers(i as int));
            assert(self.outcome(i).result == result);
        }
    }

    /// If the operation succeeds at the first `n` cuts, it does at every location of the first
    /// `n` runs.
    proof fn lemma_permitted_below(self, cuts: Seq<Size>, n: int)
        requires
            self.divided_by(cuts),
            0 <= n < cuts.len(),
            forall|k: int| 0 <= k < n ==> self.outcome(#[trigger] cuts[k]).result is Ok,
        ensures
            self.permitted_below(cuts[n] as int),
        decreases n,
    {
        if n > 0 {
            self.lemma_permitted_below(cuts, n - 1);
            assert forall|i: Size|
                self.range.covers(i as int) && i < cuts[n] implies (
            #[trigger] self.outcome(i)).result is Ok by {
                if cuts[n - 1] <= i {
                    let c = cuts[n - 1];
                    assert(self.before[i as int] == self.before[c as int]);
                    assert(self.outcome(c).result is Ok);
                    stack::lemma_offset_irrelevant(
                        self.before[i as int],
                        self.op,
                        self.site(c),
                        self.site(i),
                        self.global,
                    );
                }
            }
        }
    }
}

impl Stacks {
    pub open spec fn wf(self) -> bool {
        self.stacks.wf()
    }

    /// The stack of each location.
    pub open spec fn locations(self) -> Seq<Seq<Item>> {
        self.stacks@
    }

    /// The allocation together with what was reported so far.
    pub open spec fn track(self, diagnostics: Diagnostics) -> Track {
        Track {
            locations: self.locations(),
            history: self.history@,
            notices: diagnostics@,
        }
    }

    /// Creates new stacks, one for each of `size` locations, with an initial tag.
    pub fn new(size: Size, perm: Permission, tag: SbTag, local_crates: Vec<u32>) -> (stacks: Self)
        ensures
            stacks.wf(),
            stacks.locations().len() == size,
            forall|i: int|
                0 <= i < size ==> #[trigger] stacks.locations()[i] == seq![
                    Item { perm, tag, protector: None },
                ],
            stacks.history@ == Seq::<HistoryEvent>::empty(),
            stacks.history.local_crates == local_crates,
    {
        let item = Item { perm, tag, protector: None };
        let mut borrows: Vec<Item> = Vec::new();
        borrows.push(item);
        let stack = Stack { borrows };
        assert(stack@ =~= seq![item]);
        Stacks { stacks: RangeMap::new(size, stack), history: AllocHistory::new(local_crates) }
    }

    /// Performs the operation on the stack of one entry.
    fn apply_at(
        &mut self,
        index: usize,
        op: StackOp,
        site: AccessSite,
        global: &GlobalStateInner,
        diagnostics: &mut Diagnostics,
    ) -> (result: Result<(), BorrowError>)
        requires
            index < old(self).stacks.elems@.len(),
        ensures
            final(self).stacks.size == old(self).stacks.size,
            final(self).stacks.elems@.len() == old(self).stacks.elems@.len(),
            forall|k: int|
                0 <= k < final(self).stacks.elems@.len() && k != index
                    ==> #[trigger] final(self).stacks.elems@[k] == old(self).stacks.elems@[k],
            final(self).stacks.elems@[index as int].start == old(
                self,
            ).stacks.elems@[index as int].start,
            final(self).stacks.elems@[index as int].end == old(
                self,
            ).stacks.elems@[index as int].end,
            ({
                let outcome = stack::op_outcome(
                    old(self).stacks.elems@[index as int].data@,
                    op,
                    site,
                    *global,
                );
                &&& final(self).stacks.elems@[index as int].data@ == outcome.stack
                &&& final(diagnostics)@ == old(diagnostics)@ + outcome.notices
                &&& final(self).history@ == old(self).history@ + outcome.history
                &&& result == outcome.result
            }),
            final(self).history.local_crates == old(self).history.local_crates,
    {
        self.stacks.elems[index].data.apply(op, site, global, diagnostics, &mut self.history)
    }

    /// Performs the operation on the stacks of the entries from `first` up to `last`, which cover
    /// the range, until one refuses it.
    fn apply_to_entries(
        &mut self,
        first: usize,
        last: usize,
        range: AllocRange,
        op: StackOp,
        alloc_id: AllocId,
        global: &GlobalStateInner,
        diagnostics: &mut Diagnostics,
    ) -> (result: Result<(), BorrowError>)
        requires
            old(self).wf(),
            range.within(old(self).locations().len() as int),
            first < last,
            (Sweep {
                before: old(self).locations(),
                op,
                alloc_id,
                range,
                global: *global,
            }).cut_at(old(self).stacks, first as int, last as int),
        ensures
            final(self).wf(),
            final(self).history.local_crates == old(self).history.local_crates,
            swept(
                op,
                alloc_id,
                range,
                *global,
                old(self).track(*old(diagnostics)),
                final(self).track(*final(diagnostics)),
                result,
            ),
    {
        let ghost mid = self.stacks;
        let ghost sweep = Sweep { before: mid@, op, alloc_id, range, global: *global };
        let ghost cuts = cuts_of(mid, first as int, last as int);
        assert(diagnostics@ =~= old(diagnostics)@ + sweep.notices(cuts, 0));
        assert(self.history@ =~= old(self).history@ + sweep.history(cuts, 0));
        proof {
            sweep.lemma_no_entry(mid, first as int);
        }
        let mut i: usize = first;
        while i < last
            invariant
                first <= i <= last,
                first < last,
                mid == old(self).stacks,
                mid.wf(),
                sweep == (Sweep { before: mid@, op, alloc_id, range, global: *global }),
                range.within(sweep.before.len() as int),
                cuts == cuts_of(mid, first as int, last as int),
                sweep.cut_at(mid, first as int, last as int),
                sweep.applied_up_to(mid, self.stacks, first as int, i as int),
                forall|k: int|
                    0 <= k < i - first ==> sweep.outcome(#[trigger] cuts[k]).result is Ok,
                diagnostics@ == old(diagnostics)@ + sweep.notices(cuts, i - first),
                self.history@ == old(self).history@ + sweep.history(cuts, i - first),
                self.history.local_crates == old(self).history.local_crates,
            decreases last - i,
        {
            let ghost before = self.stacks;
            proof {
                sweep.lemma_entry(mid, before, first as int, i as int, last as int);
            }
            let offset = self.stacks.elems[i].start;
            let result = self.apply_at(
                i,
                op,
                AccessSite { alloc_id, range, offset },
                global,
                diagnostics,
            );
            let ghost done = i - first + 1;
            proof {
                assert(diagnostics@ =~= old(diagnostics)@ + sweep.notices(cuts, done));
                assert(self.history@ =~= old(self).history@ + sweep.history(cuts, done));
                sweep.lemma_next_entry(mid, before, self.stacks, first as int, i as int);
            }
            i += 1;
            if result.is_err() {
                proof {
                    lemma_performed(
                        sweep,
                        mid,
                        self.stacks,
                        first as int,
                        i as int,
                        last as int,
                        result,
                    );
                    sweep.lemma_explains(cuts, done, self.locations(), result);
                }
                return result;
            }
        }
        proof {
            lemma_performed(sweep, mid, self.stacks, first as int, i as int, last as int, Ok(()));
            sweep.lemma_explains(cuts, last - first, self.locations(), Ok(()));
        }
        Ok(())
    }

    /// Performs the operation on every stack in the range, until one refuses it.
    pub fn for_each(
        &mut self,
        range: AllocRange,
        op: StackOp,
        alloc_id: AllocId,
        global: &GlobalStateInner,
        diagnostics: &mut Diagnostics,
    ) -> (result: Result<(), BorrowError>)
        requires
            old(self).wf(),
            range.within(old(self).locations().len() as int),
        ensures
            final(self).wf(),
            final(self).history.local_crates == old(self).history.local_crates,
            swept(
                op,
                alloc_id,
                range,
                *global,
                old(self).track(*old(diagnostics)),
                final(self).track(*final(diagnostics)),
                result,
            ),
    {
        let ghost sweep = Sweep { before: self.locations(), op, alloc_id, range, global: *global };
        if range.size == 0 {
            proof {
                let cuts = seq![range.start];
                assert(diagnostics@ =~= old(diagnostics)@ + sweep.notices(cuts, 0));
                assert(self.history@ =~= old(self).history@ + sweep.history(cuts, 0));
                assert(sweep.performed(cuts, 0, self.locations(), Ok(())));
                sweep.lemma_explains(cuts, 0, self.locations(), Ok(()));
            }
            return Ok(());
        }
        let end = range.start + range.size;
        let first = self.stacks.split_at(range.start);
        let ghost divided = self.stacks;
        let last = self.stacks.split_at(end);
        proof {
            assert(divided.elems@[first as int].start < end);
            assert(self.stacks.elems@[first as int].start == range.start);
            lemma_cuts(sweep, self.stacks, first as int, last as int);
        }
        self.apply_to_entries(first, last, range, op, alloc_id, global, diagnostics)
    }
}

/// Whether heap memory gets no tag of its own: we only track it precisely when raw pointers are
/// tagged, for now.
pub open spec fn untagged_base(kind: MemoryKind, global: GlobalStateInner) -> bool {
    kind.is_heap() && !global.tag_raw
}

/// The tag of the first pointer to a new allocation.
pub open spec fn initial_tag(id: AllocId, kind: MemoryKind, global: GlobalStateInner) -> SbTag {
    if untagged_base(kind, global) {
        SbTag::Untagged
    } else {
        global.base_tag_spec(id)
    }
}

/// The permission of the first pointer to a new allocation. Only a local on the stack is not
/// reachable through other pointers.
pub open spec fn initial_perm(kind: MemoryKind) -> Permission {
    if kind == MemoryKind::Stack {
        Permission::Unique
    } else {
        Permission::SharedReadWrite
    }
}

/// The base tags after making a new allocation known.
pub open spec fn initial_book(id: AllocId, kind: MemoryKind, global: GlobalStateInner) -> TagBook {
    if untagged_base(kind, global) {
        TagBook {
            next: global.next_ptr_id as int,
            table: global.base_ptr_ids@.insert(id, SbTag::Untagged),
        }
    } else {
        global.book().asked(id)
    }
}

/// Whether `after` is what making the allocation known leaves of the global state `before`.
pub open spec fn initial_tag_chosen(
    id: AllocId,
    kind: MemoryKind,
    before: GlobalStateInner,
    after: GlobalStateInner,
) -> bool {
    &&& after.same_but_pointers(before)
    &&& after.book() == initial_book(id, kind, before)
}

/// Whether the global state has a tag for the new allocation: an untagged one must not have a
/// base tag already, and for another one a pointer ID must be left.
pub open spec fn can_choose_initial_tag(
    id: AllocId,
    kind: MemoryKind,
    global: GlobalStateInner,
) -> bool {
    if untagged_base(kind, global) {
        !global.base_ptr_ids@.contains_key(id)
    } else {
        global.can_choose_base_tag(id)
    }
}

/// What making a new allocation known reports.
pub open spec fn initial_tag_notices(
    id: AllocId,
    kind: MemoryKind,
    global: GlobalStateInner,
) -> Seq<DiagnosticView> {
    if untagged_base(kind, global) {
        Seq::empty()
    } else {
        global.base_tag_notices(id)
    }
}

impl Stacks {
    /// Whether these are the stacks of a new allocation whose first pointer has the given tag and
    /// permission.
    pub open spec fn fresh(self, size: Size, perm: Permission, tag: SbTag) -> bool {
        &&& self.wf()
        &&& self.locations().len() == size
        &&& forall|i: int|
            0 <= i < size ==> #[trigger] self.locations()[i] == seq![
                Item { perm, tag, protector: None },
            ]
        &&& self.history@ == seq![
            HistoryEvent::Creation { parent: None, tag, range: AllocRange { start: 0, size } },
        ]
    }

    /// The stacks of a new allocation.
    pub fn new_allocation(
        id: AllocId,
        size: Size,
        state: &mut GlobalStateInner,
        kind: MemoryKind,
        local_crates: Vec<u32>,
        diagnostics: &mut Diagnostics,
    ) -> (stacks: Self)
        requires
            old(state).wf(),
            can_choose_initial_tag(id, kind, *old(state)),
        ensures
            final(state).wf(),
            initial_tag_chosen(id, kind, *old(state), *final(state)),
            stacks.fresh(size, initial_perm(kind), initial_tag(id, kind, *old(state))),
            stacks.history.local_crates == local_crates,
            final(diagnostics)@ == old(diagnostics)@ + initial_tag_notices(id, kind, *old(state)),
    {
        let (base_tag, perm) = match kind {
            // New unique borrow. This tag is not accessible by the program,
            // so it will only ever be used when using the local directly (i.e.,
            // not through a pointer). That is, whenever we directly write to a local, this will
            // pop everything else off the stack, invalidating all previous pointers,
            // and in particular, *all* raw pointers.
            MemoryKind::Stack => (state.base_tag(id, diagnostics), Permission::Unique),
            // `Global` memory can be referenced by pointers that exist before the memory is
            // copied. Thus the table of base tags makes them get the same tag as what we use here.
            // `ExternStatic` is used for extern statics, so the same reasoning applies.
            // The others are various forms of machine-managed special global memory, and we can
            // get away with precise tracking there.
            // The base pointer is not unique, so the base permission is `SharedReadWrite`.
            MemoryKind::CallerLocation
            | MemoryKind::Machine(MiriMemoryKind::Global)
            | MemoryKind::Machine(MiriMemoryKind::ExternStatic)
            | MemoryKind::Machine(MiriMemoryKind::Tls)
            | MemoryKind::Machine(MiriMemoryKind::Runtime)
            | MemoryKind::Machine(MiriMemoryKind::Machine) => (
                state.base_tag(id, diagnostics),
                Permission::SharedReadWrite,
            ),
            // Heap allocations we only track precisely when raw pointers are tagged, for now.
            MemoryKind::Machine(MiriMemoryKind::Rust)
            | MemoryKind::Machine(MiriMemoryKind::C)
            | MemoryKind::Machine(MiriMemoryKind::WinHeap) => {
                let tag = if state.tag_raw {
                    state.base_tag(id, diagnostics)
                } else {
                    state.base_tag_untagged(id)
                };
                (tag, Permission::SharedReadWrite)
            },
        };
        assert(diagnostics@ =~= old(diagnostics)@ + initial_tag_notices(id, kind, *old(state)));
        let mut stacks = Stacks::new(size, perm, base_tag, local_crates);
        stacks.history.log_creation(None, base_tag, alloc_range(0, size));
        stacks
    }

    /// The violation in words. Those that are explained by the stack of a location are by the one
    /// that it has now.
    pub fn message(&self, error: BorrowError) -> (text: String)
        requires
            self.wf(),
            error.place() matches Some(offset) ==> offset < self.locations().len(),
        ensures
            text@ == error.chars(
                match error.place() {
                    Some(offset) => self.locations()[offset as int],
                    None => Seq::empty(),
                },
            ),
    {
        match error {
            BorrowError::Access { access: _, tag: _, site }
            | BorrowError::Grant { derived_from: _, new: _, site } => error.message(
                self.stacks.get(site.offset),
            ),
            _ => {
                let none = Stack { borrows: Vec::new() };
                assert(none@ =~= Seq::<Item>::empty());
                error.message(&none)
            },
        }
    }

    /// The range is read with the given tag.
    pub fn memory_read(
        &mut self,
        alloc_id: AllocId,
        tag: SbTag,
        range: AllocRange,
        state: &GlobalStateInner,
        diagnostics: &mut Diagnostics,
    ) -> (result: Result<(), BorrowError>)
        requires
            old(self).wf(),
            range.within(old(self).locations().len() as int),
        ensures
            final(self).wf(),
            final(self).history.local_crates == old(self).history.local_crates,
            swept(
                StackOp::Access { access: AccessKind::Read, tag },
                alloc_id,
                range,
                *state,
                old(self).track(*old(diagnostics)),
                final(self).track(*final(diagnostics)),
                result,
            ),
            effects::range_read(
                old(self).locations(),
                final(self).locations(),
                range,
                tag,
                state.active_calls@,
                result is Ok,
            ),
    {
        let ghost before = self.track(*diagnostics);
        let op = StackOp::Access { access: AccessKind::Read, tag };
        let result = self.for_each(range, op, alloc_id, state, diagnostics);
        proof {
            allocation_laws::law_range_effects(
                SweepDone {
                    op,
                    alloc_id,
                    range,
                    global: *state,
                    before,
                    after: self.track(*diagnostics),
                    result,
                },
            );
        }
        result
    }

    /// The range is written with the given tag.
    pub fn memory_written(
        &mut self,
        alloc_id: AllocId,
        tag: SbTag,
        range: AllocRange,
        state: &GlobalStateInner,
        diagnostics: &mut Diagnostics,
    ) -> (result: Result<(), BorrowError>)
        requires
            old(self).wf(),
            range.within(old(self).locations().len() as int),
        ensures
            final(self).wf(),
            final(self).history.local_crates == old(self).history.local_crates,
            swept(
                StackOp::Access { access: AccessKind::Write, tag },
                alloc_id,
                range,
                *state,
                old(self).track(*old(diagnostics)),
                final(self).track(*final(diagnostics)),
                result,
            ),
            effects::range_written(
                old(self).locations(),
                final(self).locations(),
                range,
                tag,
                state.active_calls@,
                result is Ok,
            ),
    {
        let ghost before = self.track(*diagnostics);
        let op = StackOp::Access { access: AccessKind::Write, tag };
        let result = self.for_each(range, op, alloc_id, state, diagnostics);
        proof {
            allocation_laws::law_range_effects(
                SweepDone {
                    op,
                    alloc_id,
                    range,
                    global: *state,
                    before,
                    after: self.track(*diagnostics),
                    result,
                },
            );
        }
        result
    }

    /// The range is freed with the given tag.
    pub fn memory_deallocated(
        &mut self,
        alloc_id: AllocId,
        tag: SbTag,
        range: AllocRange,
        state: &GlobalStateInner,
        diagnostics: &mut Diagnostics,
    ) -> (result: Result<(), BorrowError>)
        requires
            old(self).wf(),
            range.within(old(self).locations().len() as int),
        ensures
            final(self).wf(),
            final(self).history.local_crates == old(self).history.local_crates,
            swept(
                StackOp::Dealloc { tag },
                alloc_id,
                range,
                *state,
                old(self).track(*old(diagnostics)),
                final(self).track(*final(diagnostics)),
                result,
            ),
            effects::range_freed(
                old(self).locations(),
                final(self).locations(),
                range,
                tag,
                state.active_calls@,
                result is Ok,
            ),
    {
        let ghost before = self.track(*diagnostics);
        let op = StackOp::Dealloc { tag };
        let result = self.for_each(range, op, alloc_id, state, diagnostics);
        proof {
            allocation_laws::law_range_effects(
                SweepDone {
                    op,
                    alloc_id,
                    range,
                    global: *state,
                    before,
                    after: self.track(*diagnostics),
                    result,
                },
            );
        }
        result
    }
}

/// Where the entries from `first` up to `last` start, and where the last of them ends.
spec fn cuts_of(map: RangeMap<Stack>, first: int, last: int) -> Seq<Size> {
    Seq::new(
        (last - first + 1) as nat,
        |k: int|
            if first + k < map.elems@.len() {
                map.elems@[first + k].start
            } else {
                map.size
            },
    )
}

impl Sweep {
    /// Whether the entries from `first` up to `last` of `map`, which holds the stacks, cover
    /// exactly the range.
    #[verifier::opaque]
    spec fn cut_at(self, map: RangeMap<Stack>, first: int, last: int) -> bool {
        let cuts = cuts_of(map, first, last);
        &&& map@ == self.before
        &&& 0 <= first < last <= map.elems@.len()
        &&& self.divided_by(cuts)
        &&& forall|k: int|
            first <= k < last ==> cuts[k - first] == (#[trigger] map.elems@[k]).start
        &&& forall|k: int|
            first <= k < last ==> cuts[k - first + 1] == (#[trigger] map.elems@[k]).end
    }

    /// Whether `after` is `map` with the operation performed on the entries from `first` up to
    /// `i`.
    #[verifier::opaque]
    spec fn applied_up_to(
        self,
        map: RangeMap<Stack>,
        after: RangeMap<Stack>,
        first: int,
        i: int,
    ) -> bool {
        &&& after.size == map.size
        &&& after.elems@.len() == map.elems@.len()
        &&& forall|k: int|
            0 <= k < map.elems@.len() ==> (#[trigger] after.elems@[k]).start == map.elems@[k].start
                && after.elems@[k].end == map.elems@[k].end
        &&& forall|k: int|
            0 <= k < map.elems@.len() ==> (#[trigger] after.elems@[k]).data@ == if first <= k < i {
                self.outcome(map.elems@[k].start).stack
            } else {
                map.elems@[k].data@
            }
    }

    /// Before the operation was performed on any entry, nothing has changed.
    proof fn lemma_no_entry(self, map: RangeMap<Stack>, first: int)
        ensures
            self.applied_up_to(map, map, first, first),
    {
        reveal(Sweep::applied_up_to);
    }

    /// What is known of the entry that comes next.
    proof fn lemma_entry(
        self,
        map: RangeMap<Stack>,
        now: RangeMap<Stack>,
        first: int,
        i: int,
        last: int,
    )
        requires
            map.wf(),
            self.cut_at(map, first, last),
            self.applied_up_to(map, now, first, i),
            first <= i < last,
        ensures
            0 <= first,
            i < now.elems@.len() == map.elems@.len(),
            now.elems@[i].start == map.elems@[i].start,
            now.elems@[i].data@ == self.before[map.elems@[i].start as int],
            cuts_of(map, first, last)[i - first] == map.elems@[i].start,
    {
        reveal(Sweep::cut_at);
        reveal(Sweep::applied_up_to);
        let e = now.elems@[i];
        let offset = map.elems@[i].start as int;
        assert(range_map::holds(map.elems@, i, offset));
        map.lemma_view(i, offset);
    }

    /// Performing the operation on one entry more.
    proof fn lemma_next_entry(
        self,
        map: RangeMap<Stack>,
        before: RangeMap<Stack>,
        after: RangeMap<Stack>,
        first: int,
        i: int,
    )
        requires
            self.applied_up_to(map, before, first, i),
            0 <= first <= i < map.elems@.len(),
            after.size == before.size,
            after.elems@.len() == before.elems@.len(),
            forall|k: int|
                0 <= k < after.elems@.len() && k != i ==> #[trigger] after.elems@[k]
                    == before.elems@[k],
            after.elems@[i].start == before.elems@[i].start,
            after.elems@[i].end == before.elems@[i].end,
            after.elems@[i].data@ == self.outcome(map.elems@[i].start).stack,
        ensures
            self.applied_up_to(map, after, first, i + 1),
    {
        reveal(Sweep::applied_up_to);
        assert forall|k: int| 0 <= k < map.elems@.len() implies (
        #[trigger] after.elems@[k]).start == map.elems@[k].start && after.elems@[k].end
            == map.elems@[k].end by {
            let e = before.elems@[k];
        }
        assert forall|k: int| 0 <= k < map.elems@.len() implies (
        #[trigger] after.elems@[k]).data@ == if first <= k < i + 1 {
            self.outcome(map.elems@[k].start).stack
        } else {
            map.elems@[k].data@
        } by {
            let e = before.elems@[k];
        }
    }
}

/// The boundaries of the entries that cover the range divide it.
proof fn lemma_cuts(sweep: Sweep, mid: RangeMap<Stack>, first: int, last: int)
    requires
        mid.wf(),
        mid@ == sweep.before,
        sweep.range.size > 0,
        sweep.range.end() <= mid.size,
        0 <= first < mid.elems@.len(),
        mid.elems@[first].start == sweep.range.start,
        0 <= last <= mid.elems@.len(),
        last < mid.elems@.len() ==> mid.elems@[last].start == sweep.range.end(),
        last == mid.elems@.len() ==> mid.size == sweep.range.end(),
    ensures
        first < last,
        sweep.cut_at(mid, first, last),
{
    reveal(Sweep::cut_at);
    let cuts = cuts_of(mid, first, last);
    assert(first < last) by {
        if last <= first {
            let a = mid.elems@[first];
            let b = mid.elems@[last];
        }
    }
    assert forall|k: int| first <= k < last implies cuts[k - first + 1] == (
    #[trigger] mid.elems@[k]).end by {
        if k + 1 < mid.elems@.len() {
            assert(range_map::chained(mid.elems@, k + 1));
        }
    }
    assert forall|k: int| first <= k < last implies cuts[k - first] == (
    #[trigger] mid.elems@[k]).start by {}
    assert forall|j: int, k: int|
        #![trigger cuts[j], cuts[k]]
        0 <= j < k < cuts.len() implies cuts[j] < cuts[k] by {
        let a = mid.elems@[first + j];
        if first + k < mid.elems@.len() {
            let b = mid.elems@[first + k];
        } else {
            let b = mid.elems@[mid.elems@.len() - 1];
        }
    }
    assert forall|k: int, i: int|
        #![trigger cuts[k], sweep.before[i]]
        0 <= k < cuts.len() - 1 && cuts[k] <= i < cuts[k + 1] implies sweep.before[i]
        == sweep.before[cuts[k] as int] by {
        let e = mid.elems@[first + k];
        assert(cuts[(first + k) - first + 1] == e.end);
        assert(range_map::holds(mid.elems@, first + k, i));
        assert(range_map::holds(mid.elems@, first + k, cuts[k] as int));
        mid.lemma_view(first + k, i);
        mid.lemma_view(first + k, cuts[k] as int);
    }
}

/// Once the operation was performed on the entries from `first` up to `i`, it was performed on the
/// runs that they cover.
proof fn lemma_performed(
    sweep: Sweep,
    mid: RangeMap<Stack>,
    after: RangeMap<Stack>,
    first: int,
    i: int,
    last: int,
    result: Result<(), BorrowError>,
)
    requires
        mid.wf(),
        sweep.cut_at(mid, first, last),
        first < i <= last,
        sweep.applied_up_to(mid, after, first, i),
        forall|k: int|
            0 <= k < i - first - 1 ==> sweep.outcome(
                #[trigger] cuts_of(mid, first, last)[k],
            ).result is Ok,
        sweep.outcome(cuts_of(mid, first, last)[i - first - 1]).result == result,
        result is Ok ==> i == last,
    ensures
        after.wf(),
        sweep.performed(cuts_of(mid, first, last), i - first, after@, result),
{
    reveal(Sweep::cut_at);
    reveal(Sweep::applied_up_to);
    let cuts = cuts_of(mid, first, last);
    after.lemma_same_bounds(mid);
    let done = i - first;
    assert forall|j: int| 0 <= j < after@.len() implies #[trigger] after@[j] == if sweep.range.start
        <= j < cuts[done] {
        sweep.outcome(j as Size).stack
    } else {
        sweep.before[j]
    } by {
        mid.lemma_covered(j);
        let k = range_map::locate(mid.elems@, j);
        mid.lemma_view(k, j);
        let e = after.elems@[k];
        assert(range_map::holds(after.elems@, k, j));
        after.lemma_view(k, j);
        let before_first = mid.elems@[first];
        let last_done = mid.elems@[i - 1];
        assert(cuts[(i - 1) - first + 1] == last_done.end);
        if first <= k < i {
            let offset = mid.elems@[k].start;
            assert(range_map::holds(mid.elems@, k, offset as int));
            mid.lemma_view(k, offset as int);
            stack::lemma_offset_irrelevant(
                sweep.before[j],
                sweep.op,
                sweep.site(offset),
                sweep.site(j as Size),
                sweep.global,
            );
        }
    }
}

} // verus!
