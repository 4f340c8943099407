//! The borrow stack of a single location, and the operations on it: access, dealloc, reborrow.
//!
//! The rules make at least the following things true:
//!
//! U1: After creating a `Uniq`, it is at the top.
//! U2: If the top is `Uniq`, accesses must be through that `Uniq` or remove it.
//! U3: If an access happens with a `Uniq`, it requires the `Uniq` to be in the stack.
//!
//! F1: After creating a `&`, the parts outside `UnsafeCell` have our `SharedReadOnly` on top.
//! F2: If a write access happens, it pops the `SharedReadOnly`. This has two pieces:
//!     F2a: If a write happens granted by an item below our `SharedReadOnly`, the
//!          `SharedReadOnly` gets popped.
//!     F2b: No `SharedReadWrite` or `Unique` will ever be added on top of our `SharedReadOnly`.
//! F3: If an access happens with an `&` outside `UnsafeCell`,
//!     it requires the `SharedReadOnly` to still be in the stack.
use vstd::prelude::*;
use vstd::string::StringExecFns;

use crate::range_map::Replicate;
use crate::stacked_borrows::diagnostics::{
    AccessSite, AllocHistory, BorrowError, DiagnosticView, Diagnostics, HistoryEvent, HistoryQuery,
    NonHaltingDiagnostic, StackUpdateType,
};
use crate::stacked_borrows::global::GlobalStateInner;
use crate::stacked_borrows::item::{AccessKind, Item, Permission, SbTag};
use crate::text;

verus! {

broadcast use vstd::std_specs::hash::group_hash_axioms;

/// Extra per-location state.
#[derive(Debug, PartialEq, Eq)]
pub struct Stack {
    /// Used *mostly* as a stack; never empty while the memory is allocated.
    /// Invariants:
    /// * Except for `Untagged`, no tag occurs in the stack more than once; see
    ///   `law_tags_stay_unique`.
    /// * Above a `SharedReadOnly` there are only more `SharedReadOnly`, until a read makes an item
    ///   read-only below one that is anything else; `law_read_keeps_read_only_on_top` says exactly
    ///   when that happens.
    pub borrows: Vec<Item>,
}

/// An operation on the stack of every location in some range.
#[derive(Copy, Clone, Debug, PartialEq, Eq, Structural)]
pub enum StackOp {
    /// The memory is read or written with the given tag.
    Access { access: AccessKind, tag: SbTag },
    /// The memory is freed with the given tag.
    Dealloc { tag: SbTag },
    /// The new item is derived from the given tag.
    Grant { derived_from: SbTag, new: Item },
}

/// What an operation does to a stack, what it reports, and how it ends.
pub struct Outcome {
    pub stack: Seq<Item>,
    pub notices: Seq<DiagnosticView>,
    pub history: Seq<HistoryEvent>,
    pub result: Result<(), BorrowError>,
}

impl View for Stack {
    type V = Seq<Item>;

    open spec fn view(&self) -> Seq<Item> {
        self.borrows@
    }
}

impl Clone for Stack {
    fn clone(&self) -> (copy: Self)
        ensures
            copy@ == self@,
    {
        Stack { borrows: self.borrows.clone() }
    }
}

impl Replicate for Stack {
    fn replicate(&self) -> (copy: Self) {
        self.clone()
    }
}

/// The highest index below `n` at which `p` holds.
pub open spec fn last_where(p: spec_fn(int) -> bool, n: int) -> Option<int>
    decreases n,
{
    if n <= 0 {
        None
    } else if p(n - 1) {
        Some(n - 1)
    } else {
        last_where(p, n - 1)
    }
}

/// An index found is in range, and nothing above it has the property; if none is found, nothing
/// has it.
pub proof fn lemma_last_where(p: spec_fn(int) -> bool, n: int)
    ensures
        match last_where(p, n) {
            Some(i) => 0 <= i < n && p(i) && forall|j: int| i < j < n ==> !#[trigger] p(j),
            None => forall|j: int| 0 <= j < n ==> !#[trigger] p(j),
        },
    decreases n,
{
    if n > 0 && !p(n - 1) {
        lemma_last_where(p, n - 1);
    }
}

/// Where in the stack the item is that grants the access to the tag: the highest one that does.
pub open spec fn granting(s: Seq<Item>, access: AccessKind, tag: SbTag) -> Option<int> {
    last_where(|i: int| s[i].tag == tag && s[i].perm.permits(access), s.len() as int)
}

/// The granting item is in the stack, has the tag and permits the access, and no item above it
/// has both; without a granting item, none has.
pub proof fn lemma_granting(s: Seq<Item>, access: AccessKind, tag: SbTag)
    ensures
        match granting(s, access, tag) {
            Some(g) => {
                &&& 0 <= g < s.len()
                &&& s[g].tag == tag
                &&& s[g].perm.permits(access)
                &&& forall|j: int|
                    g < j < s.len() ==> !((#[trigger] s[j]).tag == tag && s[j].perm.permits(access))
            },
            None => forall|j: int|
                0 <= j < s.len() ==> !((#[trigger] s[j]).tag == tag && s[j].perm.permits(access)),
        },
{
    let p = |i: int| s[i].tag == tag && s[i].perm.permits(access);
    lemma_last_where(p, s.len() as int);
    assert forall|j: int|
        #![trigger s[j]]
        p(j) == (s[j].tag == tag && s[j].perm.permits(access)) by {}
}

/// The first index from `i` on without an item for shared mutable access.
pub open spec fn shared_run_end(s: Seq<Item>, i: int) -> int
    decreases s.len() - i,
{
    if 0 <= i < s.len() && s[i].perm.is_shared_write() {
        shared_run_end(s, i + 1)
    } else {
        i
    }
}

/// The first item above `g` that a write through the item at `g` is incompatible with. Everything
/// is incompatible with a write through a `Unique`; otherwise the items for shared mutable access
/// *just* above are not.
pub open spec fn first_write_incompatible(s: Seq<Item>, g: int) -> int {
    if s[g].perm == Permission::Unique {
        g + 1
    } else {
        shared_run_end(s, g + 1)
    }
}

/// A run ends in the stack or right behind it, and holds only items for shared mutable access.
pub proof fn lemma_shared_run_end(s: Seq<Item>, i: int)
    requires
        0 <= i <= s.len(),
    ensures
        i <= shared_run_end(s, i) <= s.len(),
        forall|j: int| i <= j < shared_run_end(s, i) ==> (#[trigger] s[j]).perm.is_shared_write(),
        shared_run_end(s, i) < s.len() ==> !s[shared_run_end(s, i)].perm.is_shared_write(),
    decreases s.len() - i,
{
    if i < s.len() && s[i].perm.is_shared_write() {
        lemma_shared_run_end(s, i + 1);
    }
}

/// The item with another permission.
pub open spec fn with_perm(item: Item, perm: Permission) -> Item {
    Item { perm, tag: item.tag, protector: item.protector }
}

/// The stack once a write has ended the first phase of a two-phase borrow at `g`.
pub open spec fn activated(s: Seq<Item>, g: int) -> Seq<Item> {
    if s[g].perm == Permission::TwoPhasedRW {
        s.update(g, with_perm(s[g], Permission::SharedReadWrite))
    } else {
        s
    }
}

/// The report that the item loses its permission, if its tag is traced.
pub open spec fn popped_notice(
    item: Item,
    by: Option<(SbTag, AccessKind)>,
    global: GlobalStateInner,
) -> Seq<DiagnosticView> {
    if global.traces_tag(item.tag) {
        seq![DiagnosticView::PoppedPointerTag(item, by)]
    } else {
        Seq::empty()
    }
}

/// The report of a changed stack, if the allocation is traced.
pub open spec fn update_notice(
    s: Seq<Item>,
    update: StackUpdateType,
    traced: bool,
) -> Seq<DiagnosticView> {
    if traced {
        seq![DiagnosticView::StackUpdate(s, update)]
    } else {
        Seq::empty()
    }
}

/// The report that a stack was accessed, if the allocation is traced.
pub open spec fn access_notice(s: Seq<Item>, tag: SbTag, traced: bool) -> Seq<DiagnosticView> {
    if traced {
        seq![DiagnosticView::StackAccess(s, tag)]
    } else {
        Seq::empty()
    }
}

/// The violation of taking the permission of a protected item away, by an access or by freeing
/// the memory.
pub open spec fn protected_error(
    item: Item,
    by: Option<(SbTag, AccessKind)>,
    site: AccessSite,
) -> BorrowError {
    match by {
        Some((tag, access)) => BorrowError::Protected {
            tag,
            item,
            history: HistoryQuery {
                tag,
                range: site.range,
                offset: site.offset,
                protector_tag: Some(item.tag),
            },
        },
        None => BorrowError::ProtectedDealloc { item },
    }
}

/// The reports for popping the items of `s` from the top down to height `bottom`.
pub open spec fn pop_notices(
    s: Seq<Item>,
    bottom: int,
    by: Option<(SbTag, AccessKind)>,
    traced: bool,
    global: GlobalStateInner,
) -> Seq<DiagnosticView>
    decreases s.len() - bottom,
{
    if bottom < 0 || bottom >= s.len() {
        Seq::empty()
    } else {
        pop_notices(s, bottom + 1, by, traced, global) + popped_notice(s[bottom], by, global)
            + update_notice(s.take(bottom), StackUpdateType::Remove(s[bottom].tag), traced)
    }
}

/// The record of popping the items of `s` from the top down to height `bottom`: one
/// invalidation for each, the topmost first.
pub open spec fn pop_history(s: Seq<Item>, bottom: int, site: AccessSite) -> Seq<HistoryEvent> {
    Seq::new(
        (s.len() - bottom) as nat,
        |k: int|
            HistoryEvent::Invalidation { tag: s[s.len() - 1 - k].tag, range: site.range },
    )
}

/// The highest protected item at height `bottom` or above.
pub open spec fn pop_blocker(s: Seq<Item>, bottom: int, global: GlobalStateInner) -> Option<int> {
    last_where(|i: int| bottom <= i && global.protects(s[i]), s.len() as int)
}

/// Popping everything above height `bottom`. A protected item is taken off too, but ends the
/// operation. `by` is the access that needs this, or `None` if the memory is freed.
pub open spec fn pop_outcome(
    s: Seq<Item>,
    bottom: int,
    by: Option<(SbTag, AccessKind)>,
    site: AccessSite,
    global: GlobalStateInner,
) -> Outcome {
    let traced = global.traces_alloc(site.alloc_id);
    match pop_blocker(s, bottom, global) {
        None => Outcome {
            stack: s.take(bottom),
            notices: pop_notices(s, bottom, by, traced, global),
            history: if by is Some {
                pop_history(s, bottom, site)
            } else {
                Seq::empty()
            },
            result: Ok(()),
        },
        Some(p) => Outcome {
            stack: s.take(p),
            notices: pop_notices(s, p + 1, by, traced, global) + popped_notice(s[p], by, global),
            history: if by is Some {
                pop_history(s, p + 1, site)
            } else {
                Seq::empty()
            },
            result: Err(protected_error(s[p], by, site)),
        },
    }
}

/// A write through the item at `g`: it ends the first phase of a two-phase borrow, and everything
/// above the write-compatible items goes.
pub open spec fn write_outcome(
    s: Seq<Item>,
    g: int,
    tag: SbTag,
    site: AccessSite,
    global: GlobalStateInner,
) -> Outcome {
    let traced = global.traces_alloc(site.alloc_id);
    let s1 = activated(s, g);
    let first = if s[g].perm == Permission::TwoPhasedRW {
        update_notice(s1, StackUpdateType::Changed(s[g].tag), traced)
    } else {
        Seq::empty()
    };
    let popped = pop_outcome(
        s1,
        first_write_incompatible(s1, g),
        Some((tag, AccessKind::Write)),
        site,
        global,
    );
    Outcome {
        stack: popped.stack,
        notices: first + popped.notices + (if popped.result is Ok {
            access_notice(popped.stack, tag, traced)
        } else {
            Seq::empty()
        }),
        history: popped.history,
        result: popped.result,
    }
}

/// Whether a read through the item at `g` takes something from the item at `i`: a `Unique` above
/// it never survives, and if the granting pointer may rely on nobody else writing, nor does the
/// right to write of a `SharedReadWrite`.
pub open spec fn demotable(s: Seq<Item>, g: int, i: int) -> bool {
    g < i && (s[i].perm == Permission::Unique || (s[i].perm == Permission::SharedReadWrite && (
    s[g].perm == Permission::Unique || s[g].perm == Permission::SharedReadOnly)))
}

/// What is left of an item from which a read takes something.
pub open spec fn demoted(item: Item) -> Item {
    if item.perm == Permission::Unique {
        with_perm(item, Permission::Disabled)
    } else {
        with_perm(item, Permission::SharedReadOnly)
    }
}

/// The stack when a read through the item at `g` has dealt with everything from height `h` up.
pub open spec fn demoted_from(s: Seq<Item>, g: int, h: int) -> Seq<Item> {
    Seq::new(
        s.len(),
        |i: int|
            if h <= i && demotable(s, g, i) {
                demoted(s[i])
            } else {
                s[i]
            },
    )
}

/// The reports for what a read through the item at `g` does from the top down to height `bottom`.
pub open spec fn read_notices(
    s: Seq<Item>,
    g: int,
    bottom: int,
    by: (SbTag, AccessKind),
    traced: bool,
    global: GlobalStateInner,
) -> Seq<DiagnosticView>
    decreases s.len() - bottom,
{
    if bottom < 0 || bottom >= s.len() {
        Seq::empty()
    } else {
        read_notices(s, g, bottom + 1, by, traced, global) + (if demotable(s, g, bottom) {
            popped_notice(s[bottom], Some(by), global) + update_notice(
                demoted_from(s, g, bottom),
                StackUpdateType::Changed(s[bottom].tag),
                traced,
            )
        } else {
            Seq::empty()
        })
    }
}

/// The record of what a read through the item at `g` does from the top down to height `bottom`:
/// one invalidation for each `Unique`, the topmost first.
pub open spec fn read_history(s: Seq<Item>, g: int, bottom: int, site: AccessSite) -> Seq<
    HistoryEvent,
>
    decreases s.len() - bottom,
{
    if bottom < 0 || bottom >= s.len() {
        Seq::empty()
    } else if demotable(s, g, bottom) && s[bottom].perm == Permission::Unique {
        read_history(s, g, bottom + 1, site).push(
            HistoryEvent::Invalidation { tag: s[bottom].tag, range: site.range },
        )
    } else {
        read_history(s, g, bottom + 1, site)
    }
}

/// The highest protected item from which a read through the item at `g` would take something.
pub open spec fn read_blocker(s: Seq<Item>, g: int, global: GlobalStateInner) -> Option<int> {
    last_where(|i: int| demotable(s, g, i) && global.protects(s[i]), s.len() as int)
}

/// A read through the item at `g`: no item goes, but some lose their permission or the right to
/// write.
pub open spec fn read_outcome(
    s: Seq<Item>,
    g: int,
    tag: SbTag,
    site: AccessSite,
    global: GlobalStateInner,
) -> Outcome {
    let traced = global.traces_alloc(site.alloc_id);
    let by = (tag, AccessKind::Read);
    match read_blocker(s, g, global) {
        None => Outcome {
            stack: demoted_from(s, g, g + 1),
            notices: read_notices(s, g, g + 1, by, traced, global) + access_notice(
                demoted_from(s, g, g + 1),
                tag,
                traced,
            ),
            history: read_history(s, g, g + 1, site),
            result: Ok(()),
        },
        Some(p) => Outcome {
            stack: demoted_from(s, g, p + 1),
            notices: read_notices(s, g, p + 1, by, traced, global) + popped_notice(
                s[p],
                Some(by),
                global,
            ),
            history: read_history(s, g, p + 1, site),
            result: Err(protected_error(s[p], Some(by), site)),
        },
    }
}

/// An access with the given tag. It needs an item that grants it, and then makes the items above
/// that are incompatible with it unusable.
pub open spec fn access_outcome(
    s: Seq<Item>,
    access: AccessKind,
    tag: SbTag,
    site: AccessSite,
    global: GlobalStateInner,
) -> Outcome {
    match granting(s, access, tag) {
        None => Outcome {
            stack: s,
            notices: Seq::empty(),
            history: Seq::empty(),
            result: Err(BorrowError::Access { access, tag, site }),
        },
        Some(g) => if access == AccessKind::Write {
            write_outcome(s, g, tag, site, global)
        } else {
            read_outcome(s, g, tag, site, global)
        },
    }
}

/// Freeing the location with the given tag. It needs an item that grants writing, and then pops
/// everything.
pub open spec fn dealloc_outcome(
    s: Seq<Item>,
    tag: SbTag,
    site: AccessSite,
    global: GlobalStateInner,
) -> Outcome {
    match granting(s, AccessKind::Write, tag) {
        None => Outcome {
            stack: s,
            notices: Seq::empty(),
            history: Seq::empty(),
            result: Err(
                BorrowError::Dealloc {
                    tag,
                    alloc_id: site.alloc_id,
                    history: HistoryQuery {
                        tag,
                        range: site.range,
                        offset: site.offset,
                        protector_tag: None,
                    },
                },
            ),
        },
        Some(g) => pop_outcome(s, 0, None, site, global),
    }
}

/// The access that deriving an item with this permission amounts to.
pub open spec fn access_for(perm: Permission) -> AccessKind {
    if perm.permits(AccessKind::Write) {
        AccessKind::Write
    } else {
        AccessKind::Read
    }
}

/// The stack with the item at the given height, unless an equal item is next to that place.
pub open spec fn placed(s: Seq<Item>, at: int, new: Item) -> Seq<Item> {
    if s[at - 1] == new || (at < s.len() && s[at] == new) {
        s
    } else {
        s.insert(at, new)
    }
}

/// Deriving a new item from the given tag. An item for shared mutable access is put right above
/// what is compatible with the item it is derived from. For any other item the derivation counts
/// as an access, and the item goes to the top.
pub open spec fn grant_outcome(
    s: Seq<Item>,
    derived_from: SbTag,
    new: Item,
    site: AccessSite,
    global: GlobalStateInner,
) -> Outcome {
    let traced = global.traces_alloc(site.alloc_id);
    let access = access_for(new.perm);
    match granting(s, access, derived_from) {
        None => Outcome {
            stack: s,
            notices: Seq::empty(),
            history: Seq::empty(),
            result: Err(BorrowError::Grant { derived_from, new, site }),
        },
        Some(g) => if new.perm.is_shared_write() {
            let stack = placed(s, first_write_incompatible(s, g), new);
            Outcome {
                stack,
                notices: update_notice(stack, StackUpdateType::Added(new.tag), traced),
                history: Seq::empty(),
                result: Ok(()),
            }
        } else {
            let accessed = access_outcome(s, access, derived_from, site, global);
            if accessed.result is Err {
                accessed
            } else {
                let stack = placed(accessed.stack, accessed.stack.len() as int, new);
                Outcome {
                    stack,
                    notices: accessed.notices + update_notice(
                        stack,
                        StackUpdateType::Added(new.tag),
                        traced,
                    ),
                    history: accessed.history,
                    result: Ok(()),
                }
            }
        },
    }
}

/// Any of the operations.
pub open spec fn op_outcome(
    s: Seq<Item>,
    op: StackOp,
    site: AccessSite,
    global: GlobalStateInner,
) -> Outcome {
    match op {
        StackOp::Access { access, tag } => access_outcome(s, access, tag, site, global),
        StackOp::Dealloc { tag } => dealloc_outcome(s, tag, site, global),
        StackOp::Grant { derived_from, new } => grant_outcome(s, derived_from, new, site, global),
    }
}

/// Which location of an operation is looked at does not matter for what happens to its stack,
/// nor for whether the operation succeeds.
#[verifier::rlimit(40)]
pub proof fn lemma_offset_irrelevant(
    s: Seq<Item>,
    op: StackOp,
    site: AccessSite,
    other: AccessSite,
    global: GlobalStateInner,
)
    requires
        site.alloc_id == other.alloc_id,
        site.range == other.range,
    ensures
        op_outcome(s, op, site, global).stack == op_outcome(s, op, other, global).stack,
        op_outcome(s, op, site, global).result is Ok == op_outcome(
            s,
            op,
            other,
            global,
        ).result is Ok,
{
}

/// An item in a printed stack.
pub open spec fn item_chars(item: Item) -> Seq<char> {
    item.perm.abbreviation() + item.tag.chars() + (match item.protector {
        Some(call) => "[proc("@ + text::decimal(call) + ")]"@,
        None => Seq::<char>::empty(),
    })
}

/// The first `n` items of a printed stack, each but the topmost of all followed by a comma.
pub open spec fn listing(s: Seq<Item>, n: int) -> Seq<char>
    decreases n,
{
    if n <= 0 {
        Seq::empty()
    } else {
        listing(s, n - 1) + item_chars(s[n - 1]) + (if n < s.len() {
            ", "@
        } else {
            Seq::<char>::empty()
        })
    }
}

/// A printed stack.
pub open spec fn stack_chars(s: Seq<Item>) -> Seq<char> {
    "["@ + listing(s, s.len() as int) + "]"@
}

impl Stack {
    /// Find the item granting the given kind of access to the given tag, and return where
    /// it is on the stack.
    pub fn find_granting(&self, access: AccessKind, tag: SbTag) -> (found: Option<usize>)
        ensures
            match found {
                Some(i) => granting(self@, access, tag) == Some(i as int),
                None => granting(self@, access, tag) is None,
            },
    {
        let ghost p = |i: int| self@[i].tag == tag && self@[i].perm.permits(access);
        let mut i: usize = self.borrows.len();
        // search top-to-bottom
        while i > 0
            invariant
                i <= self@.len(),
                p == (|i: int| self@[i].tag == tag && self@[i].perm.permits(access)),
                last_where(p, self@.len() as int) == last_where(p, i as int),
            decreases i,
        {
            let item = self.borrows[i - 1];
            assert(p(i - 1) == (item.tag == tag && item.perm.permits(access)));
            // We require a permission with the right tag, ensuring U3 and F3.
            if tag == item.tag && item.perm.grants(access) {
                return Some(i - 1);
            }
            i -= 1;
        }
        None
    }

    /// Find the first write-incompatible item above the given one --
    /// i.e, find the height to which the stack will be truncated when writing to `granting`.
    pub fn find_first_write_incompatible(&self, granting: usize) -> (height: usize)
        requires
            granting < self@.len(),
            self@[granting as int].perm.permits(AccessKind::Write),
        ensures
            height == first_write_incompatible(self@, granting as int),
            granting < height <= self@.len(),
    {
        proof {
            lemma_shared_run_end(self@, granting + 1);
        }
        let len = self.borrows.len();
        if self.borrows[granting].perm == Permission::Unique {
            // On a write, everything above us is incompatible.
            return granting + 1;
        }
        // The SharedReadWrite *just* above us are compatible, to skip those.

        let mut idx: usize = granting + 1;
        while idx < len && self.borrows[idx].perm.shares_writes()
            invariant
                len == self@.len(),
                granting < idx <= self@.len(),
                shared_run_end(self@, granting + 1) == shared_run_end(self@, idx as int),
            decreases self@.len() - idx,
        {
            idx += 1;
        }
        idx
    }

    /// Check if the given item is protected.
    ///
    /// `provoking_access` is `Some` when we are granting the contained access for said tag, and
    /// it is `None` during a deallocation.
    pub fn check_protector(
        item: &Item,
        provoking_access: Option<(SbTag, AccessKind)>,
        site: AccessSite,
        global: &GlobalStateInner,
        diagnostics: &mut Diagnostics,
    ) -> (result: Result<(), BorrowError>)
        ensures
            final(diagnostics)@ == old(diagnostics)@ + popped_notice(
                *item,
                provoking_access,
                *global,
            ),
            result == (if global.protects(*item) {
                Err(protected_error(*item, provoking_access, site))
            } else {
                Ok(())
            }),
    {
        if let SbTag::Tagged(id) = item.tag {
            if global.tracked_pointer_tags.contains(&id) {
                diagnostics.register_diagnostic(
                    NonHaltingDiagnostic::PoppedPointerTag(*item, provoking_access),
                );
            }
        }
        assert(diagnostics@ =~= old(diagnostics)@ + popped_notice(
            *item,
            provoking_access,
            *global,
        ));
        if let Some(call) = item.protector {
            if global.is_active(call) {
                return match provoking_access {
                    Some((tag, _)) => Err(
                        BorrowError::Protected {
                            tag,
                            item: *item,
                            history: HistoryQuery {
                                tag,
                                range: site.range,
                                offset: site.offset,
                                protector_tag: Some(item.tag),
                            },
                        },
                    ),
                    None => Err(BorrowError::ProtectedDealloc { item: *item }),
                };
            }
        }
        Ok(())
    }

    /// Reports the stack of a traced allocation after a change.
    fn report_update(
        &self,
        update: StackUpdateType,
        traced: bool,
        diagnostics: &mut Diagnostics,
    )
        ensures
            final(diagnostics)@ == old(diagnostics)@ + update_notice(self@, update, traced),
    {
        if traced {
            diagnostics.register_diagnostic(
                NonHaltingDiagnostic::StackUpdate(self.clone(), update),
            );
        }
        assert(diagnostics@ =~= old(diagnostics)@ + update_notice(self@, update, traced));
    }

    /// Pops everything above the given height, and checks each item for a protector.
    fn pop_to(
        &mut self,
        bottom: usize,
        provoking_access: Option<(SbTag, AccessKind)>,
        site: AccessSite,
        global: &GlobalStateInner,
        diagnostics: &mut Diagnostics,
        alloc_history: &mut AllocHistory,
    ) -> (result: Result<(), BorrowError>)
        requires
            bottom <= old(self)@.len(),
        ensures
            ({
                let outcome = pop_outcome(
                    old(self)@,
                    bottom as int,
                    provoking_access,
                    site,
                    *global,
                );
                &&& final(self)@ == outcome.stack
                &&& final(diagnostics)@ == old(diagnostics)@ + outcome.notices
                &&& final(alloc_history)@ == old(alloc_history)@ + outcome.history
                &&& result == outcome.result
            }),
            final(alloc_history).local_crates == old(alloc_history).local_crates,
    {
        let traced = global.tracked_alloced_location_ids.contains(&site.alloc_id);
        let ghost s = self@;
        let ghost p = |i: int| bottom <= i && global.protects(s[i]);
        proof {
            lemma_last_where(p, s.len() as int);
            assert(s.take(s.len() as int) =~= s);
            assert(pop_history(s, s.len() as int, site) =~= Seq::<HistoryEvent>::empty());
        }
        while self.borrows.len() > bottom
            invariant
                bottom <= self@.len() <= s.len(),
                self@ == s.take(self@.len() as int),
                traced == global.traces_alloc(site.alloc_id),
                p == (|i: int| bottom <= i && global.protects(s[i])),
                forall|j: int| self@.len() <= j < s.len() ==> !#[trigger] p(j),
                diagnostics@ == old(diagnostics)@ + pop_notices(
                    s,
                    self@.len() as int,
                    provoking_access,
                    traced,
                    *global,
                ),
                alloc_history@ == old(alloc_history)@ + (if provoking_access is Some {
                    pop_history(s, self@.len() as int, site)
                } else {
                    Seq::empty()
                }),
                alloc_history.local_crates == old(alloc_history).local_crates,
                s == old(self)@,
            decreases self@.len(),
        {
            let ghost top = self@.len() as int;
            let item = self.borrows[self.borrows.len() - 1];
            self.borrows.pop();
            assert(item == s[top - 1]);
            assert(self@ =~= s.take(top - 1));
            let checked = Stack::check_protector(
                &item,
                provoking_access,
                site,
                global,
                diagnostics,
            );
            if checked.is_err() {
                proof {
                    assert(p(top - 1));
                    lemma_last_where(p, s.len() as int);
                    assert(pop_blocker(s, bottom as int, *global) == Some(top - 1));
                    assert(diagnostics@ =~= old(diagnostics)@ + pop_outcome(
                        s,
                        bottom as int,
                        provoking_access,
                        site,
                        *global,
                    ).notices);
                }
                return checked;
            }
            assert(!p(top - 1));
            if provoking_access.is_some() {
                alloc_history.log_invalidation(item.tag, site.range);
            }
            self.report_update(StackUpdateType::Remove(item.tag), traced, diagnostics);
            proof {
                assert(pop_history(s, top - 1, site) =~= pop_history(s, top, site).push(
                    HistoryEvent::Invalidation { tag: item.tag, range: site.range },
                ));
                assert(alloc_history@ =~= old(alloc_history)@ + (if provoking_access is Some {
                    pop_history(s, top - 1, site)
                } else {
                    Seq::empty()
                }));
                assert(diagnostics@ =~= old(diagnostics)@ + pop_notices(
                    s,
                    top - 1,
                    provoking_access,
                    traced,
                    *global,
                ));
            }
        }
        proof {
            lemma_last_where(p, s.len() as int);
            assert(pop_blocker(s, bottom as int, *global) is None);
        }
        Ok(())
    }

    /// Test if a memory `access` using pointer tagged `tag` is granted, and make what is
    /// incompatible with it unusable.
    /// `site.range` refers to the entire operation, and `site.offset` refers to the specific
    /// offset into the allocation that we are currently checking.
    pub fn access(
        &mut self,
        access: AccessKind,
        tag: SbTag,
        site: AccessSite,
        global: &GlobalStateInner,
        diagnostics: &mut Diagnostics,
        alloc_history: &mut AllocHistory,
    ) -> (result: Result<(), BorrowError>)
        ensures
            ({
                let outcome = access_outcome(old(self)@, access, tag, site, *global);
                &&& final(self)@ == outcome.stack
                &&& final(diagnostics)@ == old(diagnostics)@ + outcome.notices
                &&& final(alloc_history)@ == old(alloc_history)@ + outcome.history
                &&& result == outcome.result
            }),
            final(alloc_history).local_crates == old(alloc_history).local_crates,
    {
        let traced = global.tracked_alloced_location_ids.contains(&site.alloc_id);
        // Two main steps: Find granting item, remove incompatible items above.

        // Step 1: Find granting item.
        let granting_idx = match self.find_granting(access, tag) {
            Some(idx) => idx,
            None => {
                assert(diagnostics@ =~= old(diagnostics)@ + Seq::<DiagnosticView>::empty());
                assert(alloc_history@ =~= old(alloc_history)@ + Seq::<HistoryEvent>::empty());
                return Err(BorrowError::Access { access, tag, site });
            },
        };
        proof {
            lemma_granting(self@, access, tag);
        }
        // Step 2: Remove incompatible items above them. Make sure we do not remove protected
        // items. Behavior differs for reads and writes.
        let done = if access == AccessKind::Write {
            self.write(granting_idx, tag, site, global, diagnostics, alloc_history)
        } else {
            self.read(granting_idx, tag, site, global, diagnostics, alloc_history)
        };
        if done.is_err() {
            return done;
        }
        let ghost reported = diagnostics@;
        if traced {
            diagnostics.register_diagnostic(NonHaltingDiagnostic::StackAccess(self.clone(), tag));
        }
        assert(diagnostics@ =~= reported + access_notice(self@, tag, traced));
        assert(diagnostics@ =~= old(diagnostics)@ + access_outcome(
            old(self)@,
            access,
            tag,
            site,
            *global,
        ).notices);
        Ok(())
    }

    /// A write through the item at `granting_idx`.
    fn write(
        &mut self,
        granting_idx: usize,
        tag: SbTag,
        site: AccessSite,
        global: &GlobalStateInner,
        diagnostics: &mut Diagnostics,
        alloc_history: &mut AllocHistory,
    ) -> (result: Result<(), BorrowError>)
        requires
            granting_idx < old(self)@.len(),
            old(self)@[granting_idx as int].perm.permits(AccessKind::Write),
        ensures
            ({
                let outcome = write_outcome(old(self)@, granting_idx as int, tag, site, *global);
                &&& final(self)@ == outcome.stack
                &&& result == outcome.result
                &&& final(diagnostics)@ + (if result is Ok {
                    access_notice(final(self)@, tag, global.traces_alloc(site.alloc_id))
                } else {
                    Seq::empty()
                }) == old(diagnostics)@ + outcome.notices
                &&& final(alloc_history)@ == old(alloc_history)@ + outcome.history
            }),
            final(alloc_history).local_crates == old(alloc_history).local_crates,
    {
        let traced = global.tracked_alloced_location_ids.contains(&site.alloc_id);
        if self.borrows[granting_idx].perm == Permission::TwoPhasedRW {
            let item = self.borrows[granting_idx];
            self.borrows[granting_idx] = Item { perm: Permission::SharedReadWrite, ..item };
            self.report_update(StackUpdateType::Changed(item.tag), traced, diagnostics);
        }
        assert(self@ =~= activated(old(self)@, granting_idx as int));
        let ghost first = if old(self)@[granting_idx as int].perm == Permission::TwoPhasedRW {
            update_notice(
                self@,
                StackUpdateType::Changed(old(self)@[granting_idx as int].tag),
                traced,
            )
        } else {
            Seq::empty()
        };
        assert(diagnostics@ =~= old(diagnostics)@ + first);
        // Remove everything above the write-compatible items, like a proper stack. This makes
        // sure read-only and unique pointers become invalid on write accesses (ensures F2a, and
        // ensures U2 for write accesses).
        let first_incompatible_idx = self.find_first_write_incompatible(granting_idx);
        let result = self.pop_to(
            first_incompatible_idx,
            Some((tag, AccessKind::Write)),
            site,
            global,
            diagnostics,
            alloc_history,
        );
        assert(diagnostics@ + (if result is Ok {
            access_notice(self@, tag, traced)
        } else {
            Seq::empty()
        }) =~= old(diagnostics)@ + write_outcome(
            old(self)@,
            granting_idx as int,
            tag,
            site,
            *global,
        ).notices);
        result
    }

    /// A read through the item at `granting_idx`.
    fn read(
        &mut self,
        granting_idx: usize,
        tag: SbTag,
        site: AccessSite,
        global: &GlobalStateInner,
        diagnostics: &mut Diagnostics,
        alloc_history: &mut AllocHistory,
    ) -> (result: Result<(), BorrowError>)
        requires
            granting_idx < old(self)@.len(),
        ensures
            ({
                let outcome = read_outcome(old(self)@, granting_idx as int, tag, site, *global);
                &&& final(self)@ == outcome.stack
                &&& result == outcome.result
                &&& final(diagnostics)@ + (if result is Ok {
                    access_notice(final(self)@, tag, global.traces_alloc(site.alloc_id))
                } else {
                    Seq::empty()
                }) == old(diagnostics)@ + outcome.notices
                &&& final(alloc_history)@ == old(alloc_history)@ + outcome.history
            }),
            final(alloc_history).local_crates == old(alloc_history).local_crates,
    {
        // On a read, *disable* all `Unique` above the granting item. This ensures U2 for read
        // accesses. The reason this is not following the stack discipline (by removing the first
        // Unique and everything on top of it) is that in
        // `let raw = &mut *x as *mut _; let _val = *x;`, the second statement would pop the
        // `Unique` from the reborrow of the first statement, and subsequently also pop the
        // `SharedReadWrite` for `raw`.
        // This pattern occurs a lot in the standard library: create a raw pointer, then also
        // create a shared reference and use that.
        // We *disable* instead of removing `Unique` to avoid "connecting" two neighbouring blocks
        // of SRWs.
        //
        // We also change SharedReadWrite to SharedReadOnly, because further writes by that
        // pointer would invalidate the uniqueness guarantee of Unique.
        let traced = global.tracked_alloced_location_ids.contains(&site.alloc_id);
        let by = (tag, AccessKind::Read);
        let ghost s = self@;
        let ghost g = granting_idx as int;
        let ghost p = |i: int| demotable(s, g, i) && global.protects(s[i]);
        let granting_perm = self.borrows[granting_idx].perm;
        let revoke_write = granting_perm == Permission::Unique || granting_perm
            == Permission::SharedReadOnly;
        let mut idx: usize = self.borrows.len();
        assert(self@ =~= demoted_from(s, g, idx as int));
        assert(diagnostics@ =~= old(diagnostics)@ + Seq::<DiagnosticView>::empty());
        assert(alloc_history@ =~= old(alloc_history)@ + Seq::<HistoryEvent>::empty());
        while idx > granting_idx + 1
            invariant
                granting_idx < idx <= s.len(),
                s == old(self)@,
                s.len() <= usize::MAX,
                g == granting_idx,
                self@ == demoted_from(s, g, idx as int),
                traced == global.traces_alloc(site.alloc_id),
                by == (tag, AccessKind::Read),
                revoke_write == (s[g].perm == Permission::Unique || s[g].perm
                    == Permission::SharedReadOnly),
                p == (|i: int| demotable(s, g, i) && global.protects(s[i])),
                forall|j: int| idx <= j < s.len() ==> !#[trigger] p(j),
                diagnostics@ == old(diagnostics)@ + read_notices(
                    s,
                    g,
                    idx as int,
                    by,
                    traced,
                    *global,
                ),
                alloc_history@ == old(alloc_history)@ + read_history(s, g, idx as int, site),
                alloc_history.local_crates == old(alloc_history).local_crates,
            decreases idx,
        {
            idx -= 1;
            let item = self.borrows[idx];
            assert(item == s[idx as int]);
            let disable = item.perm == Permission::Unique;
            if disable || (revoke_write && item.perm == Permission::SharedReadWrite) {
                assert(demotable(s, g, idx as int));
                let ghost reported = diagnostics@;
                let checked = Stack::check_protector(&item, Some(by), site, global, diagnostics);
                if checked.is_err() {
                    proof {
                        assert(p(idx as int));
                        lemma_last_where(p, s.len() as int);
                        assert(read_blocker(s, g, *global) == Some(idx as int));
                        assert(diagnostics@ =~= old(diagnostics)@ + read_outcome(
                            s,
                            g,
                            tag,
                            site,
                            *global,
                        ).notices);
                    }
                    return checked;
                }
                assert(!p(idx as int));
                let perm = if disable {
                    Permission::Disabled
                } else {
                    Permission::SharedReadOnly
                };
                self.borrows[idx] = Item { perm, ..item };
                if disable {
                    alloc_history.log_invalidation(item.tag, site.range);
                }
                assert(self@ =~= demoted_from(s, g, idx as int));
                self.report_update(StackUpdateType::Changed(item.tag), traced, diagnostics);
                assert(diagnostics@ =~= old(diagnostics)@ + read_notices(
                    s,
                    g,
                    idx as int,
                    by,
                    traced,
                    *global,
                ));
                assert(alloc_history@ =~= old(alloc_history)@ + read_history(
                    s,
                    g,
                    idx as int,
                    site,
                ));
            } else {
                assert(!demotable(s, g, idx as int));
                assert(self@ =~= demoted_from(s, g, idx as int));
                assert(diagnostics@ =~= old(diagnostics)@ + read_notices(
                    s,
                    g,
                    idx as int,
                    by,
                    traced,
                    *global,
                ));
            }
        }
        proof {
            lemma_last_where(p, s.len() as int);
            assert(forall|j: int| 0 <= j <= g ==> !#[trigger] p(j));
            assert(read_blocker(s, g, *global) is None);
            assert(diagnostics@ + access_notice(self@, tag, traced) =~= old(diagnostics)@
                + read_outcome(s, g, tag, site, *global).notices);
        }
        Ok(())
    }

    /// Deallocate a location: Like a write access, but also there must be no
    /// active protectors at all because we will remove all items.
    pub fn dealloc(
        &mut self,
        tag: SbTag,
        site: AccessSite,
        global: &GlobalStateInner,
        diagnostics: &mut Diagnostics,
        alloc_history: &mut AllocHistory,
    ) -> (result: Result<(), BorrowError>)
        ensures
            ({
                let outcome = dealloc_outcome(old(self)@, tag, site, *global);
                &&& final(self)@ == outcome.stack
                &&& final(diagnostics)@ == old(diagnostics)@ + outcome.notices
                &&& final(alloc_history)@ == old(alloc_history)@ + outcome.history
                &&& result == outcome.result
            }),
            final(alloc_history).local_crates == old(alloc_history).local_crates,
    {
        // Step 1: Find granting item.
        if self.find_granting(AccessKind::Write, tag).is_none() {
            assert(diagnostics@ =~= old(diagnostics)@ + Seq::<DiagnosticView>::empty());
            assert(alloc_history@ =~= old(alloc_history)@ + Seq::<HistoryEvent>::empty());
            return Err(
                BorrowError::Dealloc {
                    tag,
                    alloc_id: site.alloc_id,
                    history: HistoryQuery {
                        tag,
                        range: site.range,
                        offset: site.offset,
                        protector_tag: None,
                    },
                },
            );
        }
        // Step 2: Remove all items. Also checks for protectors.

        self.pop_to(0, None, site, global, diagnostics, alloc_history)
    }

    /// Derive a new pointer from one with the given tag.
    /// `site.range` refers to the entire operation, and `site.offset` refers to the specific
    /// location in it that we are currently checking.
    pub fn grant(
        &mut self,
        derived_from: SbTag,
        new: Item,
        site: AccessSite,
        global: &GlobalStateInner,
        diagnostics: &mut Diagnostics,
        alloc_history: &mut AllocHistory,
    ) -> (result: Result<(), BorrowError>)
        ensures
            ({
                let outcome = grant_outcome(old(self)@, derived_from, new, site, *global);
                &&& final(self)@ == outcome.stack
                &&& final(diagnostics)@ == old(diagnostics)@ + outcome.notices
                &&& final(alloc_history)@ == old(alloc_history)@ + outcome.history
                &&& result == outcome.result
            }),
            final(alloc_history).local_crates == old(alloc_history).local_crates,
    {
        let traced = global.tracked_alloced_location_ids.contains(&site.alloc_id);
        // Figure out which access `perm` corresponds to.
        let access = if new.perm.grants(AccessKind::Write) {
            AccessKind::Write
        } else {
            AccessKind::Read
        };
        // Now we figure out which item grants our parent (`derived_from`) this kind of access.
        // We use that to determine where to put the new item.
        let granting_idx = match self.find_granting(access, derived_from) {
            Some(idx) => idx,
            None => {
                assert(diagnostics@ =~= old(diagnostics)@ + Seq::<DiagnosticView>::empty());
                assert(alloc_history@ =~= old(alloc_history)@ + Seq::<HistoryEvent>::empty());
                return Err(BorrowError::Grant { derived_from, new, site });
            },
        };
        proof {
            lemma_granting(self@, access, derived_from);
        }
        // Compute where to put the new item.
        // Either way, we ensure that we insert the new item in a way such that between
        // `derived_from` and the new one, there are only items *compatible with* `derived_from`.
        let new_idx = if new.perm.shares_writes() {
            // SharedReadWrite can coexist with "existing loans", meaning they don't act like a
            // write access. Instead of popping the stack, we insert the item at the place the
            // stack would be popped to (i.e., we insert it above all the write-compatible items).
            // This ensures F2b by adding the new item below any potentially existing
            // `SharedReadOnly`.
            assert(diagnostics@ =~= old(diagnostics)@ + Seq::<DiagnosticView>::empty());
            assert(alloc_history@ =~= old(alloc_history)@ + Seq::<HistoryEvent>::empty());
            self.find_first_write_incompatible(granting_idx)
        } else {
            // A "safe" reborrow for a pointer that actually expects some aliasing guarantees.
            // Here, creating a reference actually counts as an access.
            // This ensures F2b for `Unique`, by removing offending `SharedReadOnly`.
            let accessed = self.access(
                access,
                derived_from,
                site,
                global,
                diagnostics,
                alloc_history,
            );
            if accessed.is_err() {
                return accessed;
            }
            proof {
                lemma_access_keeps_granting(old(self)@, access, derived_from, site, *global);
            }
            // We insert "as far up as possible": We know only compatible items are remaining
            // on top of `derived_from`, and we want the new item at the top so that we
            // get the strongest possible guarantees.
            // This ensures U1 and F1.
            self.borrows.len()
        };
        let ghost before = self@;
        // Put the new item there. As an optimization, deduplicate if it is equal to one of its
        // new neighbors.
        if self.borrows[new_idx - 1] == new || (new_idx < self.borrows.len()
            && self.borrows[new_idx] == new) {
            // Optimization applies, done.
        } else {
            self.borrows.insert(new_idx, new);
        }
        assert(self@ == placed(before, new_idx as int, new));
        self.report_update(StackUpdateType::Added(new.tag), traced, diagnostics);
        assert(diagnostics@ =~= old(diagnostics)@ + grant_outcome(
            old(self)@,
            derived_from,
            new,
            site,
            *global,
        ).notices);
        Ok(())
    }

    /// Performs the operation.
    pub fn apply(
        &mut self,
        op: StackOp,
        site: AccessSite,
        global: &GlobalStateInner,
        diagnostics: &mut Diagnostics,
        alloc_history: &mut AllocHistory,
    ) -> (result: Result<(), BorrowError>)
        ensures
            ({
                let outcome = op_outcome(old(self)@, op, site, *global);
                &&& final(self)@ == outcome.stack
                &&& final(diagnostics)@ == old(diagnostics)@ + outcome.notices
                &&& final(alloc_history)@ == old(alloc_history)@ + outcome.history
                &&& result == outcome.result
            }),
            final(alloc_history).local_crates == old(alloc_history).local_crates,
    {
        match op {
            StackOp::Access { access, tag } => self.access(
                access,
                tag,
                site,
                global,
                diagnostics,
                alloc_history,
            ),
            StackOp::Dealloc { tag } => self.dealloc(tag, site, global, diagnostics, alloc_history),
            StackOp::Grant { derived_from, new } => self.grant(
                derived_from,
                new,
                site,
                global,
                diagnostics,
                alloc_history,
            ),
        }
    }

    /// The stack as text, the bottom item first.
    pub fn to_string(&self) -> (text: String)
        ensures
            text@ == stack_chars(self@),
    {
        let mut out = String::new();
        out.append("[");
        let len = self.borrows.len();
        let mut i: usize = 0;
        assert(out@ =~= "["@ + listing(self@, 0));
        while i < len
            invariant
                i <= len,
                len == self@.len(),
                out@ == "["@ + listing(self@, i as int),
            decreases len - i,
        {
            push_item(&mut out, self.borrows[i]);
            if i + 1 < len {
                out.append(", ");
            }
            i += 1;
            assert(out@ =~= "["@ + listing(self@, i as int));
        }
        out.append("]");
        out
    }
}

/// Appends an item in the form that it has in a printed stack.
fn push_item(out: &mut String, item: Item)
    ensures
        final(out)@ == old(out)@ + item_chars(item),
{
    out.append(item.perm.short_name());
    item.tag.push_to(out);
    if let Some(call) = item.protector {
        out.append("[proc(");
        text::push_decimal(out, call);
        out.append(")]");
    }
    assert(out@ =~= old(out)@ + item_chars(item));
}

/// What is left after a successful access still reaches up to the item that granted it.
proof fn lemma_access_keeps_granting(
    s: Seq<Item>,
    access: AccessKind,
    tag: SbTag,
    site: AccessSite,
    global: GlobalStateInner,
)
    requires
        access_outcome(s, access, tag, site, global).result is Ok,
    ensures
        granting(s, access, tag) matches Some(g) && 0 <= g < access_outcome(
            s,
            access,
            tag,
            site,
            global,
        ).stack.len(),
{
    lemma_granting(s, access, tag);
    if let Some(g) = granting(s, access, tag) {
        lemma_shared_run_end(activated(s, g), g + 1);
    }
}

} // verus!
