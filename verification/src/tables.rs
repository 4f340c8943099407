//! The hash tables keyed by small numbers or by names. They are the ones of
//! `rustc_data_structures::fx`: the standard library's tables with a fast, unseeded hasher.
use rustc_data_structures::fx::{FxHashMap, FxHashSet};
use vstd::prelude::*;

use crate::machine::tag::{Pointer, Tag};
use crate::memory::AllocId;
use crate::stacked_borrows::item::{CallId, SbTag};

verus! {

/// The hasher of the tables, carried in their types.
#[verifier::external_type_specification]
#[verifier::external_body]
pub struct ExFxHasher(rustc_data_structures::fx::FxHasher);

/// What makes a fresh hasher for each key, carried in the types of the tables.
#[verifier::external_type_specification]
#[verifier::external_body]
#[verifier::reject_recursive_types(H)]
pub struct ExBuildHasherDefault<H>(std::hash::BuildHasherDefault<H>);

/// Looks a base tag up with `HashMap::get`: the value stored under the key, or `None` if there
/// is none.
#[verifier::external_body]
pub(crate) fn base_tag_get(table: &FxHashMap<AllocId, SbTag>, id: AllocId) -> (tag: Option<SbTag>)
    ensures
        tag == (if table@.contains_key(id) {
            Some(table@[id])
        } else {
            None
        }),
{
    table.get(&id).copied()
}

/// Stores a base tag with `HashMap::insert`: afterwards the key has the given value, and the
/// other keys have what they had.
#[verifier::external_body]
pub(crate) fn base_tag_insert(table: &mut FxHashMap<AllocId, SbTag>, id: AllocId, tag: SbTag)
    ensures
        final(table)@ == old(table)@.insert(id, tag),
{
    table.insert(id, tag);
}

/// Asks with `HashSet::contains` whether the call is in the set.
#[verifier::external_body]
pub(crate) fn calls_contains(calls: &FxHashSet<CallId>, id: CallId) -> (found: bool)
    ensures
        found == calls@.contains(id),
{
    calls.contains(&id)
}

/// Adds a call with `HashSet::insert`, which says whether it was new.
#[verifier::external_body]
pub(crate) fn calls_insert(calls: &mut FxHashSet<CallId>, id: CallId) -> (new: bool)
    ensures
        final(calls)@ == old(calls)@.insert(id),
        new == !old(calls)@.contains(id),
{
    calls.insert(id)
}

/// Takes a call out with `HashSet::remove`, which says whether it was there.
#[verifier::external_body]
pub(crate) fn calls_remove(calls: &mut FxHashSet<CallId>, id: CallId) -> (found: bool)
    ensures
        final(calls)@ == old(calls)@.remove(id),
        found == old(calls)@.contains(id),
{
    calls.remove(&id)
}

/// What a table of labels holds: under each name, the number of the label.
pub uninterp spec fn label_table(table: FxHashMap<String, u32>) -> Map<Seq<char>, u32>;

/// Makes a table of labels with `HashMap::default`: there is nothing in it.
#[verifier::external_body]
pub(crate) fn labels_new() -> (table: FxHashMap<String, u32>)
    ensures
        (label_table(table) == Map::<Seq<char>, u32>::empty()),
{
    FxHashMap::default()
}

/// Looks a label up with `HashMap::get`: the number stored under the name, or `None` if there is
/// none. Names are the same if their characters are.
#[verifier::external_body]
pub(crate) fn labels_get(table: &FxHashMap<String, u32>, name: &String) -> (label: Option<u32>)
    ensures
        label == (if label_table(*table).contains_key(name@) {
            Some(label_table(*table)[name@])
        } else {
            None
        }),
{
    table.get(name).copied()
}

/// Stores a label with `HashMap::insert`: afterwards the name has the given number, and the other
/// names have what they had.
#[verifier::external_body]
pub(crate) fn labels_insert(table: &mut FxHashMap<String, u32>, name: String, label: u32)
    ensures
        label_table(*final(table)) == label_table(*old(table)).insert(name@, label),
{
    table.insert(name, label);
}

/// What a table of statics holds: under each name, where the static is.
pub uninterp spec fn static_table(table: FxHashMap<String, Pointer<Tag>>) -> Map<
    Seq<char>,
    Pointer<Tag>,
>;

/// Makes a table of statics with `HashMap::default`: there is nothing in it.
#[verifier::external_body]
pub(crate) fn statics_new() -> (table: FxHashMap<String, Pointer<Tag>>)
    ensures
        (static_table(table) == Map::<Seq<char>, Pointer<Tag>>::empty()),
{
    FxHashMap::default()
}

/// Looks a static up with `HashMap::get`: the pointer stored under the name, or `None` if there is
/// none. Names are the same if their characters are.
#[verifier::external_body]
pub(crate) fn statics_get<'a>(
    table: &'a FxHashMap<String, Pointer<Tag>>,
    name: &String,
) -> (ptr: Option<&'a Pointer<Tag>>)
    ensures
        ptr == (if static_table(*table).contains_key(name@) {
            Some(&static_table(*table)[name@])
        } else {
            None
        }),
{
    table.get(name)
}

/// Stores a static with `HashMap::insert`: afterwards the name has the given pointer, and the other
/// names have what they had.
#[verifier::external_body]
pub(crate) fn statics_insert(
    table: &mut FxHashMap<String, Pointer<Tag>>,
    name: String,
    ptr: Pointer<Tag>,
)
    ensures
        static_table(*final(table)) == static_table(*old(table)).insert(name@, ptr),
{
    table.insert(name, ptr);
}

} // verus!
