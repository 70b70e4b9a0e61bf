//! The hashed collections this crate keeps its bookkeeping in: `indexmap`'s
//! insertion-ordered sets and maps and `rustc_hash`'s Fx hasher. Each
//! function here makes one call into those crates; its contract states what
//! that crate's source shows the call to do.
use vstd::prelude::*;

use indexmap::{IndexMap, IndexSet};
use rustc_hash::{FxBuildHasher, FxHashMap, FxHashSet};
use std::hash::BuildHasher;

use crate::reactivity::TrackedComponentMeta;

verus! {

#[verifier::external_type_specification]
#[verifier::external_body]
#[verifier::reject_recursive_types(T)]
#[verifier::reject_recursive_types(S)]
pub struct ExIndexSet<T, S>(IndexSet<T, S>);

#[verifier::external_type_specification]
#[verifier::external_body]
#[verifier::reject_recursive_types(K)]
#[verifier::reject_recursive_types(V)]
#[verifier::reject_recursive_types(S)]
pub struct ExIndexMap<K, V, S>(IndexMap<K, V, S>);

#[verifier::external_type_specification]
#[verifier::external_body]
pub struct ExFxBuildHasher(FxBuildHasher);

/// The keys of an id set, in insertion order.
pub uninterp spec fn id_set_items(s: IndexSet<u64, FxBuildHasher>) -> Seq<u64>;

/// The entries of the tracked-component map, in insertion order.
pub uninterp spec fn tracked_map_entries(
    m: IndexMap<u64, TrackedComponentMeta, FxBuildHasher>,
) -> Seq<(u64, TrackedComponentMeta)>;

/// `s` with `v` appended unless already present.
pub open spec fn seq_insert(s: Seq<u64>, v: u64) -> Seq<u64> {
    if s.contains(v) {
        s
    } else {
        s.push(v)
    }
}

/// `s` with each item of `t` inserted in turn, keeping the first position of
/// an item already present.
pub open spec fn seq_insert_all(s: Seq<u64>, t: Seq<u64>) -> Seq<u64>
    decreases t.len(),
{
    if t.len() == 0 {
        s
    } else {
        seq_insert(seq_insert_all(s, t.drop_last()), t.last())
    }
}

/// `s` without `v`, the last item moved into `v`'s place.
pub open spec fn seq_swap_remove(s: Seq<u64>, v: u64) -> Seq<u64> {
    let i = s.index_of(v);
    s.update(i, s.last()).drop_last()
}

/// The keys of a sequence of map entries.
pub open spec fn entry_keys(e: Seq<(u64, TrackedComponentMeta)>) -> Seq<u64> {
    e.map_values(|p: (u64, TrackedComponentMeta)| p.0)
}

/// `IndexSet::default` with the Fx hasher: an empty set.
#[verifier::external_body]
pub(crate) fn id_set_new() -> (s: IndexSet<u64, FxBuildHasher>)
    ensures
        id_set_items(s) == Seq::<u64>::empty(),
{
    IndexSet::default()
}

/// `IndexSet::insert`: appends `v` unless an equal item is present, and
/// reports whether it did.
#[verifier::external_body]
pub(crate) fn id_set_insert(s: &mut IndexSet<u64, FxBuildHasher>, v: u64) -> (added: bool)
    ensures
        added == !id_set_items(*old(s)).contains(v),
        id_set_items(*final(s)) == if added {
            id_set_items(*old(s)).push(v)
        } else {
            id_set_items(*old(s))
        },
{
    s.insert(v)
}

/// `IndexSet::contains`.
#[verifier::external_body]
pub(crate) fn id_set_contains(s: &IndexSet<u64, FxBuildHasher>, v: u64) -> (r: bool)
    ensures
        r == id_set_items(*s).contains(v),
{
    s.contains(&v)
}

/// `IndexSet::len`.
#[verifier::external_body]
pub(crate) fn id_set_len(s: &IndexSet<u64, FxBuildHasher>) -> (n: usize)
    ensures
        n == id_set_items(*s).len(),
{
    s.len()
}

/// `IndexSet::get_index`: the item at position `i`, if there is one.
#[verifier::external_body]
pub(crate) fn id_set_get_index(s: &IndexSet<u64, FxBuildHasher>, i: usize) -> (r: Option<u64>)
    ensures
        (i as int) < id_set_items(*s).len() ==> r == Some(id_set_items(*s)[i as int]),
        (i as int) >= id_set_items(*s).len() ==> r is None,
{
    s.get_index(i).copied()
}

/// `IndexSet::swap_remove`: removes `v` by moving the last item into its
/// place, and reports whether `v` was present.
#[verifier::external_body]
pub(crate) fn id_set_swap_remove(s: &mut IndexSet<u64, FxBuildHasher>, v: u64) -> (removed: bool)
    ensures
        removed == id_set_items(*old(s)).contains(v),
        id_set_items(*final(s)) == if removed {
            seq_swap_remove(id_set_items(*old(s)), v)
        } else {
            id_set_items(*old(s))
        },
{
    s.swap_remove(&v)
}

/// `IndexSet::clone`: the same items in the same order.
#[verifier::external_body]
pub(crate) fn id_set_clone(s: &IndexSet<u64, FxBuildHasher>) -> (c: IndexSet<u64, FxBuildHasher>)
    ensures
        id_set_items(c) == id_set_items(*s),
{
    s.clone()
}

/// `IndexSet::append`: moves every item of `other` into `s` in order, as if
/// each were inserted, and leaves `other` empty.
#[verifier::external_body]
pub(crate) fn id_set_append(s: &mut IndexSet<u64, FxBuildHasher>, other: &mut IndexSet<u64, FxBuildHasher>)
    ensures
        id_set_items(*final(s)) == seq_insert_all(id_set_items(*old(s)), id_set_items(*old(other))),
        id_set_items(*final(other)) == Seq::<u64>::empty(),
{
    s.append(other)
}

/// `IndexMap::default` with the Fx hasher: an empty map.
#[verifier::external_body]
pub(crate) fn tracked_map_new() -> (m: IndexMap<u64, TrackedComponentMeta, FxBuildHasher>)
    ensures
        tracked_map_entries(m) == Seq::<(u64, TrackedComponentMeta)>::empty(),
{
    IndexMap::default()
}

/// `IndexMap::insert`: replaces the value of an existing key in place, or
/// appends a new entry.
#[verifier::external_body]
pub(crate) fn tracked_map_insert(
    m: &mut IndexMap<u64, TrackedComponentMeta, FxBuildHasher>,
    k: u64,
    v: TrackedComponentMeta,
) -> (prev: Option<TrackedComponentMeta>)
    ensures
        entry_keys(tracked_map_entries(*old(m))).contains(k) ==> {
            let i = entry_keys(tracked_map_entries(*old(m))).index_of(k);
            &&& prev == Some(tracked_map_entries(*old(m))[i].1)
            &&& tracked_map_entries(*final(m)) == tracked_map_entries(*old(m)).update(i, (k, v))
        },
        !entry_keys(tracked_map_entries(*old(m))).contains(k) ==> {
            &&& prev is None
            &&& tracked_map_entries(*final(m)) == tracked_map_entries(*old(m)).push((k, v))
        },
{
    m.insert(k, v)
}

/// `IndexMap::len`.
#[verifier::external_body]
pub(crate) fn tracked_map_len(m: &IndexMap<u64, TrackedComponentMeta, FxBuildHasher>) -> (n: usize)
    ensures
        n == tracked_map_entries(*m).len(),
{
    m.len()
}

/// `IndexMap::get_index`: the value at position `i`, if there is one.
#[verifier::external_body]
pub(crate) fn tracked_map_value_at(
    m: &IndexMap<u64, TrackedComponentMeta, FxBuildHasher>,
    i: usize,
) -> (r: Option<TrackedComponentMeta>)
    ensures
        (i as int) < tracked_map_entries(*m).len() ==> r == Some(
            tracked_map_entries(*m)[i as int].1,
        ),
        (i as int) >= tracked_map_entries(*m).len() ==> r is None,
{
    m.get_index(i).map(|(_, v)| *v)
}

/// `FxHashSet::default`: an empty set.
#[verifier::external_body]
pub(crate) fn fx_set_new<T>() -> (s: FxHashSet<T>)
    ensures
        s@ == Set::<T>::empty(),
{
    FxHashSet::default()
}

/// `HashSet::insert` under the Fx hasher, for keys whose hashing and
/// equality agree as they do for integers: adds `v` and reports whether it
/// was absent.
#[verifier::external_body]
pub(crate) fn fx_set_insert<T: std::hash::Hash + Eq>(s: &mut FxHashSet<T>, v: T) -> (added: bool)
    requires
        vstd::std_specs::hash::obeys_key_model::<T>(),
    ensures
        final(s)@ == old(s)@.insert(v),
        added == !old(s)@.contains(v),
{
    s.insert(v)
}

/// `FxHashMap::default`: an empty map.
#[verifier::external_body]
pub(crate) fn fx_map_new() -> (r: FxHashMap<u64, u32>)
    ensures
        r@.dom() == Set::<u64>::empty(),
{
    FxHashMap::default()
}

/// `HashMap::insert` under the Fx hasher: maps `k` to `v`.
#[verifier::external_body]
pub(crate) fn fx_map_insert(m: &mut FxHashMap<u64, u32>, k: u64, v: u32)
    ensures
        final(m)@ == old(m)@.insert(k, v),
{
    m.insert(k, v);
}

/// `HashMap::get` under the Fx hasher, copied out.
#[verifier::external_body]
pub(crate) fn fx_map_get(m: &FxHashMap<u64, u32>, k: u64) -> (r: Option<u32>)
    ensures
        m@.contains_key(k) ==> r == Some(m@[k]),
        !m@.contains_key(k) ==> r is None,
{
    m.get(&k).copied()
}

/// What `FxBuildHasher::hash_one` gives for a `u64` on a 64-bit target: the
/// key times the Fx multiplier, wrapped, then rotated left by 26 bits.
pub open spec fn fx_hash_u64_wide(k: u64) -> u64 {
    let x = ((k as int) * 0xf1357aea2e62a9c5int) % 0x1_0000_0000_0000_0000int;
    ((x * 0x400_0000int) % 0x1_0000_0000_0000_0000int + x / 0x40_0000_0000int) as u64
}

/// What `FxBuildHasher::hash_one` gives for a `u64` on a 32-bit target: the
/// low then the high half folded in with the 32-bit multiplier, then rotated
/// left by 15 bits.
pub open spec fn fx_hash_u64_narrow(k: u64) -> u64 {
    let lo = (k as int) % 0x1_0000_0000int;
    let hi = (k as int) / 0x1_0000_0000int;
    let h1 = (lo * 0x93d765ddint) % 0x1_0000_0000int;
    let h2 = ((h1 + hi) * 0x93d765ddint) % 0x1_0000_0000int;
    ((h2 * 0x8000int) % 0x1_0000_0000int + h2 / 0x2_0000int) as u64
}

/// What `FxBuildHasher::hash_one` gives for a `u64` on this target.
pub open spec fn fx_hash_u64(k: u64) -> u64 {
    if usize::BITS == 64 {
        fx_hash_u64_wide(k)
    } else {
        fx_hash_u64_narrow(k)
    }
}

/// `FxBuildHasher::hash_one` on a `u64`: one `write_u64` into a fresh
/// `FxHasher`, then `finish`.
#[verifier::external_body]
pub(crate) fn fx_hash_one(k: u64) -> (h: u64)
    ensures
        h == fx_hash_u64(k),
{
    FxBuildHasher.hash_one(k)
}

} // verus!
