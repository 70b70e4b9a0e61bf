//! What a system reads and writes, and the rules that refuse system
//! parameters whose borrows would alias.
use vstd::prelude::*;

use indexmap::IndexSet;
use rustc_hash::{FxBuildHasher, FxHashSet};

use crate::collections::{
    seq_insert,
    fx_set_insert, fx_set_new, id_set_append, id_set_contains, id_set_get_index, id_set_insert,
    id_set_items, id_set_len, id_set_new, seq_insert_all,
};

verus! {

/// An append-only list of access ids, as a query collects them.
pub struct AccessVec<T> {
    vec: Vec<T>,
}

impl<T> View for AccessVec<T> {
    type V = Seq<T>;

    closed spec fn view(&self) -> Seq<T> {
        self.vec@
    }
}

impl<T> AccessVec<T> {
    pub fn new() -> (v: Self)
        ensures
            v@ == Seq::<T>::empty(),
    {
        AccessVec { vec: Vec::new() }
    }

    pub fn push(&mut self, val: T)
        ensures
            final(self)@ == old(self)@.push(val),
    {
        self.vec.push(val);
    }

    /// The collected ids, in the order they were pushed.
    pub fn iter(&self) -> (s: &[T])
        ensures
            s@ == self@,
    {
        self.vec.as_slice()
    }

    pub fn as_slice(&self) -> (s: &[T])
        ensures
            s@ == self@,
    {
        self.vec.as_slice()
    }

    pub fn len(&self) -> (n: usize)
        ensures
            n == self@.len(),
    {
        self.vec.len()
    }
}

impl AccessVec<u64> {
    pub fn contains(&self, val: &u64) -> (r: bool)
        ensures
            r == self@.contains(*val),
    {
        let mut i: usize = 0;
        while i < self.vec.len()
            invariant
                i <= self.vec@.len(),
                forall|j: int| 0 <= j < i ==> self.vec@[j] != *val,
            decreases self.vec@.len() - i,
        {
            if self.vec[i] == *val {
                assert(self.vec@[i as int] == *val);
                return true;
            }
            i += 1;
        }
        false
    }
}

/// `s` with no item repeated stays so when items are inserted.
pub proof fn lemma_insert_all_no_duplicates(s: Seq<u64>, t: Seq<u64>)
    requires
        s.no_duplicates(),
    ensures
        seq_insert_all(s, t).no_duplicates(),
        forall|x: u64| #[trigger] seq_insert_all(s, t).contains(x) <==> s.contains(x) || t.contains(x),
    decreases t.len(),
{
    if t.len() > 0 {
        lemma_insert_all_no_duplicates(s, t.drop_last());
        let front = seq_insert_all(s, t.drop_last());
        assert forall|x: u64| #[trigger] seq_insert_all(s, t).contains(x) <==> s.contains(x) || t.contains(x) by {
            if t.drop_last().contains(x) {
                let k = choose|k: int| 0 <= k < t.drop_last().len() && t.drop_last()[k] == x;
                assert(t[k] == x);
            }
            if t.contains(x) && x != t.last() {
                let k = choose|k: int| 0 <= k < t.len() && t[k] == x;
                assert(t.drop_last()[k] == x);
            }
            if !front.contains(t.last()) {
                if front.push(t.last()).contains(x) && x != t.last() {
                    let k = choose|k: int| 0 <= k < front.push(t.last()).len() && front.push(t.last())[k] == x;
                    assert(front[k] == x);
                }
                if front.contains(x) {
                    let k = choose|k: int| 0 <= k < front.len() && front[k] == x;
                    assert(front.push(t.last())[k] == x);
                }
                assert(front.push(t.last())[front.len() as int] == t.last());
            }
        }
    }
}

/// Inserting the first `i + 1` items is inserting the first `i`, then item `i`.
pub proof fn lemma_insert_all_step(s: Seq<u64>, t: Seq<u64>, i: int)
    requires
        0 <= i < t.len(),
    ensures
        seq_insert_all(s, t.take(i + 1)) == seq_insert(seq_insert_all(s, t.take(i)), t[i]),
{
    assert(t.take(i + 1).drop_last() =~= t.take(i));
}

/// A set of access ids, kept in insertion order.
pub struct AccessHashSet {
    set: IndexSet<u64, FxBuildHasher>,
}

impl View for AccessHashSet {
    type V = Seq<u64>;

    closed spec fn view(&self) -> Seq<u64> {
        id_set_items(self.set)
    }
}

impl AccessHashSet {
    #[verifier::type_invariant]
    spec fn inv(self) -> bool {
        id_set_items(self.set).no_duplicates()
    }

    pub fn new() -> (s: Self)
        ensures
            s@ == Seq::<u64>::empty(),
    {
        AccessHashSet { set: id_set_new() }
    }

    /// Adds `val` at the end unless present; reports whether it was added.
    pub fn insert(&mut self, val: u64) -> (added: bool)
        ensures
            added == !old(self)@.contains(val),
            final(self)@ == if added {
                old(self)@.push(val)
            } else {
                old(self)@
            },
    {
        proof {
            use_type_invariant(&*self);
        }
        let mut set = id_set_new();
        std::mem::swap(&mut set, &mut self.set);
        let added = id_set_insert(&mut set, val);
        proof {
            let old_items = id_set_items(old(self).set);
            if added {
                assert forall|a: int, b: int|
                    0 <= a < old_items.push(val).len() && 0 <= b < old_items.push(val).len() && a != b
                        implies #[trigger] old_items.push(val)[a] != #[trigger] old_items.push(val)[b] by {
                    if a < old_items.len() && b < old_items.len() {
                        assert(old_items[a] != old_items[b]);
                    } else if a < old_items.len() {
                        assert(old_items[a] != val);
                    } else if b < old_items.len() {
                        assert(old_items[b] != val);
                    }
                }
            }
        }
        self.set = set;
        added
    }

    pub fn contains(&self, val: &u64) -> (r: bool)
        ensures
            r == self@.contains(*val),
    {
        id_set_contains(&self.set, *val)
    }

    pub fn len(&self) -> (n: usize)
        ensures
            n == self@.len(),
    {
        id_set_len(&self.set)
    }

    /// The ids in insertion order.
    pub fn iter(&self) -> (v: Vec<u64>)
        ensures
            v@ == self@,
    {
        let n = id_set_len(&self.set);
        let mut out: Vec<u64> = Vec::new();
        let mut i: usize = 0;
        while i < n
            invariant
                i <= n == id_set_items(self.set).len(),
                out@ == id_set_items(self.set).take(i as int),
            decreases n - i,
        {
            let x = id_set_get_index(&self.set, i);
            match x {
                Some(v) => {
                    out.push(v);
                },
                None => {},
            }
            assert(id_set_items(self.set).take(i as int + 1) =~= id_set_items(self.set).take(
                i as int,
            ).push(id_set_items(self.set)[i as int]));
            i += 1;
        }
        assert(id_set_items(self.set).take(n as int) =~= id_set_items(self.set));
        out
    }

    /// Moves every id of `other` into `self`, in order, leaving `other` empty.
    pub fn append(&mut self, other: &mut AccessHashSet)
        ensures
            final(self)@ == seq_insert_all(old(self)@, old(other)@),
            final(other)@ == Seq::<u64>::empty(),
    {
        proof {
            use_type_invariant(&*self);
            use_type_invariant(&*other);
        }
        let mut set = id_set_new();
        std::mem::swap(&mut set, &mut self.set);
        let mut other_set = id_set_new();
        std::mem::swap(&mut other_set, &mut other.set);
        id_set_append(&mut set, &mut other_set);
        proof {
            lemma_insert_all_no_duplicates(id_set_items(old(self).set), id_set_items(old(other).set));
        }
        self.set = set;
        other.set = other_set;
    }

    /// Adds each id of `vals` in turn.
    pub fn insert_all(&mut self, vals: &[u64])
        ensures
            final(self)@ == seq_insert_all(old(self)@, vals@),
    {
        let mut i: usize = 0;
        while i < vals.len()
            invariant
                i <= vals@.len(),
                self@ == seq_insert_all(old(self)@, vals@.take(i as int)),
            decreases vals@.len() - i,
        {
            proof {
                lemma_insert_all_step(old(self)@, vals@, i as int);
            }
            self.insert(vals[i]);
            i += 1;
        }
        assert(vals@.take(vals@.len() as int) =~= vals@);
    }
}

/// Why a system's parameters were refused.
#[derive(Debug, PartialEq, Eq, Clone, Copy, Structural)]
pub enum AccessConflict {
    /// One query writes a component it also reads, or writes one twice.
    IntraQuery,
    /// Two queries of one system overlap on a written component and no
    /// `With`/`Without` pair proves them disjoint.
    SystemParams,
    /// A resource is borrowed mutably alongside another borrow of it.
    ResourceBorrow,
}

/// The accesses a system has declared so far.
pub struct SystemMeta {
    name: String,
    component_reads: AccessHashSet,
    component_writes: AccessHashSet,
    resource_reads: AccessHashSet,
    resource_writes: AccessHashSet,
    with_filters: AccessHashSet,
    without_filters: AccessHashSet,
}

impl SystemMeta {
    pub closed spec fn name(&self) -> Seq<char> {
        self.name@
    }

    pub closed spec fn component_reads(&self) -> Seq<u64> {
        self.component_reads@
    }

    pub closed spec fn component_writes(&self) -> Seq<u64> {
        self.component_writes@
    }

    pub closed spec fn resource_reads(&self) -> Seq<u64> {
        self.resource_reads@
    }

    pub closed spec fn resource_writes(&self) -> Seq<u64> {
        self.resource_writes@
    }

    pub closed spec fn with_filters(&self) -> Seq<u64> {
        self.with_filters@
    }

    pub closed spec fn without_filters(&self) -> Seq<u64> {
        self.without_filters@
    }

    pub fn new(func_name: String) -> (m: Self)
        ensures
            m.name() == func_name@,
            m.component_reads() == Seq::<u64>::empty(),
            m.component_writes() == Seq::<u64>::empty(),
            m.resource_reads() == Seq::<u64>::empty(),
            m.resource_writes() == Seq::<u64>::empty(),
            m.with_filters() == Seq::<u64>::empty(),
            m.without_filters() == Seq::<u64>::empty(),
    {
        SystemMeta {
            name: func_name,
            component_reads: AccessHashSet::new(),
            component_writes: AccessHashSet::new(),
            resource_reads: AccessHashSet::new(),
            resource_writes: AccessHashSet::new(),
            with_filters: AccessHashSet::new(),
            without_filters: AccessHashSet::new(),
        }
    }

    pub fn get_func_name(&self) -> (s: String)
        ensures
            s@ == self.name(),
    {
        self.name.clone()
    }

    pub fn add_component_read(&mut self, id: u64)
        ensures
            final(self).component_reads() == seq_insert(old(self).component_reads(), id),
            same_except_component_reads(*old(self), *final(self)),
    {
        self.component_reads.insert(id);
    }

    pub fn add_component_write(&mut self, id: u64)
        ensures
            final(self).component_writes() == seq_insert(old(self).component_writes(), id),
            same_except_component_writes(*old(self), *final(self)),
    {
        self.component_writes.insert(id);
    }

    pub fn add_resource_read(&mut self, id: u64)
        ensures
            final(self).resource_reads() == seq_insert(old(self).resource_reads(), id),
            same_except_resource_reads(*old(self), *final(self)),
    {
        self.resource_reads.insert(id);
    }

    pub fn add_resource_write(&mut self, id: u64)
        ensures
            final(self).resource_writes() == seq_insert(old(self).resource_writes(), id),
            same_except_resource_writes(*old(self), *final(self)),
    {
        self.resource_writes.insert(id);
    }

    pub fn add_with_filter(&mut self, id: u64)
        ensures
            final(self).with_filters() == seq_insert(old(self).with_filters(), id),
            same_except_filters(*old(self), *final(self)),
            final(self).without_filters() == old(self).without_filters(),
    {
        self.with_filters.insert(id);
    }

    pub fn add_without_filter(&mut self, id: u64)
        ensures
            final(self).without_filters() == seq_insert(old(self).without_filters(), id),
            same_except_filters(*old(self), *final(self)),
            final(self).with_filters() == old(self).with_filters(),
    {
        self.without_filters.insert(id);
    }

    pub fn has_component_read(&self, id: &u64) -> (r: bool)
        ensures
            r == self.component_reads().contains(*id),
    {
        self.component_reads.contains(id)
    }

    pub fn has_component_write(&self, id: &u64) -> (r: bool)
        ensures
            r == self.component_writes().contains(*id),
    {
        self.component_writes.contains(id)
    }

    pub fn has_resource_read(&self, id: &u64) -> (r: bool)
        ensures
            r == self.resource_reads().contains(*id),
    {
        self.resource_reads.contains(id)
    }

    pub fn has_resource_write(&self, id: &u64) -> (r: bool)
        ensures
            r == self.resource_writes().contains(*id),
    {
        self.resource_writes.contains(id)
    }

    pub fn has_with_filter(&self, id: &u64) -> (r: bool)
        ensures
            r == self.with_filters().contains(*id),
    {
        self.with_filters.contains(id)
    }

    pub fn has_without_filter(&self, id: &u64) -> (r: bool)
        ensures
            r == self.without_filters().contains(*id),
    {
        self.without_filters.contains(id)
    }

    /// Moves every access of `other` into `self`, leaving `other`'s access
    /// sets empty.
    pub fn extend(&mut self, other: &mut SystemMeta)
        ensures
            final(self).name() == old(self).name(),
            final(self).component_reads() == seq_insert_all(old(self).component_reads(), old(other).component_reads()),
            final(self).component_writes() == seq_insert_all(old(self).component_writes(), old(other).component_writes()),
            final(self).resource_reads() == seq_insert_all(old(self).resource_reads(), old(other).resource_reads()),
            final(self).resource_writes() == seq_insert_all(old(self).resource_writes(), old(other).resource_writes()),
            final(self).with_filters() == seq_insert_all(old(self).with_filters(), old(other).with_filters()),
            final(self).without_filters() == seq_insert_all(old(self).without_filters(), old(other).without_filters()),
            final(other).name() == old(other).name(),
            final(other).component_reads() == Seq::<u64>::empty(),
            final(other).component_writes() == Seq::<u64>::empty(),
            final(other).resource_reads() == Seq::<u64>::empty(),
            final(other).resource_writes() == Seq::<u64>::empty(),
            final(other).with_filters() == Seq::<u64>::empty(),
            final(other).without_filters() == Seq::<u64>::empty(),
    {
        self.component_reads.append(&mut other.component_reads);
        self.component_writes.append(&mut other.component_writes);
        self.with_filters.append(&mut other.with_filters);
        self.without_filters.append(&mut other.without_filters);
        self.resource_reads.append(&mut other.resource_reads);
        self.resource_writes.append(&mut other.resource_writes);
    }
}

/// Only the component reads differ.
pub open spec fn same_except_component_reads(a: SystemMeta, b: SystemMeta) -> bool {
    &&& a.name() == b.name()
    &&& a.component_writes() == b.component_writes()
    &&& a.resource_reads() == b.resource_reads()
    &&& a.resource_writes() == b.resource_writes()
    &&& a.with_filters() == b.with_filters()
    &&& a.without_filters() == b.without_filters()
}

/// Only the component writes differ.
pub open spec fn same_except_component_writes(a: SystemMeta, b: SystemMeta) -> bool {
    &&& a.name() == b.name()
    &&& a.component_reads() == b.component_reads()
    &&& a.resource_reads() == b.resource_reads()
    &&& a.resource_writes() == b.resource_writes()
    &&& a.with_filters() == b.with_filters()
    &&& a.without_filters() == b.without_filters()
}

/// Only the resource reads differ.
pub open spec fn same_except_resource_reads(a: SystemMeta, b: SystemMeta) -> bool {
    &&& a.name() == b.name()
    &&& a.component_reads() == b.component_reads()
    &&& a.component_writes() == b.component_writes()
    &&& a.resource_writes() == b.resource_writes()
    &&& a.with_filters() == b.with_filters()
    &&& a.without_filters() == b.without_filters()
}

/// Only the resource writes differ.
pub open spec fn same_except_resource_writes(a: SystemMeta, b: SystemMeta) -> bool {
    &&& a.name() == b.name()
    &&& a.component_reads() == b.component_reads()
    &&& a.component_writes() == b.component_writes()
    &&& a.resource_reads() == b.resource_reads()
    &&& a.with_filters() == b.with_filters()
    &&& a.without_filters() == b.without_filters()
}

/// Only the `With`/`Without` filters differ.
pub open spec fn same_except_filters(a: SystemMeta, b: SystemMeta) -> bool {
    &&& a.name() == b.name()
    &&& a.component_reads() == b.component_reads()
    &&& a.component_writes() == b.component_writes()
    &&& a.resource_reads() == b.resource_reads()
    &&& a.resource_writes() == b.resource_writes()
}

/// Some id occurs in both sequences.
pub open spec fn overlaps(a: Seq<u64>, b: Seq<u64>) -> bool {
    exists|i: int| 0 <= i < a.len() && #[trigger] b.contains(a[i])
}

/// A query that writes what it reads, or writes one component twice.
pub open spec fn query_self_conflicts(reads: Seq<u64>, writes: Seq<u64>) -> bool {
    overlaps(writes, reads) || !writes.no_duplicates()
}

/// A query whose accesses collide with those the system already holds.
pub open spec fn query_collides(meta: SystemMeta, reads: Seq<u64>, writes: Seq<u64>) -> bool {
    ||| overlaps(writes, meta.component_writes())
    ||| overlaps(writes, meta.component_reads())
    ||| overlaps(reads, meta.component_writes())
}

/// The query's filters prove it can never match an entity that an earlier
/// query of the system matches.
pub open spec fn query_disjoint(meta: SystemMeta, withs: Seq<u64>, withouts: Seq<u64>) -> bool {
    overlaps(withouts, meta.with_filters()) || overlaps(withs, meta.without_filters())
}

/// Two sequences overlap exactly when some id occurs in both.
pub proof fn lemma_overlaps_shared_id(a: Seq<u64>, b: Seq<u64>)
    ensures
        overlaps(a, b) <==> exists|x: u64| #[trigger] a.contains(x) && b.contains(x),
{
    if overlaps(a, b) {
        let i = choose|i: int| 0 <= i < a.len() && #[trigger] b.contains(a[i]);
        assert(a.contains(a[i]));
    }
    if exists|x: u64| #[trigger] a.contains(x) && b.contains(x) {
        let x = choose|x: u64| #[trigger] a.contains(x) && b.contains(x);
        let i = choose|i: int| 0 <= i < a.len() && a[i] == x;
        assert(b.contains(a[i]));
    }
}

/// A query that is consistent in itself (it writes no component twice and
/// none it reads) is refused for its system's sake exactly when it writes a
/// component the system already reads or writes, or reads one the system
/// already writes, while no id it must lack is one an earlier query of the
/// system requires, and no id it requires is one an earlier query must lack.
pub proof fn lemma_system_params_refusal(
    meta: SystemMeta,
    reads: Seq<u64>,
    writes: Seq<u64>,
    withs: Seq<u64>,
    withouts: Seq<u64>,
)
    ensures
        (!query_self_conflicts(reads, writes) && query_collides(meta, reads, writes) && !query_disjoint(
            meta,
            withs,
            withouts,
        )) <==> {
            &&& writes.no_duplicates()
            &&& forall|x: u64| #[trigger] writes.contains(x) ==> !reads.contains(x)
            &&& {
                ||| exists|x: u64| #[trigger] writes.contains(x) && meta.component_writes().contains(x)
                ||| exists|x: u64| #[trigger] writes.contains(x) && meta.component_reads().contains(x)
                ||| exists|x: u64| #[trigger] reads.contains(x) && meta.component_writes().contains(x)
            }
            &&& forall|x: u64| #[trigger] withouts.contains(x) ==> !meta.with_filters().contains(x)
            &&& forall|x: u64| #[trigger] withs.contains(x) ==> !meta.without_filters().contains(x)
        },
{
    lemma_overlaps_shared_id(writes, reads);
    lemma_overlaps_shared_id(writes, meta.component_writes());
    lemma_overlaps_shared_id(writes, meta.component_reads());
    lemma_overlaps_shared_id(reads, meta.component_writes());
    lemma_overlaps_shared_id(withouts, meta.with_filters());
    lemma_overlaps_shared_id(withs, meta.without_filters());
}

/// Every id inserted, and every id already there, is in the result, and
/// nothing else.
pub proof fn lemma_insert_all_contains(s: Seq<u64>, t: Seq<u64>)
    ensures
        forall|x: u64| #[trigger] seq_insert_all(s, t).contains(x) <==> s.contains(x) || t.contains(x),
    decreases t.len(),
{
    if t.len() > 0 {
        lemma_insert_all_contains(s, t.drop_last());
        let front = seq_insert_all(s, t.drop_last());
        assert forall|x: u64| #[trigger] seq_insert_all(s, t).contains(x) <==> s.contains(x) || t.contains(x) by {
            if t.drop_last().contains(x) {
                let k = choose|k: int| 0 <= k < t.drop_last().len() && t.drop_last()[k] == x;
                assert(t[k] == x);
            }
            if t.contains(x) && x != t.last() {
                let k = choose|k: int| 0 <= k < t.len() && t[k] == x;
                assert(t.drop_last()[k] == x);
            }
            if !front.contains(t.last()) {
                if front.push(t.last()).contains(x) && x != t.last() {
                    let k = choose|k: int| 0 <= k < front.push(t.last()).len() && front.push(t.last())[k] == x;
                    assert(front[k] == x);
                }
                if front.contains(x) {
                    let k = choose|k: int| 0 <= k < front.len() && front[k] == x;
                    assert(front.push(t.last())[k] == x);
                }
                assert(front.push(t.last())[front.len() as int] == t.last());
            }
        }
    }
}

/// Once a query reading component `x` is registered with a system, a later
/// query of that system that writes `x` collides with it, and without
/// `With`/`Without` filters nothing keeps the two apart; so does one that
/// reads or writes `x` after a query writing it.
pub proof fn lemma_earlier_query_blocks_aliasing(
    before: SystemMeta,
    after: SystemMeta,
    reads1: Seq<u64>,
    writes1: Seq<u64>,
    reads2: Seq<u64>,
    writes2: Seq<u64>,
    x: u64,
)
    requires
        after.component_reads() == seq_insert_all(before.component_reads(), reads1),
        after.component_writes() == seq_insert_all(before.component_writes(), writes1),
        (reads1.contains(x) && writes2.contains(x)) || (writes1.contains(x) && (reads2.contains(x)
            || writes2.contains(x))),
    ensures
        query_collides(after, reads2, writes2),
        !query_disjoint(after, Seq::<u64>::empty(), Seq::<u64>::empty()),
{
    lemma_insert_all_contains(before.component_reads(), reads1);
    lemma_insert_all_contains(before.component_writes(), writes1);
    lemma_overlaps_shared_id(writes2, after.component_writes());
    lemma_overlaps_shared_id(writes2, after.component_reads());
    lemma_overlaps_shared_id(reads2, after.component_writes());
    assert(after.component_reads().contains(x) || after.component_writes().contains(x));
}

/// Whether some id of `a` is in `b`, as `a.iter().any(|x| b.contains(x))`.
fn any_in_vec(a: &[u64], b: &AccessVec<u64>) -> (r: bool)
    ensures
        r == overlaps(a@, b@),
{
    let mut i: usize = 0;
    while i < a.len()
        invariant
            i <= a@.len(),
            forall|j: int| 0 <= j < i ==> !b@.contains(#[trigger] a@[j]),
        decreases a@.len() - i,
    {
        if b.contains(&a[i]) {
            return true;
        }
        i += 1;
    }
    false
}

/// Whether some id of `a` is in `b`.
fn any_in_set(a: &[u64], b: &AccessHashSet) -> (r: bool)
    ensures
        r == overlaps(a@, b@),
{
    let mut i: usize = 0;
    while i < a.len()
        invariant
            i <= a@.len(),
            forall|j: int| 0 <= j < i ==> !b@.contains(#[trigger] a@[j]),
        decreases a@.len() - i,
    {
        if b.contains(&a[i]) {
            return true;
        }
        i += 1;
    }
    false
}

/// Whether some id occurs twice in `writes`, found by inserting each into an
/// `FxHashSet` until one is already there.
fn has_duplicate_writes(writes: &[u64]) -> (r: bool)
    ensures
        r == !writes@.no_duplicates(),
{
    let mut unique = fx_set_new();
    let mut i: usize = 0;
    while i < writes.len()
        invariant
            i <= writes@.len(),
            unique@ == writes@.take(i as int).to_set(),
            forall|a: int, b: int| 0 <= a < b < i ==> #[trigger] writes@[a] != #[trigger] writes@[b],
        decreases writes@.len() - i,
    {
        let added = fx_set_insert(&mut unique, writes[i]);
        if !added {
            proof {
                assert(writes@.take(i as int).to_set().contains(writes@[i as int]));
                let k = choose|k: int| 0 <= k < i && writes@.take(i as int)[k] == writes@[i as int];
                assert(writes@[k] == writes@[i as int]);
            }
            return true;
        }
        proof {
            assert(writes@.take(i as int + 1) =~= writes@.take(i as int).push(writes@[i as int]));
            let t1 = writes@.take(i as int + 1);
            let t0 = writes@.take(i as int);
            assert forall|x: u64| t1.to_set().contains(x) <==> t0.to_set().insert(writes@[i as int]).contains(x) by {
                if t1.contains(x) {
                    let k = choose|k: int| 0 <= k < t1.len() && t1[k] == x;
                    if k < i {
                        assert(t0[k] == x);
                    }
                }
                if t0.contains(x) {
                    let k = choose|k: int| 0 <= k < t0.len() && t0[k] == x;
                    assert(t1[k] == x);
                }
                assert(t1[i as int] == writes@[i as int]);
            }
            assert(writes@.take(i as int + 1).to_set() =~= writes@.take(i as int).to_set().insert(writes@[i as int]));
            assert forall|a: int| 0 <= a < i implies #[trigger] writes@[a] != writes@[i as int] by {
                assert(writes@.take(i as int)[a] == writes@[a]);
            }
        }
        i += 1;
    }
    assert forall|a: int, b: int| 0 <= a < writes@.len() && 0 <= b < writes@.len() && a != b implies #[trigger] writes@[a]
        != #[trigger] writes@[b] by {
        if a > b {
            assert(writes@[b] != writes@[a]);
        }
    }
    false
}

/// Whether a query's own accesses conflict: it writes a component it also
/// reads, or writes one twice.
pub fn check_query_conflicts(reads: &AccessVec<u64>, writes: &AccessVec<u64>) -> (r: bool)
    ensures
        r == query_self_conflicts(reads@, writes@),
{
    let has_intra_conflict = any_in_vec(writes.as_slice(), reads);
    let has_duplicate = has_duplicate_writes(writes.as_slice());
    has_intra_conflict || has_duplicate
}

/// Registers a query parameter's accesses with its system. A query that
/// conflicts with itself is refused; so is one that collides with an earlier
/// query of the same system unless their `With`/`Without` filters make them
/// disjoint. When refused, the system's accesses are left as they were.
pub fn init_query_access(
    system_meta: &mut SystemMeta,
    reads: &AccessVec<u64>,
    writes: &AccessVec<u64>,
    withs: &AccessVec<u64>,
    withouts: &AccessVec<u64>,
) -> (r: Result<(), AccessConflict>)
    ensures
        r == Err::<(), AccessConflict>(AccessConflict::IntraQuery) <==> query_self_conflicts(reads@, writes@),
        r == Err::<(), AccessConflict>(AccessConflict::SystemParams) <==> !query_self_conflicts(reads@, writes@)
            && query_collides(*old(system_meta), reads@, writes@)
            && !query_disjoint(*old(system_meta), withs@, withouts@),
        (exists|x: u64| #[trigger] writes@.contains(x) && old(system_meta).component_reads().contains(x))
            && !query_self_conflicts(reads@, writes@) && !query_disjoint(*old(system_meta), withs@, withouts@)
            ==> r == Err::<(), AccessConflict>(AccessConflict::SystemParams),
        r != Err::<(), AccessConflict>(AccessConflict::ResourceBorrow),
        r is Err ==> *final(system_meta) == *old(system_meta),
        r is Ok ==> {
            &&& final(system_meta).name() == old(system_meta).name()
            &&& final(system_meta).component_reads() == seq_insert_all(old(system_meta).component_reads(), reads@)
            &&& final(system_meta).component_writes() == seq_insert_all(old(system_meta).component_writes(), writes@)
            &&& final(system_meta).with_filters() == seq_insert_all(old(system_meta).with_filters(), withs@)
            &&& final(system_meta).without_filters() == seq_insert_all(old(system_meta).without_filters(), withouts@)
            &&& final(system_meta).resource_reads() == old(system_meta).resource_reads()
            &&& final(system_meta).resource_writes() == old(system_meta).resource_writes()
        },
{
    proof {
        lemma_overlaps_shared_id(writes@, old(system_meta).component_reads());
    }
    if check_query_conflicts(reads, writes) {
        return Err(AccessConflict::IntraQuery);
    }
    let mut has_inter_conflict = any_in_set(writes.as_slice(), &system_meta.component_writes)
        || any_in_set(writes.as_slice(), &system_meta.component_reads);
    if !has_inter_conflict {
        has_inter_conflict = any_in_set(reads.as_slice(), &system_meta.component_writes);
    }
    if has_inter_conflict {
        let is_disjoint = any_in_set(withouts.as_slice(), &system_meta.with_filters)
            || any_in_set(withs.as_slice(), &system_meta.without_filters);
        if !is_disjoint {
            return Err(AccessConflict::SystemParams);
        }
    }
    system_meta.component_reads.insert_all(reads.as_slice());
    system_meta.component_writes.insert_all(writes.as_slice());
    system_meta.with_filters.insert_all(withs.as_slice());
    system_meta.without_filters.insert_all(withouts.as_slice());
    Ok(())
}

/// Registers a shared borrow of a resource (`Res`, `NonSend`, or their
/// optional forms). Refused when the system already borrows it mutably.
pub fn init_resource_read_access(system_meta: &mut SystemMeta, res_id: u64) -> (r: Result<(), AccessConflict>)
    ensures
        r is Err <==> old(system_meta).resource_writes().contains(res_id),
        r is Err ==> r == Err::<(), AccessConflict>(AccessConflict::ResourceBorrow) && *final(system_meta) == *old(system_meta),
        r is Ok ==> final(system_meta).resource_reads() == seq_insert(old(system_meta).resource_reads(), res_id)
            && same_except_resource_reads(*old(system_meta), *final(system_meta)),
{
    if system_meta.has_resource_write(&res_id) {
        return Err(AccessConflict::ResourceBorrow);
    }
    system_meta.add_resource_read(res_id);
    Ok(())
}

/// Registers a mutable borrow of a resource (`ResMut`, `NonSendMut`, or
/// their optional forms). Refused when the system already borrows it in
/// any way.
pub fn init_resource_write_access(system_meta: &mut SystemMeta, res_id: u64) -> (r: Result<(), AccessConflict>)
    ensures
        r is Err <==> old(system_meta).resource_writes().contains(res_id)
            || old(system_meta).resource_reads().contains(res_id),
        r is Err ==> r == Err::<(), AccessConflict>(AccessConflict::ResourceBorrow) && *final(system_meta) == *old(system_meta),
        r is Ok ==> final(system_meta).resource_writes() == seq_insert(old(system_meta).resource_writes(), res_id)
            && same_except_resource_writes(*old(system_meta), *final(system_meta)),
{
    if system_meta.has_resource_write(&res_id) || system_meta.has_resource_read(&res_id) {
        return Err(AccessConflict::ResourceBorrow);
    }
    system_meta.add_resource_write(res_id);
    Ok(())
}

} // verus!
