use vstd::prelude::*;

use crate::schedule::{ScheduleId, ScheduleOrderError};

verus! {

/// The schedule id that `Startup` carries; it takes no part in dynamic ordering.
pub open spec fn spec_startup_id() -> ScheduleId {
    ScheduleId { id: crate::schedule::STARTUP_ID }
}

/// The schedule id that `CleanupHandles` carries; it takes no part in dynamic ordering.
pub open spec fn spec_cleanup_id() -> ScheduleId {
    ScheduleId { id: crate::schedule::CLEANUP_HANDLES_ID }
}

/// `ord` lists exactly the schedules of `ids`, each once, and every
/// constraint `(before, after)` has `before` placed ahead of `after`.
pub open spec fn is_schedule_order(
    ids: Seq<ScheduleId>,
    constraints: Seq<(ScheduleId, ScheduleId)>,
    ord: Seq<ScheduleId>,
) -> bool {
    &&& ord.len() == ids.len()
    &&& ord.no_duplicates()
    &&& forall|i: int| 0 <= i < ids.len() ==> #[trigger] ord.contains(ids[i])
    &&& forall|c: int|
        #![trigger constraints[c]]
        0 <= c < constraints.len() ==> placed_before(ord, constraints[c].0, constraints[c].1)
}

/// `a` occurs in `ord` at some position ahead of `b`.
pub open spec fn placed_before(ord: Seq<ScheduleId>, a: ScheduleId, b: ScheduleId) -> bool {
    exists|i: int, j: int| 0 <= i < j < ord.len() && #[trigger] ord[i] == a && #[trigger] ord[j] == b
}

/// The schedules that `perm` picks out of `ids`, in `perm`'s order.
pub open spec fn pick(ids: Seq<ScheduleId>, perm: Seq<usize>) -> Seq<ScheduleId> {
    perm.map_values(|i: usize| ids[i as int])
}

/// Position `j` holds the first schedule id that already occurred before it.
pub open spec fn first_duplicate_at(ids: Seq<ScheduleId>, j: int) -> bool {
    &&& 0 <= j < ids.len()
    &&& ids.take(j).contains(ids[j])
    &&& ids.take(j).no_duplicates()
}

/// What an ordering constraint is refused for, checked in the order the
/// engine checks it: the `Startup` root, then `CleanupHandles`, then the
/// `before` schedule, then the `after` schedule being registered.
pub open spec fn constraint_error(
    ids: Seq<ScheduleId>,
    c: (ScheduleId, ScheduleId),
) -> Option<ScheduleOrderError> {
    if c.0 == spec_startup_id() || c.1 == spec_startup_id() {
        Some(ScheduleOrderError::OrderingReferencesStartup)
    } else if c.0 == spec_cleanup_id() || c.1 == spec_cleanup_id() {
        Some(ScheduleOrderError::OrderingReferencesCleanupHandles)
    } else if !ids.contains(c.0) {
        Some(ScheduleOrderError::UnregisteredSchedule(c.0))
    } else if !ids.contains(c.1) {
        Some(ScheduleOrderError::UnregisteredSchedule(c.1))
    } else {
        None
    }
}

/// The error is one that `constraint_error` gives.
pub open spec fn is_constraint_error(e: ScheduleOrderError) -> bool {
    ||| e is OrderingReferencesStartup
    ||| e is OrderingReferencesCleanupHandles
    ||| e is UnregisteredSchedule
}

/// `ord` lists every registered schedule outside `trapped`, each once and
/// nothing else, and satisfies every constraint into such a schedule.
pub open spec fn orders_untrapped(
    ids: Seq<ScheduleId>,
    constraints: Seq<(ScheduleId, ScheduleId)>,
    trapped: Seq<ScheduleId>,
    ord: Seq<ScheduleId>,
) -> bool {
    &&& ord.no_duplicates()
    &&& forall|i: int| 0 <= i < ids.len() && !trapped.contains(ids[i]) ==> #[trigger] ord.contains(ids[i])
    &&& forall|r: int| 0 <= r < ord.len() ==> ids.contains(#[trigger] ord[r]) && !trapped.contains(ord[r])
    &&& forall|c: int|
        #![trigger constraints[c]]
        0 <= c < constraints.len() && !trapped.contains(constraints[c].1) ==> placed_before(
            ord,
            constraints[c].0,
            constraints[c].1,
        )
}

/// `trapped` is exactly the schedules that no order can place: each once,
/// all registered, everything a trapped schedule must precede trapped too,
/// each trapped schedule waiting on another trapped one, and the rest
/// ordered.
pub open spec fn is_trapped_set(
    ids: Seq<ScheduleId>,
    constraints: Seq<(ScheduleId, ScheduleId)>,
    trapped: Seq<ScheduleId>,
) -> bool {
    &&& trapped.no_duplicates()
    &&& forall|i: int| 0 <= i < trapped.len() ==> ids.contains(#[trigger] trapped[i])
    &&& forall|c: int|
        #![trigger constraints[c]]
        0 <= c < constraints.len() && trapped.contains(constraints[c].0) ==> trapped.contains(constraints[c].1)
    &&& forall|i: int| 0 <= i < trapped.len() ==> waits_on_trapped(constraints, trapped, #[trigger] trapped[i])
    &&& exists|ord: Seq<ScheduleId>| orders_untrapped(ids, constraints, trapped, ord)
}

/// Some constraint makes `x` wait on a schedule in `trapped`.
pub open spec fn waits_on_trapped(
    constraints: Seq<(ScheduleId, ScheduleId)>,
    trapped: Seq<ScheduleId>,
    x: ScheduleId,
) -> bool {
    exists|c: int|
        #![trigger constraints[c]]
        0 <= c < constraints.len() && constraints[c].1 == x && trapped.contains(constraints[c].0)
}

/// In an order of the schedules outside `t2`, no schedule of `t1` outside
/// `t2` sits at rank `k` or below: it would wait on one of `t1` ranked lower.
proof fn lemma_trapped_rank(
    constraints: Seq<(ScheduleId, ScheduleId)>,
    t1: Seq<ScheduleId>,
    t2: Seq<ScheduleId>,
    ids: Seq<ScheduleId>,
    ord: Seq<ScheduleId>,
    k: int,
)
    requires
        orders_untrapped(ids, constraints, t2, ord),
        forall|i: int| 0 <= i < t1.len() ==> waits_on_trapped(constraints, t1, #[trigger] t1[i]),
    ensures
        forall|r: int|
            0 <= r < ord.len() && t1.contains(#[trigger] ord[r]) && !t2.contains(ord[r]) ==> r > k,
    decreases k + 1,
{
    if k >= 0 {
        lemma_trapped_rank(constraints, t1, t2, ids, ord, k - 1);
        assert forall|r: int|
            0 <= r < ord.len() && t1.contains(#[trigger] ord[r]) && !t2.contains(ord[r]) implies r > k by {
            if r == k {
                let y = ord[r];
                let i1 = choose|i1: int| 0 <= i1 < t1.len() && t1[i1] == y;
                assert(waits_on_trapped(constraints, t1, t1[i1]));
                let c = choose|c: int|
                    #![trigger constraints[c]]
                    0 <= c < constraints.len() && constraints[c].1 == y && t1.contains(constraints[c].0);
                assert(placed_before(ord, constraints[c].0, constraints[c].1));
                let (i, j) = choose|i: int, j: int|
                    0 <= i < j < ord.len() && #[trigger] ord[i] == constraints[c].0 && #[trigger] ord[j]
                        == constraints[c].1;
                assert(j == r) by {
                    if j != r {
                        assert(ord[j] == ord[r]);
                    }
                }
                assert(!t2.contains(ord[i]));
                assert(t1.contains(ord[i]));
            }
        }
    }
}

/// Constraints leave at most one trapped set: any two agree on which
/// schedules are trapped.
pub proof fn lemma_trapped_set_unique(
    ids: Seq<ScheduleId>,
    constraints: Seq<(ScheduleId, ScheduleId)>,
    t1: Seq<ScheduleId>,
    t2: Seq<ScheduleId>,
)
    requires
        is_trapped_set(ids, constraints, t1),
        is_trapped_set(ids, constraints, t2),
    ensures
        t1.to_set() == t2.to_set(),
{
    let o1 = choose|o: Seq<ScheduleId>| orders_untrapped(ids, constraints, t1, o);
    let o2 = choose|o: Seq<ScheduleId>| orders_untrapped(ids, constraints, t2, o);
    lemma_trapped_rank(constraints, t1, t2, ids, o2, o2.len() as int);
    lemma_trapped_rank(constraints, t2, t1, ids, o1, o1.len() as int);
    assert forall|x: ScheduleId| t1.contains(x) implies t2.contains(x) by {
        if !t2.contains(x) {
            let i = choose|i: int| 0 <= i < t1.len() && t1[i] == x;
            assert(ids.contains(t1[i]));
            let z = choose|z: int| 0 <= z < ids.len() && ids[z] == x;
            assert(o2.contains(ids[z]));
            let r = choose|r: int| 0 <= r < o2.len() && o2[r] == x;
            assert(t1.contains(o2[r]));
        }
    }
    assert forall|x: ScheduleId| t2.contains(x) implies t1.contains(x) by {
        if !t1.contains(x) {
            let i = choose|i: int| 0 <= i < t2.len() && t2[i] == x;
            assert(ids.contains(t2[i]));
            let z = choose|z: int| 0 <= z < ids.len() && ids[z] == x;
            assert(o1.contains(ids[z]));
            let r = choose|r: int| 0 <= r < o1.len() && o1[r] == x;
            assert(t2.contains(o1[r]));
        }
    }
    assert(t1.to_set() =~= t2.to_set());
}

/// Why `order_schedules` refuses `ids` and `constraints` with `e`: the first
/// duplicate registration, the first refused constraint, or constraints that
/// no order satisfies, with schedules that could not be placed.
pub open spec fn order_refusal(
    ids: Seq<ScheduleId>,
    constraints: Seq<(ScheduleId, ScheduleId)>,
    e: ScheduleOrderError,
) -> bool {
    match e {
        ScheduleOrderError::DuplicateSchedule(x) => exists|j: int| first_duplicate_at(ids, j) && x == ids[j],
        ScheduleOrderError::CircularDependency(trapped) => {
            &&& ids.no_duplicates()
            &&& constraints_ok_upto(ids, constraints, constraints.len() as int)
            &&& trapped@.len() > 0
            &&& is_trapped_set(ids, constraints, trapped@)
            &&& forall|ord: Seq<ScheduleId>| !is_schedule_order(ids, constraints, ord)
        },
        _ => {
            &&& ids.no_duplicates()
            &&& exists|k: int|
                0 <= k < constraints.len() && constraints_ok_upto(ids, constraints, k)
                    && constraint_error(ids, constraints[k]) == Some(e)
        },
    }
}

/// Every constraint before position `k` is accepted.
pub open spec fn constraints_ok_upto(
    ids: Seq<ScheduleId>,
    constraints: Seq<(ScheduleId, ScheduleId)>,
    k: int,
) -> bool {
    forall|i: int| 0 <= i < k ==> #[trigger] constraint_error(ids, constraints[i]) is None
}

/// Edge `c` joins the positions in `ids` of constraint `c`'s two schedules.
spec fn edges_match(
    ids: Seq<ScheduleId>,
    constraints: Seq<(ScheduleId, ScheduleId)>,
    edges: Seq<(usize, usize)>,
) -> bool {
    &&& edges.len() == constraints.len()
    &&& forall|c: int|
        #![trigger edges[c]]
        0 <= c < edges.len() ==> (edges[c].0 as int) < ids.len() && (edges[c].1 as int) < ids.len()
            && ids[edges[c].0 as int] == constraints[c].0 && ids[edges[c].1 as int] == constraints[c].1
}

/// Edges into `v` whose source is not yet in `done`.
spec fn pending_into(edges: Seq<(usize, usize)>, done: Set<int>, v: int) -> nat
    decreases edges.len(),
{
    if edges.len() == 0 {
        0
    } else {
        let e = edges.last();
        pending_into(edges.drop_last(), done, v) + if e.1 as int == v && !done.contains(
            e.0 as int,
        ) {
            1nat
        } else {
            0nat
        }
    }
}

/// Edges from `u` to `v`.
spec fn edges_between(edges: Seq<(usize, usize)>, u: int, v: int) -> nat
    decreases edges.len(),
{
    if edges.len() == 0 {
        0
    } else {
        let e = edges.last();
        edges_between(edges.drop_last(), u, v) + if e.0 as int == u && e.1 as int == v {
            1nat
        } else {
            0nat
        }
    }
}

/// How often `v` occurs in `s`.
spec fn occurrences(s: Seq<usize>, v: int) -> nat
    decreases s.len(),
{
    if s.len() == 0 {
        0
    } else {
        occurrences(s.drop_last(), v) + if s.last() as int == v {
            1nat
        } else {
            0nat
        }
    }
}

proof fn lemma_pending_bound(edges: Seq<(usize, usize)>, done: Set<int>, v: int)
    ensures
        pending_into(edges, done, v) <= edges.len(),
    decreases edges.len(),
{
    if edges.len() > 0 {
        lemma_pending_bound(edges.drop_last(), done, v);
    }
}

proof fn lemma_pending_pop(edges: Seq<(usize, usize)>, done: Set<int>, u: int, v: int)
    requires
        !done.contains(u),
    ensures
        pending_into(edges, done, v) == pending_into(edges, done.insert(u), v) + edges_between(
            edges,
            u,
            v,
        ),
    decreases edges.len(),
{
    if edges.len() > 0 {
        lemma_pending_pop(edges.drop_last(), done, u, v);
    }
}

proof fn lemma_pending_zero(edges: Seq<(usize, usize)>, done: Set<int>, v: int)
    requires
        pending_into(edges, done, v) == 0,
    ensures
        forall|i: int|
            0 <= i < edges.len() && #[trigger] edges[i].1 as int == v ==> done.contains(
                edges[i].0 as int,
            ),
    decreases edges.len(),
{
    if edges.len() > 0 {
        lemma_pending_zero(edges.drop_last(), done, v);
        assert forall|i: int|
            0 <= i < edges.len() && #[trigger] edges[i].1 as int == v implies done.contains(
            edges[i].0 as int,
        ) by {
            if i < edges.len() - 1 {
                assert(edges.drop_last()[i] == edges[i]);
            }
        }
    }
}

proof fn lemma_pending_positive(edges: Seq<(usize, usize)>, done: Set<int>, v: int) -> (i: int)
    requires
        pending_into(edges, done, v) > 0,
    ensures
        0 <= i < edges.len(),
        edges[i].1 as int == v,
        !done.contains(edges[i].0 as int),
    decreases edges.len(),
{
    let e = edges.last();
    if e.1 as int == v && !done.contains(e.0 as int) {
        edges.len() - 1
    } else {
        let i = lemma_pending_positive(edges.drop_last(), done, v);
        assert(edges.drop_last()[i] == edges[i]);
        i
    }
}

proof fn lemma_occurrences_take(s: Seq<usize>, j: int, v: int)
    requires
        0 <= j < s.len(),
    ensures
        occurrences(s.take(j + 1), v) == occurrences(s.take(j), v) + if s[j] as int == v {
            1nat
        } else {
            0nat
        },
{
    assert(s.take(j + 1).drop_last() =~= s.take(j));
}

proof fn lemma_occurrences_take_le(s: Seq<usize>, j: int, v: int)
    requires
        0 <= j <= s.len(),
    ensures
        occurrences(s.take(j), v) <= occurrences(s, v),
    decreases s.len() - j,
{
    if j < s.len() {
        lemma_occurrences_take(s, j, v);
        lemma_occurrences_take_le(s, j + 1, v);
    } else {
        assert(s.take(j) =~= s);
    }
}

/// A cycle among the trapped schedules rules out every order: a trapped
/// schedule at the lowest rank would need a trapped predecessor ranked lower.
proof fn lemma_trapped_rank_above(
    ids: Seq<ScheduleId>,
    constraints: Seq<(ScheduleId, ScheduleId)>,
    edges: Seq<(usize, usize)>,
    trapped: Set<int>,
    ord: Seq<ScheduleId>,
    k: int,
)
    requires
        is_schedule_order(ids, constraints, ord),
        edges.len() == constraints.len(),
        forall|c: int|
            #![trigger edges[c]]
            0 <= c < edges.len() ==> (edges[c].0 as int) < ids.len() && (edges[c].1 as int)
                < ids.len() && ids[edges[c].0 as int] == constraints[c].0 && ids[edges[c].1 as int]
                == constraints[c].1,
        forall|x: int|
            #![trigger trapped.contains(x)]
            trapped.contains(x) ==> 0 <= x < ids.len() && exists|c: int|
                0 <= c < edges.len() && edges[c].1 as int == x && #[trigger] trapped.contains(
                    edges[c].0 as int,
                ),
    ensures
        forall|x: int, r: int|
            #[trigger] trapped.contains(x) && 0 <= r < ord.len() && #[trigger] ord[r] == ids[x] ==> r > k,
    decreases k + 1,
{
    if k >= 0 {
        lemma_trapped_rank_above(ids, constraints, edges, trapped, ord, k - 1);
        assert forall|x: int, r: int|
            #[trigger] trapped.contains(x) && 0 <= r < ord.len() && #[trigger] ord[r] == ids[x] implies r
            > k by {
            if r == k {
                let c = choose|c: int|
                    0 <= c < edges.len() && edges[c].1 as int == x && #[trigger] trapped.contains(
                        edges[c].0 as int,
                    );
                let (i, j) = choose|i: int, j: int|
                    0 <= i < j < ord.len() && #[trigger] ord[i] == constraints[c].0
                        && #[trigger] ord[j] == constraints[c].1;
                assert(ord[j] == ids[x]);
                assert(j == r) by {
                    if j != r {
                        assert(ord[j] == ord[r]);
                    }
                }
                assert(ord[i] == ids[edges[c].0 as int]);
            }
        }
    }
}

/// Position of the first schedule registered twice, if any.
fn first_duplicate(ids: &Vec<ScheduleId>) -> (r: Option<usize>)
    ensures
        r matches Some(j) ==> first_duplicate_at(ids@, j as int),
        r is None ==> ids@.no_duplicates(),
{
    let n = ids.len();
    let mut j: usize = 0;
    while j < n
        invariant
            j <= n == ids@.len(),
            forall|a: int, b: int| 0 <= a < b < j ==> #[trigger] ids@[a] != #[trigger] ids@[b],
        decreases n - j,
    {
        let mut i: usize = 0;
        while i < j
            invariant
                i <= j < n == ids@.len(),
                forall|t: int| 0 <= t < i ==> ids@[t] != ids@[j as int],
                forall|a: int, b: int| 0 <= a < b < j ==> #[trigger] ids@[a] != #[trigger] ids@[b],
            decreases j - i,
        {
            if ids[i] == ids[j] {
                proof {
                    let pre = ids@.take(j as int);
                    assert(pre[i as int] == ids@[j as int]);
                    assert forall|a: int, b: int| 0 <= a < pre.len() && 0 <= b < pre.len() && a != b
                        implies #[trigger] pre[a] != #[trigger] pre[b] by {
                        if a < b {
                            assert(ids@[a] != ids@[b]);
                        } else {
                            assert(ids@[b] != ids@[a]);
                        }
                    }
                    assert(first_duplicate_at(ids@, j as int));
                    assert(ids@[i as int] == ids@[j as int]);
                }
                return Some(j);
            }
            i += 1;
        }
        j += 1;
    }
    assert(ids@.no_duplicates()) by {
        assert forall|a: int, b: int| 0 <= a < n && 0 <= b < n && a != b implies #[trigger] ids@[a]
            != #[trigger] ids@[b] by {
            if a < b {
            } else {
            }
        }
    }

    None
}

/// Orders registered schedules so that every `(before, after)` constraint
/// runs `before` first, the way the app arranges its schedules when it is
/// built: duplicate schedules and constraints that name `Startup`,
/// `CleanupHandles` or an unregistered schedule are refused, and so is a
/// set of constraints that no order can satisfy.
///
/// On success the result lists positions into `ids`.
#[verifier::spinoff_prover]
#[verifier::rlimit(30)]
pub fn order_schedules(
    ids: &Vec<ScheduleId>,
    constraints: &Vec<(ScheduleId, ScheduleId)>,
) -> (r: Result<Vec<usize>, ScheduleOrderError>)
    ensures
        (r is Err && r->Err_0 is DuplicateSchedule) <==> !ids@.no_duplicates(),
        r matches Err(ScheduleOrderError::DuplicateSchedule(x)) ==> exists|j: int|
            first_duplicate_at(ids@, j) && x == ids@[j],
        ids@.no_duplicates() ==> ((r is Err && is_constraint_error(r->Err_0)) <==> !constraints_ok_upto(
            ids@,
            constraints@,
            constraints@.len() as int,
        )),
        r is Err && is_constraint_error(r->Err_0) ==> exists|k: int|
            0 <= k < constraints@.len() && constraints_ok_upto(ids@, constraints@, k)
                && constraint_error(ids@, constraints@[k]) == Some(r->Err_0),
        r matches Ok(perm) ==> {
            &&& ids@.no_duplicates()
            &&& constraints_ok_upto(ids@, constraints@, constraints@.len() as int)
            &&& forall|i: int| 0 <= i < perm@.len() ==> perm@[i] < ids@.len()
            &&& is_schedule_order(ids@, constraints@, pick(ids@, perm@))
        },
        r matches Err(ScheduleOrderError::CircularDependency(trapped)) ==> {
            &&& ids@.no_duplicates()
            &&& constraints_ok_upto(ids@, constraints@, constraints@.len() as int)
            &&& trapped@.len() > 0
            &&& is_trapped_set(ids@, constraints@, trapped@)
            &&& forall|ord: Seq<ScheduleId>| !is_schedule_order(ids@, constraints@, ord)
        },
{
    let n = ids.len();
    // duplicates, in registration order
    match first_duplicate(ids) {
        Some(j) => {
            return Err(ScheduleOrderError::DuplicateSchedule(ids[j]));
        },
        None => {},
    }

    // constraints become edges between positions
    let mut adj: Vec<Vec<usize>> = Vec::new();
    let mut deg: Vec<usize> = Vec::new();
    let mut t: usize = 0;
    while t < n
        invariant
            t <= n,
            adj.len() == t,
            deg.len() == t,
            forall|u: int| 0 <= u < t ==> adj@[u]@.len() == 0,
            forall|u: int| 0 <= u < t ==> deg@[u] == 0,
        decreases n - t,
    {
        adj.push(Vec::new());
        deg.push(0);
        t += 1;
    }
    let ghost empty_done: Set<int> = Set::empty();
    let mut edges: Vec<(usize, usize)> = Vec::new();
    let mut k: usize = 0;
    while k < constraints.len()
        invariant
            n == ids@.len(),
            ids@.no_duplicates(),
            empty_done == Set::<int>::empty(),
            k <= constraints@.len(),
            edges@.len() == k,
            adj.len() == n,
            deg.len() == n,
            constraints_ok_upto(ids@, constraints@, k as int),
            forall|c: int|
                #![trigger edges@[c]]
                0 <= c < k ==> (edges@[c].0 as int) < n && (edges@[c].1 as int) < n && ids@[edges@[c].0 as int]
                    == constraints@[c].0 && ids@[edges@[c].1 as int] == constraints@[c].1,
            forall|u: int, v: int|
                0 <= u < n ==> #[trigger] occurrences(adj@[u]@, v) == edges_between(edges@, u, v),
            forall|v: int| 0 <= v < n ==> #[trigger] deg@[v] == pending_into(edges@, empty_done, v),
        decreases constraints@.len() - k,
    {
        let (before, after) = constraints[k];
        let startup = ScheduleId { id: crate::schedule::STARTUP_ID };
        let cleanup = ScheduleId { id: crate::schedule::CLEANUP_HANDLES_ID };
        if before == startup || after == startup {
            return Err(ScheduleOrderError::OrderingReferencesStartup);
        }
        if before == cleanup || after == cleanup {
            return Err(ScheduleOrderError::OrderingReferencesCleanupHandles);
        }
        let mut a: usize = 0;
        while a < n && ids[a] != before
            invariant
                a <= n == ids@.len(),
                forall|x: int| 0 <= x < a ==> ids@[x] != before,
            decreases n - a,
        {
            a += 1;
        }
        if a == n {
            proof {
                assert(!ids@.contains(before));
            }
            return Err(ScheduleOrderError::UnregisteredSchedule(before));
        }
        let mut b: usize = 0;
        while b < n && ids[b] != after
            invariant
                b <= n == ids@.len(),
                forall|x: int| 0 <= x < b ==> ids@[x] != after,
            decreases n - b,
        {
            b += 1;
        }
        if b == n {
            proof {
                assert(ids@.contains(before));
                assert(!ids@.contains(after));
            }
            return Err(ScheduleOrderError::UnregisteredSchedule(after));
        }
        proof {
            assert(ids@.contains(before));
            assert(ids@.contains(after));
            assert(constraint_error(ids@, constraints@[k as int]) is None);
            lemma_pending_bound(edges@, empty_done, b as int);
        }
        let ghost old_edges = edges@;
        let ghost old_adj = adj@;
        let ghost old_deg = deg@;
        edges.push((a, b));
        adj[a].push(b);
        let d = deg[b];
        deg.set(b, d + 1);
        proof {
            assert(edges@.drop_last() =~= old_edges);
            assert forall|u: int, v: int| 0 <= u < n implies #[trigger] occurrences(
                adj@[u]@,
                v,
            ) == edges_between(edges@, u, v) by {
                assert(occurrences(old_adj[u]@, v) == edges_between(old_edges, u, v));
                if u == a {
                    assert(adj@[u]@.drop_last() =~= old_adj[u]@);
                } else {
                    assert(adj@[u] == old_adj[u]);
                }
            }
            assert forall|v: int| 0 <= v < n implies #[trigger] deg@[v] == pending_into(
                edges@,
                empty_done,
                v,
            ) by {
                assert(old_deg[v] == pending_into(old_edges, empty_done, v));
                assert(edges@.last() == (a, b));
                assert(!empty_done.contains(a as int));
                assert(pending_into(edges@, empty_done, v) == pending_into(old_edges, empty_done, v)
                    + if b as int == v { 1nat } else { 0nat });
                if v != b {
                    assert(deg@[v] == old_deg[v]);
                }
            }
            assert forall|i: int| 0 <= i < k + 1 implies #[trigger] constraint_error(
                ids@,
                constraints@[i],
            ) is None by {}
        }
        k += 1;
    }

    assert(edges_match(ids@, constraints@, edges@));
    // Kahn's algorithm: `order[..head]` is done, `order[head..]` waits its turn
    let ghost mut pos: Seq<int> = Seq::new(n as nat, |x: int| -1);
    let mut order: Vec<usize> = Vec::new();
    let mut x: usize = 0;
    while x < n
        invariant
            ids@.no_duplicates(),
            edges_match(ids@, constraints@, edges@),
            constraints_ok_upto(ids@, constraints@, constraints@.len() as int),
            x <= n == ids@.len(),
            deg.len() == n,
            pos.len() == n,
            order@.len() <= x,
            forall|i: int| 0 <= i < order@.len() ==> (#[trigger] order@[i] as int) < x && pos[order@[i] as int] == i,
            forall|y: int|
                0 <= y < n ==> (#[trigger] pos[y] == -1 || (0 <= pos[y] < order@.len() && order@[pos[y]] == y)),
            forall|y: int| 0 <= y < x ==> (pos[y] >= 0 <==> #[trigger] deg@[y] == 0),
            forall|y: int| x <= y < n ==> #[trigger] pos[y] == -1,
        decreases n - x,
    {
        if deg[x] == 0 {
            proof {
                pos = pos.update(x as int, order@.len() as int);
            }
            order.push(x);
        }
        x += 1;
    }
    let mut head: usize = 0;
    let ghost mut done: Set<int> = Set::empty();
    proof {
        assert(done =~= empty_done);
        assert forall|c: int|
            0 <= c < edges@.len() && #[trigger] pos[edges@[c].1 as int] >= 0 implies 0 <= pos[edges@[c].0 as int]
                < pos[edges@[c].1 as int] by {
            let v = edges@[c].1 as int;
            assert(deg@[v] == 0);
            lemma_pending_zero(edges@, empty_done, v);
        }
    }
    while head < order.len()
        invariant
            ids@.no_duplicates(),
            edges_match(ids@, constraints@, edges@),
            constraints_ok_upto(ids@, constraints@, constraints@.len() as int),
            n == ids@.len(),
            adj.len() == n,
            deg.len() == n,
            pos.len() == n,
            head <= order@.len() <= n,
            edges@.len() == constraints@.len(),
            forall|c: int|
                #![trigger edges@[c]]
                0 <= c < edges@.len() ==> (edges@[c].0 as int) < n && (edges@[c].1 as int) < n,
            forall|u: int, v: int|
                0 <= u < n ==> #[trigger] occurrences(adj@[u]@, v) == edges_between(edges@, u, v),
            forall|i: int| 0 <= i < order@.len() ==> (#[trigger] order@[i] as int) < n && pos[order@[i] as int] == i,
            forall|y: int|
                0 <= y < n ==> (#[trigger] pos[y] == -1 || (0 <= pos[y] < order@.len() && order@[pos[y]] == y)),
            forall|y: int| 0 <= y < n ==> (pos[y] >= 0 <==> #[trigger] deg@[y] == 0),
            forall|y: int| 0 <= y < n ==> #[trigger] deg@[y] == pending_into(edges@, done, y),
            forall|y: int| #[trigger] done.contains(y) <==> 0 <= y < n && 0 <= pos[y] < head,
            forall|c: int|
                0 <= c < edges@.len() && #[trigger] pos[edges@[c].1 as int] >= 0 ==> 0 <= pos[edges@[c].0 as int]
                    < pos[edges@[c].1 as int],
        decreases n - head,
    {
        let u = order[head];
        let ghost done_before = done;
        proof {
            assert(!done.contains(u as int));
            done = done.insert(u as int);
            assert forall|v: int| 0 <= v < n implies pending_into(edges@, done_before, v)
                == pending_into(edges@, done, v) + edges_between(edges@, u as int, v) by {
                lemma_pending_pop(edges@, done_before, u as int, v);
            }
        }
        head += 1;
        let len_u = adj[u].len();
        let mut q: usize = 0;
        while q < len_u
            invariant
                ids@.no_duplicates(),
                edges_match(ids@, constraints@, edges@),
                constraints_ok_upto(ids@, constraints@, constraints@.len() as int),
                n == ids@.len(),
                adj.len() == n,
                deg.len() == n,
                pos.len() == n,
                (u as int) < n,
                len_u == adj@[u as int]@.len(),
                q <= len_u,
                head <= order@.len() <= n,
                edges@.len() == constraints@.len(),
                forall|c: int|
                    #![trigger edges@[c]]
                    0 <= c < edges@.len() ==> (edges@[c].0 as int) < n && (edges@[c].1 as int) < n,
                forall|w: int, v: int|
                    0 <= w < n ==> #[trigger] occurrences(adj@[w]@, v) == edges_between(edges@, w, v),
                forall|i: int| 0 <= i < order@.len() ==> (#[trigger] order@[i] as int) < n && pos[order@[i] as int] == i,
                forall|y: int|
                    0 <= y < n ==> (#[trigger] pos[y] == -1 || (0 <= pos[y] < order@.len() && order@[pos[y]] == y)),
                forall|y: int| 0 <= y < n ==> (pos[y] >= 0 <==> #[trigger] deg@[y] == 0),
                forall|y: int|
                    0 <= y < n ==> #[trigger] deg@[y] + occurrences(adj@[u as int]@.take(q as int), y)
                        == pending_into(edges@, done_before, y),
                forall|y: int|
                    0 <= y < n ==> pending_into(edges@, done_before, y) == pending_into(edges@, done, y)
                        + edges_between(edges@, u as int, y),
                done == done_before.insert(u as int),
                forall|y: int| #[trigger] done.contains(y) <==> 0 <= y < n && 0 <= pos[y] < head,
                forall|c: int|
                    0 <= c < edges@.len() && #[trigger] pos[edges@[c].1 as int] >= 0 ==> 0 <= pos[edges@[c].0 as int]
                        < pos[edges@[c].1 as int],
            decreases len_u - q,
        {
            let w = adj[u][q];
            proof {
                assert(adj@[u as int]@[q as int] == w);
                assert(occurrences(adj@[u as int]@, w as int) == edges_between(edges@, u as int, w as int));
                assert((w as int) < n) by {
                    if (w as int) >= n {
                        lemma_occurrences_take(adj@[u as int]@, q as int, w as int);
                        lemma_occurrences_take_le(adj@[u as int]@, q as int + 1, w as int);
                        assert(edges_between(edges@, u as int, w as int) > 0);
                        lemma_edges_between_positive(edges@, u as int, w as int);
                    }
                }
                lemma_occurrences_take(adj@[u as int]@, q as int, w as int);
                lemma_occurrences_take_le(adj@[u as int]@, q as int + 1, w as int);
                assert(deg@[w as int] >= 1);
            }
            let d = deg[w] - 1;
            let ghost old_deg = deg@;
            deg.set(w, d);
            proof {
                assert forall|y: int| 0 <= y < n implies #[trigger] deg@[y] + occurrences(
                    adj@[u as int]@.take(q as int + 1),
                    y,
                ) == pending_into(edges@, done_before, y) by {
                    lemma_occurrences_take(adj@[u as int]@, q as int, y);
                    if y != w as int {
                        assert(deg@[y] == old_deg[y]);
                    }
                }
            }
            if d == 0 {
                proof {
                    // every edge into `w` now starts at a done schedule
                    lemma_occurrences_take_le(adj@[u as int]@, q as int + 1, w as int);
                    assert(pending_into(edges@, done, w as int) == 0);
                    lemma_pending_zero(edges@, done, w as int);
                    assert(pos[w as int] == -1);
                    lemma_placed_fewer(order@, pos, n as int, w as int);
                    pos = pos.update(w as int, order@.len() as int);
                    assert forall|y: int| #[trigger] done.contains(y) <==> 0 <= y < n && 0 <= pos[y]
                        < head by {
                        if y == w as int {
                            assert(old_deg[y] >= 1);
                        }
                    }
                }
                order.push(w);
                proof {
                    assert forall|c: int|
                        0 <= c < edges@.len() && #[trigger] pos[edges@[c].1 as int] >= 0 implies 0
                        <= pos[edges@[c].0 as int] < pos[edges@[c].1 as int] by {
                        if edges@[c].1 == w {
                            assert(done.contains(edges@[c].0 as int));
                        } else if edges@[c].0 == w {
                            assert(old_deg[w as int] >= 1);
                        }
                    }
                }
            }
            q += 1;
        }
        proof {
            assert(adj@[u as int]@.take(len_u as int) =~= adj@[u as int]@);
        }
    }

    // schedules never released sit on a cycle
    let trapped = collect_trapped(ids, &deg);
    if trapped.len() > 0 {
        proof {
            let tz = choose|tz: Seq<int>| trapped_positions(ids@, deg@, trapped@, tz);
            lemma_trapped_set(ids@, constraints@, edges@, trapped@, tz, deg@, pos, order@, done);
        }
        return Err(ScheduleOrderError::CircularDependency(trapped));
    }
    proof {
        lemma_order_complete(ids@, constraints@, edges@, order@, pos, deg@);
    }
    Ok(order)
}

/// `trapped` lists, in order, the ids at positions `tz`: increasing
/// positions whose count of pending constraints is not zero.
spec fn trapped_positions(ids: Seq<ScheduleId>, deg: Seq<usize>, trapped: Seq<ScheduleId>, tz: Seq<int>) -> bool {
    &&& tz.len() == trapped.len()
    &&& forall|i: int| 0 <= i < tz.len() ==> 0 <= #[trigger] tz[i] < ids.len() && deg[tz[i]] != 0 && trapped[i] == ids[tz[i]]
    &&& forall|i: int, j: int| 0 <= i < j < tz.len() ==> #[trigger] tz[i] < #[trigger] tz[j]
}

/// The schedules whose constraints are still pending, in registration order.
fn collect_trapped(ids: &Vec<ScheduleId>, deg: &Vec<usize>) -> (trapped: Vec<ScheduleId>)
    requires
        deg@.len() == ids@.len(),
    ensures
        exists|tz: Seq<int>| trapped_positions(ids@, deg@, trapped@, tz),
        forall|z: int| 0 <= z < ids@.len() && #[trigger] deg@[z] != 0 ==> trapped@.contains(ids@[z]),
        trapped@.len() == 0 ==> forall|z: int| 0 <= z < ids@.len() ==> #[trigger] deg@[z] == 0,
        trapped@.len() > 0 ==> exists|z: int| 0 <= z < ids@.len() && #[trigger] deg@[z] != 0,
{
    let n = ids.len();
    let mut trapped: Vec<ScheduleId> = Vec::new();
    let ghost mut tz: Seq<int> = Seq::empty();
    let mut y: usize = 0;
    while y < n
        invariant
            y <= n == ids@.len() == deg@.len(),
            tz.len() == trapped@.len(),
            forall|i: int| 0 <= i < tz.len() ==> 0 <= #[trigger] tz[i] < y && deg@[tz[i]] != 0 && trapped@[i] == ids@[tz[i]],
            forall|i: int, j: int| 0 <= i < j < tz.len() ==> #[trigger] tz[i] < #[trigger] tz[j],
            forall|z: int| 0 <= z < y && #[trigger] deg@[z] != 0 ==> trapped@.contains(ids@[z]),
            trapped@.len() == 0 ==> forall|z: int| 0 <= z < y ==> #[trigger] deg@[z] == 0,
            trapped@.len() > 0 ==> exists|z: int| 0 <= z < y && #[trigger] deg@[z] != 0,
        decreases n - y,
    {
        if deg[y] != 0 {
            let ghost prev = trapped@;
            trapped.push(ids[y]);
            proof {
                tz = tz.push(y as int);
                assert forall|z: int| 0 <= z < y + 1 && #[trigger] deg@[z] != 0 implies trapped@.contains(ids@[z]) by {
                    if z < y {
                        assert(prev.contains(ids@[z]));
                        let k = choose|k: int| 0 <= k < prev.len() && prev[k] == ids@[z];
                        assert(trapped@[k] == ids@[z]);
                    } else {
                        assert(trapped@[prev.len() as int] == ids@[z]);
                    }
                }
            }
        }
        y += 1;
    }
    assert(trapped_positions(ids@, deg@, trapped@, tz));
    trapped
}

/// Once every schedule is released, the release order satisfies every
/// constraint.
proof fn lemma_order_complete(
    ids: Seq<ScheduleId>,
    constraints: Seq<(ScheduleId, ScheduleId)>,
    edges: Seq<(usize, usize)>,
    order: Seq<usize>,
    pos: Seq<int>,
    deg: Seq<usize>,
)
    requires
        ids.no_duplicates(),
        edges_match(ids, constraints, edges),
        deg.len() == ids.len(),
        pos.len() == ids.len(),
        order.len() <= ids.len(),
        forall|z: int| 0 <= z < ids.len() ==> #[trigger] deg[z] == 0,
        forall|i: int| 0 <= i < order.len() ==> (#[trigger] order[i] as int) < ids.len() && pos[order[i] as int] == i,
        forall|y: int|
            0 <= y < ids.len() ==> (#[trigger] pos[y] == -1 || (0 <= pos[y] < order.len() && order[pos[y]] == y)),
        forall|y: int| 0 <= y < ids.len() ==> (pos[y] >= 0 <==> #[trigger] deg[y] == 0),
        forall|c: int|
            0 <= c < edges.len() && #[trigger] pos[edges[c].1 as int] >= 0 ==> 0 <= pos[edges[c].0 as int]
                < pos[edges[c].1 as int],
    ensures
        forall|i: int| 0 <= i < order.len() ==> order[i] < ids.len(),
        is_schedule_order(ids, constraints, pick(ids, order)),
{
    let os = order.map_values(|v: usize| v as int);
    assert forall|z: int| 0 <= z < ids.len() implies os.contains(z) by {
        assert(deg[z] == 0);
        assert(os[pos[z]] == z);
    }
    assert(os.to_set() =~= vstd::set_lib::set_int_range(0, ids.len() as int));
    assert(os.no_duplicates()) by {
        assert forall|a: int, b: int| 0 <= a < os.len() && 0 <= b < os.len() && a != b implies os[a] != os[b] by {
            assert(pos[order[a] as int] == a);
            assert(pos[order[b] as int] == b);
        }
    }
    os.unique_seq_to_set();
    vstd::set_lib::lemma_int_range(0, ids.len() as int);
    let ord = pick(ids, order);
    assert forall|i: int| 0 <= i < ids.len() implies #[trigger] ord.contains(ids[i]) by {
        assert(deg[i] == 0);
        assert(ord[pos[i]] == ids[i]);
    }
    assert(ord.no_duplicates()) by {
        assert forall|a: int, b: int| 0 <= a < ord.len() && 0 <= b < ord.len() && a != b implies ord[a] != ord[b] by {
            assert(pos[order[a] as int] == a);
            assert(pos[order[b] as int] == b);
            assert(ids[order[a] as int] != ids[order[b] as int]);
        }
    }
    assert forall|c: int| #![trigger constraints[c]] 0 <= c < constraints.len() implies placed_before(
        ord,
        constraints[c].0,
        constraints[c].1,
    ) by {
        let ea = edges[c].0 as int;
        let eb = edges[c].1 as int;
        assert(deg[eb] == 0);
        assert(0 <= pos[ea] < pos[eb] < ord.len());
        assert(ord[pos[ea]] == constraints[c].0);
        assert(ord[pos[eb]] == constraints[c].1);
    }
    assert(order.len() == ids.len());
    assert(ord.len() == ids.len());
    assert(forall|i: int| 0 <= i < order.len() ==> order[i] < ids.len());
    assert(ord.no_duplicates());
    assert(forall|i: int| 0 <= i < ids.len() ==> #[trigger] ord.contains(ids[i]));
    assert(is_schedule_order(ids, constraints, ord));
}

/// The schedules left with pending constraints form a trapped set.
proof fn lemma_trapped_set(
    ids: Seq<ScheduleId>,
    constraints: Seq<(ScheduleId, ScheduleId)>,
    edges: Seq<(usize, usize)>,
    trapped: Seq<ScheduleId>,
    tz: Seq<int>,
    deg: Seq<usize>,
    pos: Seq<int>,
    order: Seq<usize>,
    done: Set<int>,
)
    requires
        ids.no_duplicates(),
        edges_match(ids, constraints, edges),
        deg.len() == ids.len(),
        pos.len() == ids.len(),
        trapped_positions(ids, deg, trapped, tz),
        forall|z: int| 0 <= z < ids.len() && #[trigger] deg[z] != 0 ==> trapped.contains(ids[z]),
        forall|i: int| 0 <= i < order.len() ==> (#[trigger] order[i] as int) < ids.len() && pos[order[i] as int] == i,
        forall|y: int|
            0 <= y < ids.len() ==> (#[trigger] pos[y] == -1 || (0 <= pos[y] < order.len() && order[pos[y]] == y)),
        forall|y: int| 0 <= y < ids.len() ==> (pos[y] >= 0 <==> #[trigger] deg[y] == 0),
        forall|y: int| 0 <= y < ids.len() ==> #[trigger] deg[y] == pending_into(edges, done, y),
        forall|y: int| #[trigger] done.contains(y) <==> 0 <= y < ids.len() && 0 <= pos[y] < order.len(),
        forall|c: int|
            0 <= c < edges.len() && #[trigger] pos[edges[c].1 as int] >= 0 ==> 0 <= pos[edges[c].0 as int]
                < pos[edges[c].1 as int],
    ensures
        is_trapped_set(ids, constraints, trapped),
        trapped.len() > 0 ==> forall|ord: Seq<ScheduleId>| !is_schedule_order(ids, constraints, ord),
{
    let n = ids.len();
    if trapped.len() > 0 {
        let tset = Set::new(|z: int| 0 <= z < n && pos[z] == -1);
        assert forall|z: int| #![trigger tset.contains(z)] tset.contains(z) implies 0 <= z < n
            && exists|c: int|
            0 <= c < edges.len() && edges[c].1 as int == z && #[trigger] tset.contains(
                edges[c].0 as int,
            ) by {
            assert(deg[z] > 0);
            let c = lemma_pending_positive(edges, done, z);
            assert(tset.contains(edges[c].0 as int));
        }
        assert forall|ord: Seq<ScheduleId>| !is_schedule_order(ids, constraints, ord) by {
            if is_schedule_order(ids, constraints, ord) {
                lemma_trapped_rank_above(ids, constraints, edges, tset, ord, ord.len() as int);
                let z = tz[0];
                assert(deg[z] != 0);
                assert(tset.contains(z));
                assert(ord.contains(ids[z]));
                let r = choose|r: int| 0 <= r < ord.len() && ord[r] == ids[z];
                assert(ord[r] == ids[z]);
            }
        }
    }
    // a registered schedule is trapped exactly when its constraints stay pending
    assert forall|z: int| 0 <= z < n implies (#[trigger] trapped.contains(ids[z]) <==> deg[z] != 0) by {
        if trapped.contains(ids[z]) {
            let k = choose|k: int| 0 <= k < trapped.len() && trapped[k] == ids[z];
            assert(ids[tz[k]] == ids[z]);
            assert(tz[k] == z);
        }
    }
    assert(trapped.no_duplicates()) by {
        assert forall|a: int, b: int| 0 <= a < trapped.len() && 0 <= b < trapped.len() && a != b implies trapped[a] != trapped[b] by {
            if a < b {
                assert(tz[a] < tz[b]);
            } else {
                assert(tz[b] < tz[a]);
            }
        }
    }
    assert forall|i: int| 0 <= i < trapped.len() implies ids.contains(#[trigger] trapped[i]) by {
        assert(ids[tz[i]] == trapped[i]);
    }
    assert forall|c: int|
        #![trigger constraints[c]]
        0 <= c < constraints.len() && trapped.contains(constraints[c].0) implies trapped.contains(constraints[c].1) by {
        let ea = edges[c].0 as int;
        let eb = edges[c].1 as int;
        assert(ids[ea] == constraints[c].0);
        assert(ids[eb] == constraints[c].1);
        assert(deg[ea] != 0);
        assert(pos[ea] == -1);
        if pos[eb] >= 0 {
            assert(0 <= pos[ea]);
        }
        assert(deg[eb] != 0);
    }
    assert forall|i: int| 0 <= i < trapped.len() implies waits_on_trapped(constraints, trapped, #[trigger] trapped[i]) by {
        let z = tz[i];
        assert(pending_into(edges, done, z) > 0);
        let c = lemma_pending_positive(edges, done, z);
        let a = edges[c].0 as int;
        assert(!done.contains(a));
        assert(pos[a] == -1) by {
            if pos[a] != -1 {
                assert(0 <= pos[a] < order.len());
            }
        }
        assert(deg[a] != 0);
        assert(constraints[c].1 == ids[z]);
        assert(constraints[c].0 == ids[a]);
        assert(trapped.contains(ids[a]));
        assert(constraints[c].1 == trapped[i]);
    }
    let ord = pick(ids, order);
    assert(orders_untrapped(ids, constraints, trapped, ord)) by {
        assert(ord.no_duplicates()) by {
            assert forall|a: int, b: int| 0 <= a < ord.len() && 0 <= b < ord.len() && a != b implies ord[a] != ord[b] by {
                assert(pos[order[a] as int] == a);
                assert(pos[order[b] as int] == b);
                assert(ids[order[a] as int] != ids[order[b] as int]);
            }
        }
        assert forall|i: int| 0 <= i < n && !trapped.contains(ids[i]) implies #[trigger] ord.contains(ids[i]) by {
            assert(deg[i] == 0);
            assert(ord[pos[i]] == ids[i]);
        }
        assert forall|r: int| 0 <= r < ord.len() implies ids.contains(#[trigger] ord[r]) && !trapped.contains(ord[r]) by {
            let z = order[r] as int;
            assert(pos[z] == r);
            assert(deg[z] == 0);
            assert(ord[r] == ids[z]);
        }
        assert forall|c: int|
            #![trigger constraints[c]]
            0 <= c < constraints.len() && !trapped.contains(constraints[c].1) implies placed_before(
            ord,
            constraints[c].0,
            constraints[c].1,
        ) by {
            let ea = edges[c].0 as int;
            let eb = edges[c].1 as int;
            assert(ids[eb] == constraints[c].1);
            assert(deg[eb] == 0);
            assert(0 <= pos[ea] < pos[eb] < ord.len());
            assert(ord[pos[ea]] == constraints[c].0);
            assert(ord[pos[eb]] == constraints[c].1);
        }
    }
    assert(exists|o: Seq<ScheduleId>| orders_untrapped(ids, constraints, trapped, o));
}

proof fn lemma_placed_fewer(order: Seq<usize>, pos: Seq<int>, n: int, w: int)
    requires
        pos.len() == n,
        forall|i: int|
            0 <= i < order.len() ==> (#[trigger] order[i] as int) < n && pos[order[i] as int] == i,
        0 <= w < n,
        pos[w] == -1,
    ensures
        order.len() < n,
{
    let os = order.map_values(|v: usize| v as int);
    assert(os.no_duplicates()) by {
        assert forall|a: int, b: int| 0 <= a < os.len() && 0 <= b < os.len() && a != b implies #[trigger] os[a]
            != #[trigger] os[b] by {
            assert(pos[order[a] as int] == a);
            assert(pos[order[b] as int] == b);
        }
    }
    os.unique_seq_to_set();
    vstd::set_lib::lemma_int_range(0, n);
    let bound = vstd::set_lib::set_int_range(0, n).remove(w);
    assert(os.to_set().subset_of(bound)) by {
        assert forall|v: int| os.to_set().contains(v) implies bound.contains(v) by {
            let i = choose|i: int| 0 <= i < os.len() && os[i] == v;
            assert(pos[order[i] as int] == i);
        }
    }
    vstd::set_lib::lemma_len_subset(os.to_set(), bound);
}

proof fn lemma_edges_between_positive(edges: Seq<(usize, usize)>, u: int, v: int)
    requires
        edges_between(edges, u, v) > 0,
    ensures
        exists|i: int| 0 <= i < edges.len() && edges[i].0 as int == u && #[trigger] edges[i].1 as int == v,
    decreases edges.len(),
{
    let e = edges.last();
    if e.0 as int == u && e.1 as int == v {
        assert(edges[edges.len() - 1].1 as int == v);
    } else {
        lemma_edges_between_positive(edges.drop_last(), u, v);
        let i = choose|i: int| 0 <= i < edges.drop_last().len() && edges.drop_last()[i].0 as int == u && #[trigger] edges.drop_last()[i].1 as int == v;
        assert(edges[i] == edges.drop_last()[i]);
    }
}

} // verus!
