//! The greedy dependency-aware scheduler.
//!
//! The tree stays immutable; assignments live in a side table indexed by
//! each node's preorder id.  Every worker has a single cursor, the time at
//! which it next becomes free.  One scheduling step picks the least-loaded
//! worker and the deepest pending node that is ready for it — every costed
//! child already scheduled and finished by the worker's cursor — and binds
//! the node to the worker's current cursor without preemption or revision.

use vstd::prelude::*;

use crate::tree::{crit_cost, depth_from, ids_from, ids_list, leafs_ok, lemma_size_list_mono, max_crit, op_cost, size, size_list, sum_work, work_cost, Sexpr};

verus! {

/// One assignment: the worker that runs a node and its time slot.
#[derive(Debug, Clone, Copy, PartialEq, Eq, Structural)]
pub struct Cpu {
    pub cpu: usize,
    pub start: usize,
    pub end: usize,
}

/// The id has a slot in the table and that slot is filled.
pub open spec fn assigned(t: Seq<Option<Cpu>>, id: int) -> bool {
    0 <= id < t.len() && t[id] is Some
}

/// `n` is a node of the tree `e` (including `e` itself).
pub open spec fn in_tree(e: Sexpr, n: Sexpr) -> bool
    decreases e,
{
    n == e || exists|i: int| 0 <= i < e.sexprs@.len() && in_tree(#[trigger] e.sexprs@[i], n)
}

/// Every node's id is below `n`: each fits the schedule table.
pub open spec fn ids_below(e: Sexpr, n: int) -> bool
    decreases e,
{
    &&& e.id < n
    &&& forall|i: int| 0 <= i < e.sexprs@.len() ==> ids_below(#[trigger] e.sexprs@[i], n)
}

/// Depth annotations increase by the parent's cost on every edge, as the
/// depth pass writes them.
pub open spec fn depth_incr(e: Sexpr) -> bool
    decreases e,
{
    forall|i: int| 0 <= i < e.sexprs@.len() ==> (#[trigger] e.sexprs@[i]).depth_cost
        == e.depth_cost + op_cost(e.op) && depth_incr(e.sexprs@[i])
}

/// Every costed child of `e` is already assigned.
pub open spec fn kids_done(e: Sexpr, t: Seq<Option<Cpu>>) -> bool {
    forall|i: int| 0 <= i < e.sexprs@.len() && op_cost((#[trigger] e.sexprs@[i]).op) > 0
        ==> assigned(t, e.sexprs@[i].id as int)
}

/// The largest end time among the assigned costed children of `e`, looking
/// at its first `k` children only (0 with none): the time the node's inputs
/// are ready, once all costed children are assigned.
pub open spec fn kids_avail_to(e: Sexpr, t: Seq<Option<Cpu>>, k: int) -> nat
    decreases k,
{
    if k <= 0 || k > e.sexprs@.len() {
        0
    } else {
        let rest = kids_avail_to(e, t, k - 1);
        let c = e.sexprs@[k - 1];
        if op_cost(c.op) > 0 && assigned(t, c.id as int) && t[c.id as int]->0.end > rest {
            t[c.id as int]->0.end as nat
        } else {
            rest
        }
    }
}

/// The time all of `e`'s inputs are ready.
pub open spec fn kids_avail(e: Sexpr, t: Seq<Option<Cpu>>) -> nat {
    kids_avail_to(e, t, e.sexprs@.len() as int)
}

/// `e` itself could be bound right now to a worker free at `avail`:
/// an unassigned costed node whose costed children are all assigned and
/// finished by `avail`.
pub open spec fn ready(e: Sexpr, t: Seq<Option<Cpu>>, avail: int) -> bool {
    &&& op_cost(e.op) > 0
    &&& !assigned(t, e.id as int)
    &&& kids_done(e, t)
    &&& avail >= kids_avail(e, t)
}

/// No node anywhere in `e` is ready for a worker free at `avail`.
pub open spec fn no_ready(e: Sexpr, t: Seq<Option<Cpu>>, avail: int) -> bool
    decreases e,
{
    &&& !ready(e, t, avail)
    &&& forall|i: int| 0 <= i < e.sexprs@.len() ==> no_ready(#[trigger] e.sexprs@[i], t, avail)
}

/// No worker runs two nodes at overlapping times: any two distinct
/// assigned nodes placed on the same worker occupy disjoint time slots.
pub open spec fn disjoint_on_workers(root: Sexpr, t: Seq<Option<Cpu>>) -> bool {
    forall|n1: Sexpr, n2: Sexpr|
        #![trigger in_tree(root, n1), in_tree(root, n2)]
        in_tree(root, n1) && in_tree(root, n2) && n1.id != n2.id && assigned(t, n1.id as int)
            && assigned(t, n2.id as int) && t[n1.id as int]->0.cpu == t[n2.id as int]->0.cpu
            ==> (t[n1.id as int]->0.end <= t[n2.id as int]->0.start || t[n2.id as int]->0.end
            <= t[n1.id as int]->0.start)
}

/// The single-node part of schedule validity.
pub open spec fn node_ok(e: Sexpr, t: Seq<Option<Cpu>>, cpus: Seq<usize>) -> bool {
    &&& (op_cost(e.op) == 0 ==> !assigned(t, e.id as int))
    &&& (assigned(t, e.id as int) ==> ({
        let a = t[e.id as int]->0;
        &&& a.cpu < cpus.len()
        &&& a.end == a.start + op_cost(e.op)
        &&& a.end <= cpus[a.cpu as int]
        &&& kids_done(e, t)
        &&& a.start >= kids_avail(e, t)
    }))
}

/// Schedule validity over the whole tree: literals are never assigned; an
/// assigned node sits on a real worker, runs for exactly its cost, finishes
/// before its worker's cursor, and starts no earlier than its last costed
/// child ends — with all costed children assigned first.
pub open spec fn sched_ok(e: Sexpr, t: Seq<Option<Cpu>>, cpus: Seq<usize>) -> bool
    decreases e,
{
    &&& node_ok(e, t, cpus)
    &&& forall|i: int| 0 <= i < e.sexprs@.len() ==> sched_ok(#[trigger] e.sexprs@[i], t, cpus)
}

/// Every costed node of the tree is assigned.
pub open spec fn all_assigned(e: Sexpr, t: Seq<Option<Cpu>>) -> bool
    decreases e,
{
    &&& (op_cost(e.op) > 0 ==> assigned(t, e.id as int))
    &&& forall|i: int| 0 <= i < e.sexprs@.len() ==> all_assigned(#[trigger] e.sexprs@[i], t)
}

/// Number of costed nodes of `e` not yet assigned.
pub open spec fn pending_count(e: Sexpr, t: Seq<Option<Cpu>>) -> nat
    decreases e, e.sexprs@.len(), 1int,
{
    (if op_cost(e.op) > 0 && !assigned(t, e.id as int) {
        1nat
    } else {
        0nat
    }) + pending_list(e, t, e.sexprs@.len() as int)
}

/// Pending costed nodes among the first `k` children of `e`.
pub open spec fn pending_list(e: Sexpr, t: Seq<Option<Cpu>>, k: int) -> nat
    decreases e, k, 0int,
{
    if k <= 0 || k > e.sexprs@.len() {
        0
    } else {
        pending_list(e, t, k - 1) + pending_count(e.sexprs@[k - 1], t)
    }
}

/// Total cost of the assigned nodes of `e`.
pub open spec fn assigned_work(e: Sexpr, t: Seq<Option<Cpu>>) -> nat
    decreases e, e.sexprs@.len(), 1int,
{
    (if assigned(t, e.id as int) {
        op_cost(e.op)
    } else {
        0nat
    }) + assigned_list(e, t, e.sexprs@.len() as int)
}

/// Assigned work among the first `k` children of `e`.
pub open spec fn assigned_list(e: Sexpr, t: Seq<Option<Cpu>>, k: int) -> nat
    decreases e, k, 0int,
{
    if k <= 0 || k > e.sexprs@.len() {
        0
    } else {
        assigned_list(e, t, k - 1) + assigned_work(e.sexprs@[k - 1], t)
    }
}

/// Sum of the first `k` worker cursors.
pub open spec fn sum_cpus(c: Seq<usize>, k: int) -> nat
    decreases k,
{
    if k <= 0 || k > c.len() {
        0
    } else {
        sum_cpus(c, k - 1) + c[k - 1] as nat
    }
}

/// Largest of the first `k` worker cursors: the makespan when `k` covers
/// them all.
pub open spec fn max_cpus(c: Seq<usize>, k: int) -> nat
    decreases k,
{
    if k <= 0 || k > c.len() {
        0
    } else {
        let rest = max_cpus(c, k - 1);
        if c[k - 1] > rest {
            c[k - 1] as nat
        } else {
            rest
        }
    }
}

/// The exact choice of the search: `None` past one of the gates — a
/// literal, a node at or below the depth floor, or one already assigned —
/// else the best candidate among the children, each searched with the floor
/// raised to the best depth found so far, and finally the node itself when
/// no child offered a candidate and its own inputs are ready by `avail`.
pub open spec fn spec_find(e: Sexpr, min: int, avail: int, t: Seq<Option<Cpu>>) -> Option<
    (usize, usize, usize),
>
    decreases e, e.sexprs@.len() + 1, 0int,
{
    if op_cost(e.op) == 0 || e.depth_cost <= min || assigned(t, e.id as int) {
        None
    } else {
        let folded = spec_find_kids(e, e.sexprs@.len() as int, avail, t);
        if folded is Some {
            folded
        } else if kids_done(e, t) && avail >= kids_avail(e, t) {
            Some((e.id, op_cost(e.op) as usize, e.depth_cost))
        } else {
            None
        }
    }
}

/// The search folded over the first `k` children, left to right: a later
/// candidate replaces an earlier one only by clearing the earlier one's
/// depth as its floor.
pub open spec fn spec_find_kids(e: Sexpr, k: int, avail: int, t: Seq<Option<Cpu>>) -> Option<
    (usize, usize, usize),
>
    decreases e, k, 0int,
{
    if k <= 0 || k > e.sexprs@.len() {
        None
    } else {
        let prev = spec_find_kids(e, k - 1, avail, t);
        let floor = match prev {
            None => e.depth_cost as int,
            Some(p) => p.2 as int,
        };
        match spec_find(e.sexprs@[k - 1], floor, avail, t) {
            Some(q) => Some(q),
            None => prev,
        }
    }
}

/// `a` is offered work no later than `b` within one scheduling pass:
/// ascending cursor, ties broken by the smaller index.
pub open spec fn worker_le(c: Seq<usize>, a: int, b: int) -> bool {
    c[a] < c[b] || (c[a] == c[b] && a <= b)
}

/// `w` is the worker one scheduling step binds: the search finds a ready
/// node at `w`'s cursor, and at no worker offered work before `w`.
pub open spec fn chunk_picks(root: Sexpr, t: Seq<Option<Cpu>>, c: Seq<usize>, w: int) -> bool {
    &&& 0 <= w < c.len()
    &&& spec_find(root, 0, c[w] as int, t) is Some
    &&& forall|u: int|
        0 <= u < c.len() && !worker_le(c, w, u) ==> spec_find(
            root,
            0,
            (#[trigger] c[u]) as int,
            t,
        ) is None
}

/// The worker one scheduling step binds, among the first `k`: of those
/// whose search succeeds, the one with the smallest cursor, ties to the
/// smaller index.
pub open spec fn spec_pick(root: Sexpr, t: Seq<Option<Cpu>>, c: Seq<usize>, k: int) -> Option<
    int,
>
    decreases k,
{
    if k <= 0 || k > c.len() {
        None
    } else {
        let prev = spec_pick(root, t, c, k - 1);
        if spec_find(root, 0, c[k - 1] as int, t) is Some {
            match prev {
                None => Some(k - 1),
                Some(u) => if c[k - 1] < c[u] {
                    Some(k - 1)
                } else {
                    Some(u)
                },
            }
        } else {
            prev
        }
    }
}

/// What [`spec_pick`] returns is the step's worker in the sense of
/// [`chunk_picks`], and `None` means no worker can start anything.
proof fn lemma_spec_pick_props(root: Sexpr, t: Seq<Option<Cpu>>, c: Seq<usize>, k: int)
    requires
        0 <= k <= c.len(),
    ensures
        match spec_pick(root, t, c, k) {
            None => forall|u: int|
                0 <= u < k ==> spec_find(root, 0, (#[trigger] c[u]) as int, t) is None,
            Some(w) => 0 <= w < k && spec_find(root, 0, c[w] as int, t) is Some && forall|u: int|
                0 <= u < k && spec_find(root, 0, (#[trigger] c[u]) as int, t) is Some
                    ==> worker_le(c, w, u),
        },
    decreases k,
{
    if k > 0 {
        lemma_spec_pick_props(root, t, c, k - 1);
    }
}

/// The step's worker is unique.
proof fn lemma_chunk_picks_unique(
    root: Sexpr,
    t: Seq<Option<Cpu>>,
    c: Seq<usize>,
    w1: int,
    w2: int,
)
    requires
        chunk_picks(root, t, c, w1),
        chunk_picks(root, t, c, w2),
    ensures
        w1 == w2,
{
    if w1 != w2 {
        if !worker_le(c, w1, w2) {
            assert(spec_find(root, 0, c[w2] as int, t) is None);
        } else {
            assert(!worker_le(c, w2, w1));
            assert(spec_find(root, 0, c[w1] as int, t) is None);
        }
    }
}

/// One scheduling step as a function of the state: `None` when no worker
/// can start anything; else the side table and cursors after binding the
/// search's node on the step's worker at its current cursor.
pub open spec fn spec_step(root: Sexpr, t: Seq<Option<Cpu>>, c: Seq<usize>) -> Option<
    (Seq<Option<Cpu>>, Seq<usize>),
> {
    match spec_pick(root, t, c, c.len() as int) {
        None => None,
        Some(w) => {
            let p = spec_find(root, 0, c[w] as int, t)->0;
            Some(
                (
                    t.update(
                        p.0 as int,
                        Some(
                            Cpu {
                                cpu: w as usize,
                                start: c[w],
                                end: (c[w] + p.1) as usize,
                            },
                        ),
                    ),
                    c.update(w, (c[w] + p.1) as usize),
                ),
            )
        },
    }
}

/// The whole scheduling run from a given state: steps applied until none
/// is possible.  `fuel` only bounds the recursion; any value at least the
/// number of pending costed nodes reaches the fixed point.
pub open spec fn spec_run(root: Sexpr, t: Seq<Option<Cpu>>, c: Seq<usize>, fuel: nat) -> (
    Seq<Option<Cpu>>,
    Seq<usize>,
)
    decreases fuel,
{
    if fuel == 0 {
        (t, c)
    } else {
        match spec_step(root, t, c) {
            None => (t, c),
            Some(s2) => spec_run(root, s2.0, s2.1, (fuel - 1) as nat),
        }
    }
}

/// An assigned node has all its costed children assigned, recursively: the
/// order the scheduler always respects.
pub open spec fn closed(e: Sexpr, t: Seq<Option<Cpu>>) -> bool
    decreases e,
{
    &&& (assigned(t, e.id as int) ==> kids_done(e, t))
    &&& forall|i: int| 0 <= i < e.sexprs@.len() ==> closed(#[trigger] e.sexprs@[i], t)
}

/// Below an assigned node of a closed table nothing is pending, so nothing
/// there is ready either.
proof fn lemma_closed_no_ready(e: Sexpr, t: Seq<Option<Cpu>>, avail: int)
    requires
        closed(e, t),
        leafs_ok(e),
        assigned(t, e.id as int),
    ensures
        no_ready(e, t, avail),
    decreases e,
{
    assert forall|i: int| 0 <= i < e.sexprs@.len() implies no_ready(
        #[trigger] e.sexprs@[i],
        t,
        avail,
    ) by {
        let c = e.sexprs@[i];
        if op_cost(c.op) > 0 {
            assert(assigned(t, c.id as int));
            lemma_closed_no_ready(c, t, avail);
        } else {
            assert(leafs_ok(c));
            assert(c.op is Int);
            assert(c.sexprs@.len() == 0);
        }
    }
}

impl Sexpr {
    /// The time this node's inputs are ready: `Some(t)` when every costed
    /// child is scheduled, `t` being the latest of their end times (0 with
    /// none); `None` while some costed child is still unscheduled.
    pub fn get_available_at(&self, table: &Vec<Option<Cpu>>) -> (r: Option<usize>)
        requires
            ids_below(*self, table@.len() as int),
        ensures
            r is Some <==> kids_done(*self, table@),
            (r matches Some(v) ==> v == kids_avail(*self, table@)),
    {
        let mut avail: usize = 0;
        let mut i: usize = 0;
        while i < self.sexprs.len()
            invariant
                i <= self.sexprs@.len(),
                ids_below(*self, table@.len() as int),
                avail == kids_avail_to(*self, table@, i as int),
                forall|j: int|
                    0 <= j < i && op_cost((#[trigger] self.sexprs@[j]).op) > 0 ==> assigned(
                        table@,
                        self.sexprs@[j].id as int,
                    ),
            decreases self.sexprs@.len() - i,
        {
            proof {
                assert(ids_below(self.sexprs@[i as int], table@.len() as int));
            }
            let c = &self.sexprs[i];
            if c.op.cost() > 0 {
                match table[c.id] {
                    None => {
                        return None;
                    },
                    Some(a) => {
                        if a.end > avail {
                            avail = a.end;
                        }
                    },
                }
            }
            i += 1;
        }
        Some(avail)
    }

    /// The search step of the scheduler: the deepest pending node of this
    /// subtree that a worker free at `cpu_available_at` could start right
    /// now, with `depth_cost` above the floor `min_depth_cost` — preferring
    /// deeper candidates and, among equals, the first in depth-first
    /// left-to-right order.  Returns its id, cost and depth.  `None` means
    /// no node of the subtree is ready for that worker (when the subtree's
    /// root clears the floor; below the floor nothing is claimed).
    pub fn find_deepest_pending_subexpr(
        &self,
        min_depth_cost: usize,
        cpu_available_at: usize,
        table: &Vec<Option<Cpu>>,
    ) -> (r: Option<(usize, usize, usize)>)
        requires
            ids_below(*self, table@.len() as int),
            leafs_ok(*self),
            depth_incr(*self),
            closed(*self, table@),
        ensures
            (r matches Some(p) ==> exists|n: Sexpr|
                #[trigger] in_tree(*self, n) && n.id == p.0 && op_cost(n.op) == p.1
                    && n.depth_cost == p.2 && ready(n, table@, cpu_available_at as int)
                    && n.depth_cost > min_depth_cost),
            (r is None && self.depth_cost > min_depth_cost ==> no_ready(
                *self,
                table@,
                cpu_available_at as int,
            )),
            r == spec_find(*self, min_depth_cost as int, cpu_available_at as int, table@),
        decreases *self,
    {
        let my_cost = self.op.cost();
        if my_cost == 0 {
            proof {
                assert(self.op is Int);
                assert(self.sexprs@.len() == 0);
            }
            return None;
        }
        if self.depth_cost <= min_depth_cost {
            return None;
        }
        if table[self.id].is_some() {
            proof {
                lemma_closed_no_ready(*self, table@, cpu_available_at as int);
            }
            return None;
        }
        let mut best: Option<(usize, usize, usize)> = None;
        let mut best_depth = self.depth_cost;
        let mut i: usize = 0;
        while i < self.sexprs.len()
            invariant
                i <= self.sexprs@.len(),
                ids_below(*self, table@.len() as int),
                leafs_ok(*self),
                depth_incr(*self),
                closed(*self, table@),
                my_cost == op_cost(self.op),
                my_cost > 0,
                self.depth_cost > min_depth_cost,
                !assigned(table@, self.id as int),
                best is None ==> best_depth == self.depth_cost,
                best is None ==> forall|j: int|
                    0 <= j < i ==> no_ready(
                        #[trigger] self.sexprs@[j],
                        table@,
                        cpu_available_at as int,
                    ),
                (best matches Some(p) ==> best_depth == p.2 && (exists|n: Sexpr|
                    #[trigger] in_tree(*self, n) && n.id == p.0 && op_cost(n.op) == p.1
                        && n.depth_cost == p.2 && ready(n, table@, cpu_available_at as int)
                        && n.depth_cost > min_depth_cost)),
                best == spec_find_kids(*self, i as int, cpu_available_at as int, table@),
            decreases self.sexprs@.len() - i,
        {
            proof {
                assert(ids_below(self.sexprs@[i as int], table@.len() as int));
                assert(leafs_ok(self.sexprs@[i as int]));
                assert(depth_incr(self.sexprs@[i as int]));
                assert(closed(self.sexprs@[i as int], table@));
            }
            let c = &self.sexprs[i];
            match c.find_deepest_pending_subexpr(best_depth, cpu_available_at, table) {
                Some(p) => {
                    proof {
                        let n = choose|n: Sexpr|
                            #[trigger] in_tree(*c, n) && n.id == p.0 && op_cost(n.op) == p.1
                                && n.depth_cost == p.2 && ready(
                                n,
                                table@,
                                cpu_available_at as int,
                            ) && n.depth_cost > best_depth;
                        assert(in_tree(self.sexprs@[i as int], n));
                        assert(in_tree(*self, n));
                    }
                    best_depth = p.2;
                    best = Some(p);
                },
                None => {
                },
            }
            i += 1;
        }
        if best.is_some() {
            return best;
        }
        match self.get_available_at(table) {
            Some(data_avail) => {
                if cpu_available_at >= data_avail {
                    proof {
                        assert(in_tree(*self, *self));
                    }
                    return Some((self.id, my_cost, self.depth_cost));
                }
                None
            },
            None => None,
        }
    }
}

/// Each child covered by [`ids_list`] carries the preorder ids of its own
/// block, which starts after the blocks of its left siblings.
proof fn lemma_ids_list_get(e: Sexpr, k: int, lo: int, q: int)
    requires
        ids_list(e, k, lo),
        0 <= q < k <= e.sexprs@.len(),
    ensures
        ids_from(e.sexprs@[q], lo + size_list(e, q)),
    decreases k,
{
    if q < k - 1 {
        lemma_ids_list_get(e, k - 1, lo, q);
    }
}

/// Every node of a preorder-numbered tree has its id inside the tree's block.
proof fn lemma_ids_range(e: Sexpr, lo: int, n: Sexpr)
    requires
        ids_from(e, lo),
        in_tree(e, n),
    ensures
        lo <= n.id < lo + size(e),
    decreases e,
{
    if n != e {
        let q = choose|q: int| 0 <= q < e.sexprs@.len() && in_tree(#[trigger] e.sexprs@[q], n);
        lemma_ids_list_get(e, e.sexprs@.len() as int, lo + 1, q);
        lemma_ids_range(e.sexprs@[q], lo + 1 + size_list(e, q), n);
        lemma_size_list_mono(e, q + 1, e.sexprs@.len() as int);
    }
}

/// In a preorder-numbered tree, an id names at most one node.
proof fn lemma_ids_unique(e: Sexpr, lo: int, n1: Sexpr, n2: Sexpr)
    requires
        ids_from(e, lo),
        in_tree(e, n1),
        in_tree(e, n2),
        n1.id == n2.id,
    ensures
        n1 == n2,
    decreases e,
{
    let len = e.sexprs@.len() as int;
    if n1 == e && n2 == e {
    } else if n1 == e {
        let q = choose|q: int| 0 <= q < e.sexprs@.len() && in_tree(#[trigger] e.sexprs@[q], n2);
        lemma_ids_list_get(e, len, lo + 1, q);
        lemma_ids_range(e.sexprs@[q], lo + 1 + size_list(e, q), n2);
    } else if n2 == e {
        let q = choose|q: int| 0 <= q < e.sexprs@.len() && in_tree(#[trigger] e.sexprs@[q], n1);
        lemma_ids_list_get(e, len, lo + 1, q);
        lemma_ids_range(e.sexprs@[q], lo + 1 + size_list(e, q), n1);
    } else {
        let q1 = choose|q: int| 0 <= q < e.sexprs@.len() && in_tree(#[trigger] e.sexprs@[q], n1);
        let q2 = choose|q: int| 0 <= q < e.sexprs@.len() && in_tree(#[trigger] e.sexprs@[q], n2);
        lemma_ids_list_get(e, len, lo + 1, q1);
        lemma_ids_list_get(e, len, lo + 1, q2);
        lemma_ids_range(e.sexprs@[q1], lo + 1 + size_list(e, q1), n1);
        lemma_ids_range(e.sexprs@[q2], lo + 1 + size_list(e, q2), n2);
        if q1 == q2 {
            lemma_ids_unique(e.sexprs@[q1], lo + 1 + size_list(e, q1), n1, n2);
        } else if q1 < q2 {
            lemma_size_list_mono(e, q1 + 1, q2);
        } else {
            lemma_size_list_mono(e, q2 + 1, q1);
        }
    }
}

/// A child is a strictly smaller tree than its parent, so it is never the
/// parent itself.
proof fn lemma_child_ne(e: Sexpr, q: int)
    requires
        0 <= q < e.sexprs@.len(),
    ensures
        e.sexprs@[q] != e,
        size(e.sexprs@[q]) < size(e),
    decreases e,
{
    lemma_size_list_mono(e, q + 1, e.sexprs@.len() as int);
}

/// When no child of `e` has id `xid`, a table update at `xid` leaves `e`'s
/// readiness data — which children are done and when — untouched.
proof fn lemma_kids_frame(e: Sexpr, t: Seq<Option<Cpu>>, t2: Seq<Option<Cpu>>, xid: int, k: int)
    requires
        t2.len() == t.len(),
        forall|x: int| 0 <= x < t.len() && x != xid ==> t2[x] == t[x],
        forall|i: int| 0 <= i < e.sexprs@.len() ==> (#[trigger] e.sexprs@[i]).id != xid,
        0 <= k <= e.sexprs@.len(),
    ensures
        kids_avail_to(e, t2, k) == kids_avail_to(e, t, k),
        kids_done(e, t2) == kids_done(e, t),
    decreases k,
{
    if k > 0 {
        lemma_kids_frame(e, t, t2, xid, k - 1);
    }
    assert forall|i: int| 0 <= i < e.sexprs@.len() implies assigned(
        t2,
        (#[trigger] e.sexprs@[i]).id as int,
    ) == assigned(t, e.sexprs@[i].id as int) by {}
}

/// Binding one ready node `n` to a worker's current cursor keeps the whole
/// schedule valid, adds exactly `n`'s cost to the assigned work, and settles
/// exactly one pending node.  `e` is any subtree whose preorder block starts
/// at `lo`; `n` is either inside it or outside its id block.
proof fn lemma_assign_ok(
    e: Sexpr,
    lo: int,
    t: Seq<Option<Cpu>>,
    t2: Seq<Option<Cpu>>,
    cpus: Seq<usize>,
    cpus2: Seq<usize>,
    n: Sexpr,
    a: Cpu,
)
    requires
        sched_ok(e, t, cpus),
        leafs_ok(e),
        ids_from(e, lo),
        in_tree(e, n) || !(lo <= n.id < lo + size(e)),
        op_cost(n.op) > 0,
        0 <= n.id < t.len(),
        !assigned(t, n.id as int),
        kids_done(n, t),
        a.cpu < cpus.len(),
        a.start == cpus[a.cpu as int],
        a.start >= kids_avail(n, t),
        a.end == a.start + op_cost(n.op),
        t2 == t.update(n.id as int, Some(a)),
        cpus2 == cpus.update(a.cpu as int, a.end),
    ensures
        sched_ok(e, t2, cpus2),
        (in_tree(e, n) ==> assigned_work(e, t2) == assigned_work(e, t) + op_cost(n.op)),
        (!in_tree(e, n) ==> assigned_work(e, t2) == assigned_work(e, t)),
        (in_tree(e, n) ==> pending_count(e, t2) + 1 == pending_count(e, t)),
        (!in_tree(e, n) ==> pending_count(e, t2) == pending_count(e, t)),
    decreases e, e.sexprs@.len(), 1int,
{
    let len = e.sexprs@.len() as int;
    assert forall|w: int| 0 <= w < cpus.len() implies cpus2[w] >= cpus[w] by {}
    if in_tree(e, n) {
        if n == e {
            assert forall|i: int| 0 <= i < len implies (#[trigger] e.sexprs@[i]).id != n.id by {
                lemma_child_ne(e, i);
                assert(in_tree(e.sexprs@[i], e.sexprs@[i]));
                assert(in_tree(e, e.sexprs@[i]));
                if e.sexprs@[i].id == n.id {
                    lemma_ids_unique(e, lo, e.sexprs@[i], n);
                }
            }
            lemma_kids_frame(e, t, t2, n.id as int, len);
            assert(node_ok(e, t2, cpus2));
        } else {
            let q0 = choose|q: int|
                0 <= q < e.sexprs@.len() && in_tree(#[trigger] e.sexprs@[q], n);
            lemma_ids_list_get(e, len, lo + 1, q0);
            lemma_ids_range(e.sexprs@[q0], lo + 1 + size_list(e, q0), n);
            assert(n.id != lo);
            if assigned(t, e.id as int) {
                assert forall|i: int| 0 <= i < len implies (#[trigger] e.sexprs@[i]).id
                    != n.id by {
                    assert(in_tree(e.sexprs@[i], e.sexprs@[i]));
                    assert(in_tree(e, e.sexprs@[i]));
                    if e.sexprs@[i].id == n.id {
                        lemma_ids_unique(e, lo, e.sexprs@[i], n);
                        assert(op_cost(e.sexprs@[i].op) > 0);
                        assert(assigned(t, n.id as int));
                    }
                }
                lemma_kids_frame(e, t, t2, n.id as int, len);
            }
            assert(node_ok(e, t2, cpus2));
        }
    } else {
        lemma_ids_range(e, lo, e);
        assert(e.id != n.id);
        if assigned(t, e.id as int) {
            assert forall|i: int| 0 <= i < len implies (#[trigger] e.sexprs@[i]).id != n.id by {
                assert(in_tree(e.sexprs@[i], e.sexprs@[i]));
                assert(in_tree(e, e.sexprs@[i]));
                if e.sexprs@[i].id == n.id {
                    lemma_ids_range(e, lo, e.sexprs@[i]);
                }
            }
            lemma_kids_frame(e, t, t2, n.id as int, len);
        }
        assert(node_ok(e, t2, cpus2));
    }
    lemma_assign_list(e, lo, t, t2, cpus, cpus2, n, a, len);
    lemma_size_list_mono(e, 0, len);
    if in_tree(e, n) {
        if n == e {
            assert(assigned(t2, e.id as int));
            assert(!(lo + 1 <= n.id));
            assert(assigned_list(e, t2, len) == assigned_list(e, t, len));
            assert(pending_list(e, t2, len) == pending_list(e, t, len));
        } else {
            let q0 = choose|q: int|
                0 <= q < e.sexprs@.len() && in_tree(#[trigger] e.sexprs@[q], n);
            lemma_ids_list_get(e, len, lo + 1, q0);
            lemma_ids_range(e.sexprs@[q0], lo + 1 + size_list(e, q0), n);
            lemma_size_list_mono(e, q0 + 1, len);
            assert(lo + 1 <= n.id < lo + 1 + size_list(e, len));
            assert(e.id != n.id);
            assert(assigned(t2, e.id as int) == assigned(t, e.id as int));
        }
    } else {
        assert(e.id != n.id);
        assert(assigned(t2, e.id as int) == assigned(t, e.id as int));
    }
}

/// The per-child part of [`lemma_assign_ok`], walking the first `k`
/// children and accumulating the effect on the prefix sums.
proof fn lemma_assign_list(
    e: Sexpr,
    lo: int,
    t: Seq<Option<Cpu>>,
    t2: Seq<Option<Cpu>>,
    cpus: Seq<usize>,
    cpus2: Seq<usize>,
    n: Sexpr,
    a: Cpu,
    k: int,
)
    requires
        sched_ok(e, t, cpus),
        leafs_ok(e),
        ids_from(e, lo),
        in_tree(e, n) || !(lo <= n.id < lo + size(e)),
        op_cost(n.op) > 0,
        0 <= n.id < t.len(),
        !assigned(t, n.id as int),
        kids_done(n, t),
        a.cpu < cpus.len(),
        a.start == cpus[a.cpu as int],
        a.start >= kids_avail(n, t),
        a.end == a.start + op_cost(n.op),
        t2 == t.update(n.id as int, Some(a)),
        cpus2 == cpus.update(a.cpu as int, a.end),
        0 <= k <= e.sexprs@.len(),
    ensures
        forall|q: int| 0 <= q < k ==> sched_ok(#[trigger] e.sexprs@[q], t2, cpus2),
        (in_tree(e, n) && lo + 1 <= n.id < lo + 1 + size_list(e, k) ==> assigned_list(e, t2, k)
            == assigned_list(e, t, k) + op_cost(n.op) && pending_list(e, t2, k) + 1
            == pending_list(e, t, k)),
        (!(in_tree(e, n) && lo + 1 <= n.id < lo + 1 + size_list(e, k)) ==> assigned_list(
            e,
            t2,
            k,
        ) == assigned_list(e, t, k) && pending_list(e, t2, k) == pending_list(e, t, k)),
    decreases e, k, 0int,
{
    let len = e.sexprs@.len() as int;
    if k > 0 {
        lemma_assign_list(e, lo, t, t2, cpus, cpus2, n, a, k - 1);
        let c = e.sexprs@[k - 1];
        let base = lo + 1 + size_list(e, k - 1);
        lemma_ids_list_get(e, len, lo + 1, k - 1);
        lemma_size_list_mono(e, k, len);
        if in_tree(e, n) && base <= n.id < base + size(c) {
            assert(n != e) by {
                lemma_size_list_mono(e, 0, k - 1);
            }
            let q0 = choose|q: int|
                0 <= q < e.sexprs@.len() && in_tree(#[trigger] e.sexprs@[q], n);
            if q0 != k - 1 {
                lemma_ids_list_get(e, len, lo + 1, q0);
                lemma_ids_range(e.sexprs@[q0], lo + 1 + size_list(e, q0), n);
                if q0 < k - 1 {
                    lemma_size_list_mono(e, q0 + 1, k - 1);
                } else {
                    lemma_size_list_mono(e, k, q0);
                }
                assert(false);
            }
            assert(in_tree(c, n));
            lemma_assign_ok(c, base, t, t2, cpus, cpus2, n, a);
        } else {
            assert(!(in_tree(c, n))) by {
                if in_tree(c, n) {
                    assert(in_tree(e, n));
                    lemma_ids_range(c, base, n);
                }
            }
            assert(!(base <= n.id < base + size(c))) by {
                if base <= n.id < base + size(c) {
                    if in_tree(e, n) {
                    } else {
                        lemma_size_list_mono(e, 0, k - 1);
                    }
                }
            }
            lemma_assign_ok(c, base, t, t2, cpus, cpus2, n, a);
        }
    }
}

/// A valid schedule is in particular closed: nothing is assigned before its
/// costed children.
proof fn lemma_sched_closed(e: Sexpr, t: Seq<Option<Cpu>>, cpus: Seq<usize>)
    requires
        sched_ok(e, t, cpus),
    ensures
        closed(e, t),
    decreases e,
{
    assert forall|i: int| 0 <= i < e.sexprs@.len() implies closed(#[trigger] e.sexprs@[i], t) by {
        lemma_sched_closed(e.sexprs@[i], t, cpus);
    }
}

/// A preorder-numbered tree whose block ends at or before `n` has all its
/// ids below `n`.
proof fn lemma_ids_below(e: Sexpr, lo: int, n: int)
    requires
        ids_from(e, lo),
        0 <= lo,
        lo + size(e) <= n,
    ensures
        ids_below(e, n),
    decreases e,
{
    let len = e.sexprs@.len() as int;
    lemma_size_list_mono(e, 0, len);
    assert forall|i: int| 0 <= i < len implies ids_below(#[trigger] e.sexprs@[i], n) by {
        lemma_ids_list_get(e, len, lo + 1, i);
        lemma_size_list_mono(e, i + 1, len);
        lemma_ids_below(e.sexprs@[i], lo + 1 + size_list(e, i), n);
    }
}

/// Before anything is scheduled — every slot empty — the schedule is
/// trivially valid and carries no work.
proof fn lemma_empty_sched(e: Sexpr, t: Seq<Option<Cpu>>, cpus: Seq<usize>)
    requires
        forall|x: int| 0 <= x < t.len() ==> t[x] is None,
    ensures
        sched_ok(e, t, cpus),
        assigned_work(e, t) == 0,
    decreases e, e.sexprs@.len(), 1int,
{
    assert forall|i: int| 0 <= i < e.sexprs@.len() implies sched_ok(
        #[trigger] e.sexprs@[i],
        t,
        cpus,
    ) by {
        lemma_empty_sched(e.sexprs@[i], t, cpus);
    }
    lemma_empty_list(e, t, cpus, e.sexprs@.len() as int);
}

/// List companion of [`lemma_empty_sched`].
proof fn lemma_empty_list(e: Sexpr, t: Seq<Option<Cpu>>, cpus: Seq<usize>, k: int)
    requires
        forall|x: int| 0 <= x < t.len() ==> t[x] is None,
        0 <= k <= e.sexprs@.len(),
    ensures
        assigned_list(e, t, k) == 0,
    decreases e, k, 0int,
{
    if k > 0 {
        lemma_empty_list(e, t, cpus, k - 1);
        lemma_empty_sched(e.sexprs@[k - 1], t, cpus);
    }
}

/// Assigned work never exceeds the tree's total work, and a pending costed
/// node leaves room for at least its own cost.
proof fn lemma_work_gap(e: Sexpr, lo: int, t: Seq<Option<Cpu>>, n: Sexpr)
    requires
        ids_from(e, lo),
        op_cost(n.op) > 0,
        !assigned(t, n.id as int),
        in_tree(e, n) || !(lo <= n.id < lo + size(e)),
    ensures
        assigned_work(e, t) <= work_cost(e),
        (in_tree(e, n) ==> assigned_work(e, t) + op_cost(n.op) <= work_cost(e)),
    decreases e, e.sexprs@.len(), 1int,
{
    let len = e.sexprs@.len() as int;
    lemma_work_gap_list(e, lo, t, n, len);
    lemma_size_list_mono(e, 0, len);
    if in_tree(e, n) && n != e {
        let q0 = choose|q: int| 0 <= q < e.sexprs@.len() && in_tree(#[trigger] e.sexprs@[q], n);
        lemma_ids_list_get(e, len, lo + 1, q0);
        lemma_ids_range(e.sexprs@[q0], lo + 1 + size_list(e, q0), n);
        lemma_size_list_mono(e, q0 + 1, len);
        assert(lo + 1 <= n.id < lo + 1 + size_list(e, len));
    }
}

/// List companion of [`lemma_work_gap`].
proof fn lemma_work_gap_list(e: Sexpr, lo: int, t: Seq<Option<Cpu>>, n: Sexpr, k: int)
    requires
        ids_from(e, lo),
        op_cost(n.op) > 0,
        !assigned(t, n.id as int),
        in_tree(e, n) || !(lo <= n.id < lo + size(e)),
        0 <= k <= e.sexprs@.len(),
    ensures
        assigned_list(e, t, k) <= sum_work(e, k),
        (in_tree(e, n) && lo + 1 <= n.id < lo + 1 + size_list(e, k) ==> assigned_list(e, t, k)
            + op_cost(n.op) <= sum_work(e, k)),
    decreases e, k, 0int,
{
    let len = e.sexprs@.len() as int;
    if k > 0 {
        lemma_work_gap_list(e, lo, t, n, k - 1);
        let c = e.sexprs@[k - 1];
        let base = lo + 1 + size_list(e, k - 1);
        lemma_ids_list_get(e, len, lo + 1, k - 1);
        lemma_size_list_mono(e, k, len);
        if in_tree(e, n) && base <= n.id < base + size(c) {
            assert(n != e) by {
                lemma_size_list_mono(e, 0, k - 1);
            }
            let q0 = choose|q: int|
                0 <= q < e.sexprs@.len() && in_tree(#[trigger] e.sexprs@[q], n);
            if q0 != k - 1 {
                lemma_ids_list_get(e, len, lo + 1, q0);
                lemma_ids_range(e.sexprs@[q0], lo + 1 + size_list(e, q0), n);
                if q0 < k - 1 {
                    lemma_size_list_mono(e, q0 + 1, k - 1);
                } else {
                    lemma_size_list_mono(e, k, q0);
                }
                assert(false);
            }
            assert(in_tree(c, n));
            lemma_work_gap(c, base, t, n);
        } else {
            assert(!(in_tree(c, n))) by {
                if in_tree(c, n) {
                    assert(in_tree(e, n));
                    lemma_ids_range(c, base, n);
                }
            }
            assert(!(base <= n.id < base + size(c))) by {
                if base <= n.id < base + size(c) {
                    if in_tree(e, n) {
                    } else {
                        lemma_size_list_mono(e, 0, k - 1);
                    }
                }
            }
            lemma_work_gap(c, base, t, n);
        }
    }
}

/// A single cursor never exceeds the sum of all cursors.
proof fn lemma_sum_cpus_ge(c: Seq<usize>, w: int, k: int)
    requires
        0 <= w < k <= c.len(),
    ensures
        sum_cpus(c, k) >= c[w],
    decreases k,
{
    if w < k - 1 {
        lemma_sum_cpus_ge(c, w, k - 1);
    }
}

/// Raising one cursor raises the sum by the same amount.
proof fn lemma_sum_cpus_update(c: Seq<usize>, w: int, v: usize, k: int)
    requires
        0 <= w < c.len(),
        0 <= k <= c.len(),
    ensures
        w < k ==> sum_cpus(c.update(w, v), k) + c[w] == sum_cpus(c, k) + v,
        w >= k ==> sum_cpus(c.update(w, v), k) == sum_cpus(c, k),
    decreases k,
{
    if k > 0 {
        lemma_sum_cpus_update(c, w, v, k - 1);
    }
}

/// No cursor exceeds the largest cursor.
proof fn lemma_max_cpus_ge(c: Seq<usize>, w: int, k: int)
    requires
        0 <= w < k <= c.len(),
    ensures
        max_cpus(c, k) >= c[w],
    decreases k,
{
    if w < k - 1 {
        lemma_max_cpus_ge(c, w, k - 1);
    }
}

/// Some cursor attains the maximum.
proof fn lemma_max_cpus_attained(c: Seq<usize>, k: int)
    requires
        1 <= k <= c.len(),
    ensures
        exists|w: int| 0 <= w < k && c[w] == max_cpus(c, k),
    decreases k,
{
    if k == 1 {
        assert(max_cpus(c, 0) == 0);
        assert(c[0] == max_cpus(c, 1));
    } else {
        lemma_max_cpus_attained(c, k - 1);
        let w0 = choose|w: int| 0 <= w < k - 1 && c[w] == max_cpus(c, k - 1);
        if c[k - 1] > max_cpus(c, k - 1) {
            assert(c[k - 1] == max_cpus(c, k));
        } else {
            assert(c[w0] == max_cpus(c, k));
        }
    }
}

/// The sum of the cursors is at most their count times their maximum.
proof fn lemma_sum_le_max(c: Seq<usize>, k: int)
    requires
        0 <= k <= c.len(),
    ensures
        sum_cpus(c, k) <= k * max_cpus(c, k),
    decreases k,
{
    if k > 0 {
        lemma_sum_le_max(c, k - 1);
        assert(max_cpus(c, k - 1) <= max_cpus(c, k));
        assert((k - 1) * max_cpus(c, k - 1) <= (k - 1) * max_cpus(c, k))
            by (nonlinear_arith)
            requires
                k >= 1,
                max_cpus(c, k - 1) <= max_cpus(c, k),
        ;
        assert(k * max_cpus(c, k) == (k - 1) * max_cpus(c, k) + max_cpus(c, k))
            by (nonlinear_arith);
    }
}

/// Membership in a subtree carries up to any enclosing tree.
proof fn lemma_in_tree_trans(e: Sexpr, m: Sexpr, p: Sexpr)
    requires
        in_tree(e, m),
        in_tree(m, p),
    ensures
        in_tree(e, p),
    decreases e,
{
    if m != e {
        let q = choose|q: int| 0 <= q < e.sexprs@.len() && in_tree(#[trigger] e.sexprs@[q], m);
        lemma_in_tree_trans(e.sexprs@[q], m, p);
    }
}

/// Schedule validity holds at every node of a valid tree.
proof fn lemma_sched_at(e: Sexpr, t: Seq<Option<Cpu>>, cpus: Seq<usize>, n: Sexpr)
    requires
        sched_ok(e, t, cpus),
        in_tree(e, n),
    ensures
        node_ok(n, t, cpus),
    decreases e,
{
    if n != e {
        let q = choose|q: int| 0 <= q < e.sexprs@.len() && in_tree(#[trigger] e.sexprs@[q], n);
        lemma_sched_at(e.sexprs@[q], t, cpus, n);
    }
}

/// When every assigned child ends by `m`, the node's inputs are ready by `m`.
proof fn lemma_kids_avail_bound(e: Sexpr, t: Seq<Option<Cpu>>, m: int, k: int)
    requires
        forall|i: int|
            0 <= i < e.sexprs@.len() && assigned(t, (#[trigger] e.sexprs@[i]).id as int)
                ==> t[e.sexprs@[i].id as int]->0.end <= m,
        0 <= k <= e.sexprs@.len(),
        m >= 0,
    ensures
        kids_avail_to(e, t, k) <= m,
    decreases k,
{
    if k > 0 {
        lemma_kids_avail_bound(e, t, m, k - 1);
    }
}

/// While some costed node is still pending, some pending costed node has
/// all of its costed children already assigned.
proof fn lemma_find_pending(e: Sexpr, t: Seq<Option<Cpu>>)
    requires
        !all_assigned(e, t),
    ensures
        exists|n: Sexpr|
            #[trigger] in_tree(e, n) && op_cost(n.op) > 0 && !assigned(t, n.id as int)
                && kids_done(n, t),
    decreases e,
{
    if op_cost(e.op) > 0 && !assigned(t, e.id as int) {
        if kids_done(e, t) {
            assert(in_tree(e, e));
        } else {
            let q = choose|q: int|
                0 <= q < e.sexprs@.len() && op_cost((#[trigger] e.sexprs@[q]).op) > 0
                    && !assigned(t, e.sexprs@[q].id as int);
            assert(!all_assigned(e.sexprs@[q], t));
            lemma_find_pending(e.sexprs@[q], t);
            let n = choose|n: Sexpr|
                #[trigger] in_tree(e.sexprs@[q], n) && op_cost(n.op) > 0 && !assigned(
                    t,
                    n.id as int,
                ) && kids_done(n, t);
            assert(in_tree(e.sexprs@[q], e.sexprs@[q]));
            assert(in_tree(e, e.sexprs@[q]));
            lemma_in_tree_trans(e, e.sexprs@[q], n);
        }
    } else {
        let q = choose|q: int|
            0 <= q < e.sexprs@.len() && !all_assigned(#[trigger] e.sexprs@[q], t);
        lemma_find_pending(e.sexprs@[q], t);
        let n = choose|n: Sexpr|
            #[trigger] in_tree(e.sexprs@[q], n) && op_cost(n.op) > 0 && !assigned(
                t,
                n.id as int,
            ) && kids_done(n, t);
        assert(in_tree(e.sexprs@[q], e.sexprs@[q]));
        assert(in_tree(e, e.sexprs@[q]));
        lemma_in_tree_trans(e, e.sexprs@[q], n);
    }
}

/// Where nothing in the tree is ready, no single node is.
proof fn lemma_no_ready_at(e: Sexpr, t: Seq<Option<Cpu>>, avail: int, n: Sexpr)
    requires
        no_ready(e, t, avail),
        in_tree(e, n),
    ensures
        !ready(n, t, avail),
    decreases e,
{
    if n != e {
        let q = choose|q: int| 0 <= q < e.sexprs@.len() && in_tree(#[trigger] e.sexprs@[q], n);
        lemma_no_ready_at(e.sexprs@[q], t, avail, n);
    }
}

/// The depth pass's annotation, started at `base`, increases along every
/// edge by the parent's cost.
pub proof fn lemma_depth_from_incr(e: Sexpr, base: nat)
    requires
        depth_from(e, base),
    ensures
        depth_incr(e),
        e.depth_cost == base,
    decreases e,
{
    assert forall|i: int| 0 <= i < e.sexprs@.len() implies (#[trigger] e.sexprs@[i]).depth_cost
        == e.depth_cost + op_cost(e.op) && depth_incr(e.sexprs@[i]) by {
        lemma_depth_from_incr(e.sexprs@[i], base + op_cost(e.op));
    }
}

/// How many of the first `k` flags are set.
pub open spec fn count_true(s: Seq<bool>, k: int) -> nat
    decreases k,
{
    if k <= 0 || k > s.len() {
        0
    } else {
        count_true(s, k - 1) + (if s[k - 1] {
            1nat
        } else {
            0nat
        })
    }
}

/// The count is bounded by `k`, and reaches `k` only with every flag set.
proof fn lemma_count_bounds(s: Seq<bool>, k: int)
    requires
        0 <= k <= s.len(),
    ensures
        count_true(s, k) <= k,
        count_true(s, k) == k ==> forall|j: int| 0 <= j < k ==> s[j],
        (forall|j: int| 0 <= j < k ==> s[j]) ==> count_true(s, k) == k,
    decreases k,
{
    if k > 0 {
        lemma_count_bounds(s, k - 1);
    }
}

/// Setting one unset flag raises the count by one.
proof fn lemma_count_update(s: Seq<bool>, w: int, k: int)
    requires
        0 <= w < s.len(),
        !s[w],
        0 <= k <= s.len(),
    ensures
        w < k ==> count_true(s.update(w, true), k) == count_true(s, k) + 1,
        w >= k ==> count_true(s.update(w, true), k) == count_true(s, k),
    decreases k,
{
    if k > 0 {
        lemma_count_update(s, w, k - 1);
    }
}

/// With no flag set the count is zero.
proof fn lemma_count_false(s: Seq<bool>, k: int)
    requires
        forall|j: int| 0 <= j < s.len() ==> !s[j],
        0 <= k <= s.len(),
    ensures
        count_true(s, k) == 0,
    decreases k,
{
    if k > 0 {
        lemma_count_false(s, k - 1);
    }
}

/// All-zero cursors sum to zero.
proof fn lemma_sum_zeros(c: Seq<usize>, k: int)
    requires
        forall|j: int| 0 <= j < c.len() ==> c[j] == 0,
        0 <= k <= c.len(),
    ensures
        sum_cpus(c, k) == 0,
    decreases k,
{
    if k > 0 {
        lemma_sum_zeros(c, k - 1);
    }
}

/// Once everything is assigned, the assigned work is the tree's total work.
proof fn lemma_all_assigned_work(e: Sexpr, t: Seq<Option<Cpu>>)
    requires
        all_assigned(e, t),
    ensures
        assigned_work(e, t) == work_cost(e),
    decreases e, e.sexprs@.len(), 1int,
{
    lemma_all_assigned_list(e, t, e.sexprs@.len() as int);
}

/// List companion of [`lemma_all_assigned_work`].
proof fn lemma_all_assigned_list(e: Sexpr, t: Seq<Option<Cpu>>, k: int)
    requires
        all_assigned(e, t),
        0 <= k <= e.sexprs@.len(),
    ensures
        assigned_list(e, t, k) == sum_work(e, k),
    decreases e, k, 0int,
{
    if k > 0 {
        lemma_all_assigned_list(e, t, k - 1);
        lemma_all_assigned_work(e.sexprs@[k - 1], t);
    }
}

/// The readiness time covers each assigned costed child's end.
proof fn lemma_kids_avail_ge(e: Sexpr, t: Seq<Option<Cpu>>, k: int, i: int)
    requires
        0 <= i < k <= e.sexprs@.len(),
        op_cost(e.sexprs@[i].op) > 0,
        assigned(t, e.sexprs@[i].id as int),
    ensures
        kids_avail_to(e, t, k) >= t[e.sexprs@[i].id as int]->0.end,
    decreases k,
{
    if i < k - 1 {
        lemma_kids_avail_ge(e, t, k - 1, i);
    }
}

/// A bound on every child's critical path bounds their maximum.
proof fn lemma_max_crit_bound(e: Sexpr, k: int, m: int)
    requires
        0 <= k <= e.sexprs@.len(),
        m >= 0,
        forall|i: int| 0 <= i < k ==> crit_cost(#[trigger] e.sexprs@[i]) <= m,
    ensures
        max_crit(e, k) <= m,
    decreases k,
{
    if k > 0 {
        lemma_max_crit_bound(e, k - 1, m);
    }
}

/// In a complete valid schedule, every costed node ends no earlier than its
/// own critical path — so no schedule beats the critical path.
proof fn lemma_crit_bound(e: Sexpr, t: Seq<Option<Cpu>>, cpus: Seq<usize>)
    requires
        sched_ok(e, t, cpus),
        all_assigned(e, t),
        leafs_ok(e),
    ensures
        op_cost(e.op) > 0 ==> crit_cost(e) <= t[e.id as int]->0.end,
        op_cost(e.op) == 0 ==> crit_cost(e) == 0,
    decreases e,
{
    let len = e.sexprs@.len() as int;
    if op_cost(e.op) == 0 {
        assert(e.op is Int);
        assert(len == 0);
        assert(max_crit(e, 0) == 0);
    } else {
        let a = t[e.id as int]->0;
        assert forall|i: int| 0 <= i < len implies crit_cost(#[trigger] e.sexprs@[i])
            <= a.start by {
            let c = e.sexprs@[i];
            lemma_crit_bound(c, t, cpus);
            if op_cost(c.op) > 0 {
                lemma_kids_avail_ge(e, t, len, i);
            }
        }
        lemma_max_crit_bound(e, len, a.start as int);
    }
}

/// The whole algorithm is deterministic: two completed runs on equal trees
/// and equal worker counts return the same table, the same loads and the
/// same makespan.  Follows from [`schedule_to_cpus`] pinning its result to
/// [`spec_run`].
pub proof fn lemma_schedule_deterministic(
    a: Sexpr,
    b: Sexpr,
    n: usize,
    r1: (Vec<Option<Cpu>>, Vec<usize>, usize),
    r2: (Vec<Option<Cpu>>, Vec<usize>, usize),
)
    requires
        a == b,
        call_ensures(schedule_to_cpus, (&a, n), r1),
        call_ensures(schedule_to_cpus, (&b, n), r2),
    ensures
        r1.0@ == r2.0@,
        r1.1@ == r2.1@,
        r1.2 == r2.2,
{
}

/// The unused worker with the smallest cursor, ties broken by the smaller
/// index: the order in which a scheduling pass offers work to workers.
fn pick_min_unused(cpus: &Vec<usize>, used: &Vec<bool>) -> (w: usize)
    requires
        used@.len() == cpus@.len(),
        exists|j: int| 0 <= j < used@.len() && !used@[j],
    ensures
        w < cpus@.len(),
        !used@[w as int],
        forall|j: int|
            0 <= j < cpus@.len() && !used@[j] ==> (cpus@[w as int] < cpus@[j] || (cpus@[w as int]
                == cpus@[j] && w <= j)),
{
    let n = cpus.len();
    let mut w: usize = 0;
    let mut found = false;
    let mut i: usize = 0;
    while i < n
        invariant
            n == cpus@.len(),
            n == used@.len(),
            i <= n,
            found ==> w < i && !used@[w as int],
            found ==> forall|j: int|
                0 <= j < i && !used@[j] ==> (cpus@[w as int] < cpus@[j] || (cpus@[w as int]
                    == cpus@[j] && w <= j)),
            !found ==> forall|j: int| 0 <= j < i ==> used@[j],
        decreases n - i,
    {
        if !used[i] {
            if !found || cpus[i] < cpus[w] {
                w = i;
                found = true;
            }
        }
        i += 1;
    }
    if !found {
        proof {
            let j = choose|j: int| 0 <= j < used@.len() && !used@[j];
            assert(used@[j]);
        }
    }
    w
}

/// One scheduling step: offer work to each worker in ascending cursor
/// order (ties by index); the first worker for which a ready node exists is
/// bound to the deepest such node at its current cursor, and the pass ends.
/// Returns whether an assignment was made; when none was, no node of the
/// tree is ready for any worker, and nothing has changed.
pub fn schedule_next_chunk(root: &Sexpr, table: &mut Vec<Option<Cpu>>, cpus: &mut Vec<usize>) -> (progressed:
    bool)
    requires
        ids_from(*root, 0),
        leafs_ok(*root),
        depth_incr(*root),
        root.depth_cost >= 1,
        old(table)@.len() == size(*root),
        work_cost(*root) <= usize::MAX,
        sched_ok(*root, old(table)@, old(cpus)@),
        disjoint_on_workers(*root, old(table)@),
        sum_cpus(old(cpus)@, old(cpus)@.len() as int) == assigned_work(*root, old(table)@),
        old(cpus)@.len() >= 1,
    ensures
        final(table)@.len() == old(table)@.len(),
        final(cpus)@.len() == old(cpus)@.len(),
        sched_ok(*root, final(table)@, final(cpus)@),
        disjoint_on_workers(*root, final(table)@),
        sum_cpus(final(cpus)@, final(cpus)@.len() as int) == assigned_work(
            *root,
            final(table)@,
        ),
        (progressed ==> pending_count(*root, final(table)@) + 1 == pending_count(
            *root,
            old(table)@,
        )),
        (progressed <==> exists|w: int|
            #![trigger old(cpus)@[w]]
            0 <= w < old(cpus)@.len() && spec_find(
                *root,
                0,
                old(cpus)@[w] as int,
                old(table)@,
            ) is Some),
        (progressed ==> forall|w: int|
            chunk_picks(*root, old(table)@, old(cpus)@, w) ==> ({
                let p = spec_find(*root, 0, old(cpus)@[w] as int, old(table)@)->0;
                &&& old(table)@[p.0 as int] is None
                &&& final(table)@ == old(table)@.update(
                    p.0 as int,
                    Some(
                        Cpu {
                            cpu: w as usize,
                            start: old(cpus)@[w],
                            end: (old(cpus)@[w] + p.1) as usize,
                        },
                    ),
                )
                &&& final(cpus)@ == old(cpus)@.update(w, (old(cpus)@[w] + p.1) as usize)
            })),
        (!progressed ==> final(table)@ == old(table)@ && final(cpus)@ == old(cpus)@),
        (!progressed ==> forall|w: int|
            0 <= w < old(cpus)@.len() ==> no_ready(*root, old(table)@, old(cpus)@[w] as int)),
{
    let n = cpus.len();
    let mut used: Vec<bool> = vec![false; n];
    let mut k: usize = 0;
    proof {
        lemma_ids_below(*root, 0, size(*root) as int);
        lemma_sched_closed(*root, table@, cpus@);
        lemma_count_false(used@, n as int);
    }
    while k < n
        invariant
            n == cpus@.len(),
            cpus@ == old(cpus)@,
            table@ == old(table)@,
            used@.len() == n,
            k <= n,
            count_true(used@, n as int) == k,
            forall|w: int|
                0 <= w < n && used@[w] ==> no_ready(*root, table@, cpus@[w] as int),
            forall|w: int|
                0 <= w < n && used@[w] ==> spec_find(
                    *root,
                    0,
                    (#[trigger] cpus@[w]) as int,
                    table@,
                ) is None,
            forall|a: int, b: int|
                0 <= a < n && 0 <= b < n && used@[a] && !used@[b] ==> !worker_le(
                    cpus@,
                    b,
                    a,
                ),
            ids_from(*root, 0),
            leafs_ok(*root),
            depth_incr(*root),
            root.depth_cost >= 1,
            table@.len() == size(*root),
            work_cost(*root) <= usize::MAX,
            sched_ok(*root, table@, cpus@),
            disjoint_on_workers(*root, table@),
            sum_cpus(cpus@, n as int) == assigned_work(*root, table@),
            n >= 1,
            ids_below(*root, table@.len() as int),
            closed(*root, table@),
        decreases n - k,
    {
        proof {
            lemma_count_bounds(used@, n as int);
        }
        let w = pick_min_unused(&cpus, &used);
        let avail_w = cpus[w];
        match root.find_deepest_pending_subexpr(0, avail_w, table) {
            None => {
                proof {
                    lemma_count_update(used@, w as int, n as int);
                }
                used[w] = true;
                k += 1;
            },
            Some(p) => {
                let (id, cost, depth) = p;
                let ghost t_old = table@;
                let ghost c_old = cpus@;
                let ghost nn = choose|m: Sexpr|
                    #[trigger] in_tree(*root, m) && m.id == id && op_cost(m.op) == cost
                        && m.depth_cost == depth && ready(m, t_old, avail_w as int)
                        && m.depth_cost > 0;
                proof {
                    lemma_sum_cpus_ge(c_old, w as int, n as int);
                    lemma_work_gap(*root, 0, t_old, nn);
                    lemma_ids_range(*root, 0, nn);
                    assert(spec_find(*root, 0, c_old[w as int] as int, t_old) is Some);
                    assert forall|u: int|
                        0 <= u < n && !worker_le(c_old, w as int, u) implies spec_find(
                        *root,
                        0,
                        (c_old[u]) as int,
                        t_old,
                    ) is None by {
                        if !used@[u] {
                            assert(cpus@[w as int] < cpus@[u] || (cpus@[w as int] == cpus@[u]
                                && w <= u));
                            assert(worker_le(c_old, w as int, u));
                        }
                        assert(used@[u]);
                    }
                    assert(chunk_picks(*root, t_old, c_old, w as int));
                    assert((w as int) < old(cpus)@.len() && spec_find(
                        *root,
                        0,
                        old(cpus)@[w as int] as int,
                        old(table)@,
                    ) is Some);
                }
                let start = cpus[w];
                let endt = start + cost;
                table[id] = Some(Cpu { cpu: w, start, end: endt });
                cpus[w] = endt;
                proof {
                    lemma_assign_ok(
                        *root,
                        0,
                        t_old,
                        table@,
                        c_old,
                        cpus@,
                        nn,
                        Cpu { cpu: w, start: start, end: endt },
                    );
                    lemma_sum_cpus_update(c_old, w as int, endt, n as int);
                    assert forall|w2: int|
                        chunk_picks(*root, old(table)@, old(cpus)@, w2) implies ({
                        let p = spec_find(*root, 0, old(cpus)@[w2] as int, old(table)@)->0;
                        &&& old(table)@[p.0 as int] is None
                        &&& table@ == old(table)@.update(
                            p.0 as int,
                            Some(
                                Cpu {
                                    cpu: w2 as usize,
                                    start: old(cpus)@[w2],
                                    end: (old(cpus)@[w2] + p.1) as usize,
                                },
                            ),
                        )
                        &&& cpus@ == old(cpus)@.update(w2, (old(cpus)@[w2] + p.1) as usize)
                    }) by {
                        lemma_chunk_picks_unique(*root, t_old, c_old, w2, w as int);
                        assert(spec_find(*root, 0, c_old[w as int] as int, t_old)->0 == (
                            id,
                            cost,
                            depth,
                        ));
                        assert(nn.id == id && !assigned(t_old, nn.id as int) && nn.id
                            < t_old.len());
                        assert(t_old[id as int] is None);
                    }
                    assert forall|m1: Sexpr, m2: Sexpr|
                        in_tree(*root, m1) && in_tree(*root, m2) && m1.id != m2.id && assigned(
                            table@,
                            m1.id as int,
                        ) && assigned(table@, m2.id as int) && table@[m1.id as int]->0.cpu
                            == table@[m2.id as int]->0.cpu implies (table@[m1.id as int]->0.end
                        <= table@[m2.id as int]->0.start || table@[m2.id as int]->0.end
                        <= table@[m1.id as int]->0.start) by {
                        if m1.id == nn.id || m2.id == nn.id {
                            let other = if m1.id == nn.id {
                                m2
                            } else {
                                m1
                            };
                            assert(other.id != nn.id);
                            assert(table@[other.id as int] == t_old[other.id as int]);
                            if assigned(t_old, other.id as int) && t_old[other.id as int]->0.cpu
                                == w {
                                lemma_sched_at(*root, t_old, c_old, other);
                            }
                        }
                    }
                }
                return true;
            },
        }
    }
    proof {
        lemma_count_bounds(used@, n as int);
        assert forall|w: int| 0 <= w < old(cpus)@.len() implies no_ready(
            *root,
            old(table)@,
            old(cpus)@[w] as int,
        ) by {
            assert(used@[w]);
        }
    }
    false
}

/// Run the greedy scheduler to completion on `ncpus` workers.
///
/// Returns the filled schedule table (indexed by node id), the final
/// per-worker loads, and the makespan — the largest load.  Afterwards every
/// costed node is assigned exactly once and validly (no literal is, no
/// worker runs two nodes at once, every node starts after its costed
/// children end), the loads sum to the tree's total work, the makespan is
/// never below the critical path, and the workers times the makespan cover
/// the total work.  The run is deterministic: table and loads equal
/// [`spec_run`] applied to the empty state, a function of the tree and the
/// worker count alone.
pub fn schedule_to_cpus(root: &Sexpr, ncpus: usize) -> (r: (Vec<Option<Cpu>>, Vec<usize>, usize))
    requires
        ids_from(*root, 0),
        leafs_ok(*root),
        (exists|b: nat| b >= 1 && #[trigger] depth_from(*root, b)),
        size(*root) <= usize::MAX,
        work_cost(*root) <= usize::MAX,
        ncpus >= 1,
    ensures
        r.0@.len() == size(*root),
        r.1@.len() == ncpus,
        sched_ok(*root, r.0@, r.1@),
        all_assigned(*root, r.0@),
        disjoint_on_workers(*root, r.0@),
        r.2 == max_cpus(r.1@, ncpus as int),
        crit_cost(*root) <= r.2,
        work_cost(*root) <= ncpus * r.2,
        sum_cpus(r.1@, ncpus as int) == work_cost(*root),
        ({
            let t0 = Seq::<Option<Cpu>>::new(size(*root), |i: int| None);
            let c0 = Seq::<usize>::new(ncpus as nat, |i: int| 0usize);
            (r.0@, r.1@) == spec_run(*root, t0, c0, pending_count(*root, t0))
        }),
{
    let sz = root.node_count();
    let mut table: Vec<Option<Cpu>> = vec![None; sz];
    let mut cpus: Vec<usize> = vec![0; ncpus];
    let ghost t0 = table@;
    let ghost c0 = cpus@;
    let ghost fuel0 = pending_count(*root, t0);
    proof {
        let b = choose|b: nat| b >= 1 && #[trigger] depth_from(*root, b);
        lemma_depth_from_incr(*root, b);
        lemma_empty_sched(*root, table@, cpus@);
        lemma_sum_zeros(cpus@, ncpus as int);
    }
    loop
        invariant_except_break
            ids_from(*root, 0),
            leafs_ok(*root),
            depth_incr(*root),
            root.depth_cost >= 1,
            table@.len() == size(*root),
            cpus@.len() == ncpus,
            ncpus >= 1,
            work_cost(*root) <= usize::MAX,
            sched_ok(*root, table@, cpus@),
            disjoint_on_workers(*root, table@),
            sum_cpus(cpus@, ncpus as int) == assigned_work(*root, table@),
            spec_run(*root, table@, cpus@, pending_count(*root, table@)) == spec_run(
                *root,
                t0,
                c0,
                fuel0,
            ),
        ensures
            table@.len() == size(*root),
            cpus@.len() == ncpus,
            sched_ok(*root, table@, cpus@),
            disjoint_on_workers(*root, table@),
            sum_cpus(cpus@, ncpus as int) == assigned_work(*root, table@),
            (table@, cpus@) == spec_run(*root, t0, c0, fuel0),
            forall|w: int|
                0 <= w < ncpus ==> no_ready(*root, table@, (#[trigger] cpus@[w]) as int),
        decreases pending_count(*root, table@),
    {
        let ghost t_pre = table@;
        let ghost c_pre = cpus@;
        let progressed = schedule_next_chunk(root, &mut table, &mut cpus);
        if !progressed {
            proof {
                lemma_spec_pick_props(*root, t_pre, c_pre, ncpus as int);
                assert(spec_pick(*root, t_pre, c_pre, ncpus as int) is None) by {
                    let po = spec_pick(*root, t_pre, c_pre, ncpus as int);
                    if po is Some {
                        let wsome = po->0;
                        lemma_spec_pick_props(*root, t_pre, c_pre, ncpus as int);
                        assert(0 <= wsome < c_pre.len() && spec_find(
                            *root,
                            0,
                            c_pre[wsome] as int,
                            t_pre,
                        ) is Some);
                    }
                }
                assert(spec_step(*root, t_pre, c_pre) is None);
                assert(spec_run(*root, t_pre, c_pre, pending_count(*root, t_pre)) == (
                    t_pre,
                    c_pre,
                ));
            }
            break;
        }
        proof {
            lemma_spec_pick_props(*root, t_pre, c_pre, ncpus as int);
            assert(spec_pick(*root, t_pre, c_pre, ncpus as int) is Some) by {
                if spec_pick(*root, t_pre, c_pre, ncpus as int) is None {
                    lemma_spec_pick_props(*root, t_pre, c_pre, ncpus as int);
                    let w0 = choose|w: int|
                        #![trigger c_pre[w]]
                        0 <= w < c_pre.len() && spec_find(
                            *root,
                            0,
                            c_pre[w] as int,
                            t_pre,
                        ) is Some;
                    assert(spec_find(*root, 0, c_pre[w0] as int, t_pre) is None);
                }
            }
            let wstar = spec_pick(*root, t_pre, c_pre, ncpus as int)->0;
            assert(chunk_picks(*root, t_pre, c_pre, wstar)) by {
                assert forall|u: int|
                    0 <= u < c_pre.len() && !worker_le(c_pre, wstar, u) implies spec_find(
                    *root,
                    0,
                    (c_pre[u]) as int,
                    t_pre,
                ) is None by {
                    if spec_find(*root, 0, c_pre[u] as int, t_pre) is Some {
                        assert(worker_le(c_pre, wstar, u));
                    }
                }
            }
            assert(spec_step(*root, t_pre, c_pre) == Some((table@, cpus@)));
            assert(pending_count(*root, t_pre) >= 1);
            assert(spec_run(*root, t_pre, c_pre, pending_count(*root, t_pre)) == spec_run(
                *root,
                table@,
                cpus@,
                pending_count(*root, table@),
            ));
        }
    }
    proof {
        if !all_assigned(*root, table@) {
            lemma_find_pending(*root, table@);
            let m = choose|m: Sexpr|
                #[trigger] in_tree(*root, m) && op_cost(m.op) > 0 && !assigned(
                    table@,
                    m.id as int,
                ) && kids_done(m, table@);
            lemma_max_cpus_attained(cpus@, ncpus as int);
            let wmax = choose|w: int|
                0 <= w < ncpus && cpus@[w] == max_cpus(cpus@, ncpus as int);
            let mx = max_cpus(cpus@, ncpus as int) as int;
            assert forall|i: int|
                0 <= i < m.sexprs@.len() && assigned(
                    table@,
                    (#[trigger] m.sexprs@[i]).id as int,
                ) implies table@[m.sexprs@[i].id as int]->0.end <= mx by {
                let kid = m.sexprs@[i];
                assert(in_tree(kid, kid));
                assert(in_tree(m, kid));
                lemma_in_tree_trans(*root, m, kid);
                lemma_sched_at(*root, table@, cpus@, kid);
                let a = table@[kid.id as int]->0;
                lemma_max_cpus_ge(cpus@, a.cpu as int, ncpus as int);
            }
            lemma_kids_avail_bound(m, table@, mx, m.sexprs@.len() as int);
            assert(ready(m, table@, cpus@[wmax] as int));
            lemma_no_ready_at(*root, table@, cpus@[wmax] as int, m);
            assert(false);
        }
        lemma_all_assigned_work(*root, table@);
        lemma_sum_le_max(cpus@, ncpus as int);
        lemma_crit_bound(*root, table@, cpus@);
        assert(t0 =~= Seq::<Option<Cpu>>::new(size(*root), |i: int| None));
        assert(c0 =~= Seq::<usize>::new(ncpus as nat, |i: int| 0usize));
        if op_cost(root.op) > 0 {
            let a = table@[root.id as int]->0;
            lemma_sched_at(*root, table@, cpus@, *root);
            lemma_max_cpus_ge(cpus@, a.cpu as int, ncpus as int);
        }
    }
    let mut mk: usize = 0;
    let mut i: usize = 0;
    while i < cpus.len()
        invariant
            i <= cpus@.len(),
            cpus@.len() == ncpus,
            mk == max_cpus(cpus@, i as int),
        decreases cpus@.len() - i,
    {
        if cpus[i] > mk {
            mk = cpus[i];
        }
        i += 1;
    }
    (table, cpus, mk)
}

} // verus!
