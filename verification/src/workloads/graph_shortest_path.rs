//! Sparse ring-plus-chords graph, then shortest paths from one node.

use vstd::prelude::*;

use crate::rng::{draw, TraceRng};
use crate::workloads::text::xor_seq;

verus! {

pub const ROUNDS: usize = 4;

pub const NODES: usize = 1_024;

pub const ELEMENTS: usize = 4_096;

/// Edges out of each node.
pub const DEGREE: usize = 4;

/// Largest weight of an edge.
pub const HEAVIEST: usize = 64;

/// An edge: where it leads, and what it costs.
pub type Edge = (usize, usize);

/// The edges out of every node.
pub open spec fn edges_of(adjacency: Seq<Vec<Edge>>, node: int) -> Seq<Edge> {
    adjacency[node]@
}

/// Every edge leads to a node and costs between one and `heaviest`.
pub open spec fn graph_wf(adjacency: Seq<Vec<Edge>>, heaviest: int) -> bool {
    forall|node: int, k: int|
        #![trigger edges_of(adjacency, node)[k]]
        0 <= node < adjacency.len() && 0 <= k < edges_of(adjacency, node).len() ==> edges_of(
            adjacency,
            node,
        )[k].0 < adjacency.len() && 1 <= edges_of(adjacency, node)[k].1 <= heaviest
}

/// There is a walk of `steps` edges from `start` to `node` that costs `cost`.
pub open spec fn walk(adjacency: Seq<Vec<Edge>>, start: int, node: int, cost: int, steps: nat) -> bool
    decreases steps,
{
    if steps == 0 {
        node == start && cost == 0
    } else {
        exists|from: int, k: int| #[trigger]
            leads(adjacency, from, k, node) && walk(
                adjacency,
                start,
                from,
                cost - edges_of(adjacency, from)[k].1,
                (steps - 1) as nat,
            )
    }
}

/// Edge `k` of `from` leads to `node`.
pub open spec fn leads(adjacency: Seq<Vec<Edge>>, from: int, k: int, node: int) -> bool {
    0 <= from < adjacency.len() && 0 <= k < edges_of(adjacency, from).len() && edges_of(
        adjacency,
        from,
    )[k].0 == node
}

/// `cost` is what some walk from `start` to `node` costs.
pub open spec fn costs(adjacency: Seq<Vec<Edge>>, start: int, node: int, cost: int) -> bool {
    exists|steps: nat| #[trigger] walk(adjacency, start, node, cost, steps)
}

/// `cost` is the least that a walk from `start` to `node` costs.
pub open spec fn least_cost(adjacency: Seq<Vec<Edge>>, start: int, node: int, cost: int) -> bool {
    &&& costs(adjacency, start, node, cost)
    &&& forall|other: int| #[trigger] costs(adjacency, start, node, other) ==> cost <= other
}

/// Distances are right: the least cost where there is a walk, the largest number elsewhere.
pub open spec fn distances(adjacency: Seq<Vec<Edge>>, start: int, dist: Seq<usize>) -> bool {
    &&& dist.len() == adjacency.len()
    &&& forall|node: int|
        0 <= node < dist.len() ==> if #[trigger] dist[node] == usize::MAX {
            forall|cost: int| !#[trigger] costs(adjacency, start, node, cost)
        } else {
            least_cost(adjacency, start, node, dist[node] as int)
        }
}

/// The number of finite distances among the first `count`.
pub open spec fn reached_in(dist: Seq<usize>, count: nat) -> nat
    decreases count,
{
    if count == 0 {
        0
    } else {
        reached_in(dist, (count - 1) as nat) + if dist[count - 1] != usize::MAX {
            1nat
        } else {
            0nat
        }
    }
}

/// The sum of the finite distances among the first `count`.
pub open spec fn total_in(dist: Seq<usize>, count: nat) -> nat
    decreases count,
{
    if count == 0 {
        0
    } else {
        total_in(dist, (count - 1) as nat) + if dist[count - 1] != usize::MAX {
            dist[count - 1] as nat
        } else {
            0
        }
    }
}

/// `dist` with the nodes that are not settled counted as unreached.
pub open spec fn only_settled(dist: Seq<usize>, done: Seq<bool>) -> Seq<usize> {
    Seq::new(
        dist.len(),
        |node: int|
            if done[node] {
                dist[node]
            } else {
                usize::MAX
            },
    )
}

/// Settling one more node adds it to the count and to the sum.
proof fn lemma_settle(before: Seq<usize>, after: Seq<usize>, node: int, count: nat)
    requires
        before.len() == after.len(),
        count <= before.len(),
        0 <= node < before.len(),
        before[node] == usize::MAX,
        after[node] != usize::MAX,
        forall|other: int| 0 <= other < before.len() && other != node ==> before[other] == after[other],
    ensures
        reached_in(after, count) == reached_in(before, count) + if node < count {
            1nat
        } else {
            0nat
        },
        total_in(after, count) == total_in(before, count) + if node < count {
            after[node] as nat
        } else {
            0
        },
    decreases count,
{
    if count > 0 {
        lemma_settle(before, after, node, (count - 1) as nat);
    }
}

/// The counts depend on the distances alone.
proof fn lemma_counts_same(before: Seq<usize>, after: Seq<usize>, count: nat)
    requires
        before.len() == after.len(),
        count <= before.len(),
        forall|node: int| 0 <= node < before.len() ==> before[node] == after[node],
    ensures
        reached_in(after, count) == reached_in(before, count),
        total_in(after, count) == total_in(before, count),
    decreases count,
{
    if count > 0 {
        lemma_counts_same(before, after, (count - 1) as nat);
    }
}

/// Counts are bounded by what is counted.
proof fn lemma_count_bound(dist: Seq<usize>, count: nat)
    requires
        count <= dist.len(),
    ensures
        reached_in(dist, count) <= count,
        (exists|node: int| 0 <= node < count && dist[node] == usize::MAX) ==> reached_in(dist, count)
            < count,
    decreases count,
{
    if count > 0 {
        lemma_count_bound(dist, (count - 1) as nat);
    }
}

/// Where every edge out of a finite node is relaxed, no walk is cheaper.
proof fn lemma_relaxed_is_least(
    adjacency: Seq<Vec<Edge>>,
    start: int,
    dist: Seq<usize>,
    node: int,
    cost: int,
    steps: nat,
)
    requires
        dist.len() == adjacency.len(),
        0 <= start < dist.len(),
        dist[start] == 0,
        forall|from: int, k: int, to: int| #[trigger]
            leads(adjacency, from, k, to) && dist[from] != usize::MAX ==> dist[to] != usize::MAX
                && dist[to] <= dist[from] + edges_of(adjacency, from)[k].1,
        walk(adjacency, start, node, cost, steps),
    ensures
        0 <= node < dist.len() ==> dist[node] != usize::MAX && dist[node] <= cost,
    decreases steps,
{
    if steps > 0 {
        let (from, k) = choose|from: int, k: int| #[trigger]
            leads(adjacency, from, k, node) && walk(
                adjacency,
                start,
                from,
                cost - edges_of(adjacency, from)[k].1,
                (steps - 1) as nat,
            );
        lemma_relaxed_is_least(
            adjacency,
            start,
            dist,
            from,
            cost - edges_of(adjacency, from)[k].1,
            (steps - 1) as nat,
        );
        assert(leads(adjacency, from, k, node));
    }
}

/// One edge more.
proof fn lemma_step(adjacency: Seq<Vec<Edge>>, start: int, from: int, k: int, cost: int)
    requires
        costs(adjacency, start, from, cost),
        0 <= from < adjacency.len(),
        0 <= k < edges_of(adjacency, from).len(),
    ensures
        costs(
            adjacency,
            start,
            edges_of(adjacency, from)[k].0 as int,
            cost + edges_of(adjacency, from)[k].1,
        ),
{
    let steps = choose|steps: nat| #[trigger] walk(adjacency, start, from, cost, steps);
    let to = edges_of(adjacency, from)[k].0 as int;
    let more = cost + edges_of(adjacency, from)[k].1;
    assert(leads(adjacency, from, k, to));
    assert(more - edges_of(adjacency, from)[k].1 == cost);
    assert(walk(adjacency, start, to, more, steps + 1));
}

/// Position of the least pending entry, by cost and then by node.
fn least(pending: &Vec<Edge>) -> (at: usize)
    requires
        pending@.len() > 0,
    ensures
        at < pending@.len(),
        forall|i: int|
            0 <= i < pending@.len() ==> pending@[at as int].0 < (#[trigger] pending@[i]).0 || (
            pending@[at as int].0 == pending@[i].0 && pending@[at as int].1 <= pending@[i].1),
{
    let mut at: usize = 0;
    let mut i: usize = 1;
    while i < pending.len()
        invariant
            at < pending@.len(),
            1 <= i <= pending@.len(),
            forall|k: int|
                0 <= k < i ==> pending@[at as int].0 < (#[trigger] pending@[k]).0 || (
                pending@[at as int].0 == pending@[k].0 && pending@[at as int].1 <= pending@[k].1),
        decreases pending@.len() - i,
    {
        let best = pending[at];
        let entry = pending[i];
        if entry.0 < best.0 || (entry.0 == best.0 && entry.1 < best.1) {
            at = i;
        }
        i = i + 1;
    }
    at
}

/// What a search found.
pub struct Paths {
    pub dist: Vec<usize>,
    /// Nodes taken from the queue with their final distance.
    pub settled: usize,
    /// Wrapping sum of those distances.
    pub total: usize,
}

/// State of a search between two steps.
pub open spec fn searching(
    adjacency: Seq<Vec<Edge>>,
    start: int,
    heaviest: int,
    dist: Seq<usize>,
    pending: Seq<Edge>,
    done: Seq<bool>,
    floor: int,
    settled: int,
) -> bool {
    &&& dist.len() == adjacency.len()
    &&& done.len() == adjacency.len()
    &&& dist[start] == 0
    &&& 0 <= floor
    &&& forall|node: int|
        0 <= node < dist.len() && #[trigger] dist[node] != usize::MAX ==> costs(
            adjacency,
            start,
            node,
            dist[node] as int,
        ) && dist[node] <= heaviest * settled
    &&& forall|node: int|
        0 <= node < dist.len() && #[trigger] done[node] ==> dist[node] != usize::MAX && dist[node]
            <= floor
    &&& forall|node: int|
        0 <= node < dist.len() && #[trigger] dist[node] != usize::MAX && !done[node]
            ==> pending.contains((dist[node], node as usize))
    &&& forall|i: int|
        0 <= i < pending.len() ==> (#[trigger] pending[i]).1 < dist.len() && floor <= pending[i].0
            && dist[pending[i].1 as int] <= pending[i].0 && pending[i].0 <= heaviest * settled && (
        done[pending[i].1 as int] ==> dist[pending[i].1 as int] < pending[i].0)
    &&& pending.no_duplicates()
}

/// Every edge out of a settled node is relaxed, but for edges `from` the `k`-th on of `node`.
pub open spec fn relaxed(
    adjacency: Seq<Vec<Edge>>,
    dist: Seq<usize>,
    done: Seq<bool>,
    node: int,
    k: int,
) -> bool {
    forall|from: int, edge: int, to: int| #[trigger]
        leads(adjacency, from, edge, to) && done[from] && !(from == node && edge >= k)
            ==> dist[to] != usize::MAX && dist[to] <= dist[from] + edges_of(
            adjacency,
            from,
        )[edge].1
}

/// Take edge `k` of the settled `node` into account.
fn relax(
    adjacency: &Vec<Vec<Edge>>,
    start: usize,
    Ghost(heaviest): Ghost<int>,
    dist: &mut Vec<usize>,
    pending: &mut Vec<Edge>,
    Ghost(done): Ghost<Seq<bool>>,
    cost: usize,
    node: usize,
    k: usize,
    Ghost(settled): Ghost<int>,
)
    requires
        graph_wf(adjacency@, heaviest),
        start < adjacency@.len(),
        searching(
            adjacency@,
            start as int,
            heaviest,
            old(dist)@,
            old(pending)@,
            done,
            cost as int,
            settled,
        ),
        relaxed(adjacency@, old(dist)@, done, node as int, k as int),
        node < adjacency@.len(),
        k < edges_of(adjacency@, node as int).len(),
        done[node as int],
        old(dist)@[node as int] == cost,
        cost + heaviest <= heaviest * settled,
        heaviest * settled < usize::MAX,
        heaviest >= 0,
    ensures
        searching(
            adjacency@,
            start as int,
            heaviest,
            final(dist)@,
            final(pending)@,
            done,
            cost as int,
            settled,
        ),
        relaxed(adjacency@, final(dist)@, done, node as int, k + 1),
        forall|other: int| 0 <= other < done.len() && done[other] ==> final(dist)@[other] == old(dist)@[other],
{
    let ghost before = dist@;
    let ghost queue = pending@;
    let edge = adjacency[node][k];
    let next: usize = edge.0;
    let weight: usize = edge.1;
    assert(edges_of(adjacency@, node as int)[k as int] == edge);
    let candidate: usize = cost + weight;
    assert(leads(adjacency@, node as int, k as int, next as int));
    if candidate < dist[next] {
        dist.set(next, candidate);
        pending.push((candidate, next));
        proof {
            lemma_step(adjacency@, start as int, node as int, k as int, cost as int);
            assert(!done[next as int]);
            assert(pending@[queue.len() as int] == (candidate, next));
            assert forall|other: int|
                0 <= other < dist@.len() && #[trigger] dist@[other] != usize::MAX
                    && !done[other] implies pending@.contains((dist@[other], other as usize)) by {
                if other != next {
                    assert(before[other] != usize::MAX);
                    let at = choose|at: int|
                        0 <= at < queue.len() && queue[at] == (before[other], other as usize);
                    assert(pending@[at] == queue[at]);
                }
            }
            assert forall|i: int, j: int|
                0 <= i < pending@.len() && 0 <= j < pending@.len() && i != j implies pending@[i]
                != pending@[j] by {
                if i < queue.len() && j < queue.len() {
                    assert(queue[i] != queue[j]);
                } else {
                    let at = if i < queue.len() {
                        i
                    } else {
                        j
                    };
                    assert(before[queue[at].1 as int] <= queue[at].0);
                }
            }
        }
    } else {
        assert(dist@[next as int] != usize::MAX);
    }
    assert forall|from: int, edge: int, to: int| #[trigger]
        leads(adjacency@, from, edge, to) && done[from] && !(from == node && edge >= k
            + 1) implies dist@[to] != usize::MAX && dist@[to] <= dist@[from] + edges_of(
        adjacency@,
        from,
    )[edge].1 by {
        if !(from == node && edge == k) {
            assert(before[to] != usize::MAX);
        }
        assert(dist@[from] == before[from]);
    }
}

/// Least costs from `start` to every node.
pub fn shortest_paths(adjacency: &Vec<Vec<Edge>>, start: usize, heaviest: usize) -> (paths: Paths)
    requires
        graph_wf(adjacency@, heaviest as int),
        start < adjacency@.len(),
        (adjacency@.len() + 1) * heaviest < usize::MAX,
    ensures
        distances(adjacency@, start as int, paths.dist@),
        paths.settled == reached_in(paths.dist@, adjacency@.len()),
        paths.total == total_in(paths.dist@, adjacency@.len()) % (usize::MAX + 1) as nat,
{
    let count: usize = adjacency.len();
    let unreached: usize = usize::MAX;
    let mut dist: Vec<usize> = vec![unreached; count];
    dist.set(start, 0);
    let mut pending: Vec<Edge> = Vec::new();
    pending.push((0, start));
    let mut settled: usize = 0;
    let mut total: usize = 0;
    let ghost mut done: Seq<bool> = Seq::new(count as nat, |node: int| false);
    let ghost mut floor: int = 0;
    proof {
        assert(walk(adjacency@, start as int, start as int, 0, 0));
        assert(pending@[0] == (0usize, start));
        assert(heaviest * 0 == 0) by (nonlinear_arith);
        let none = only_settled(dist@, done);
        lemma_none_settled(none, count as nat);
        assert(heaviest * settled == 0) by (nonlinear_arith)
            requires
                settled == 0,
        ;
    }
    while pending.len() > 0
        invariant
            count == adjacency@.len(),
            graph_wf(adjacency@, heaviest as int),
            start < count,
            (count + 1) * heaviest < usize::MAX,
            searching(
                adjacency@,
                start as int,
                heaviest as int,
                dist@,
                pending@,
                done,
                floor,
                settled as int,
            ),
            relaxed(adjacency@, dist@, done, -1, 0),
            settled == reached_in(only_settled(dist@, done), count as nat),
            total == total_in(only_settled(dist@, done), count as nat) % (usize::MAX + 1) as nat,
            settled <= count,
        decreases count - settled, pending@.len(),
    {
        let at: usize = least(&pending);
        let ghost queue = pending@;
        let entry = pending.remove(at);
        let cost: usize = entry.0;
        let node: usize = entry.1;
        assert(queue[at as int] == entry);
        assert(pending@ =~= queue.remove(at as int));
        assert(heaviest * settled <= (count + 1) * heaviest) by (nonlinear_arith)
            requires
                settled <= count,
        ;
        proof {
            lemma_removed(queue, at as int);
            assert forall|i: int| 0 <= i < pending@.len() implies cost <= (
            #[trigger] pending@[i]).0 && queue.contains(pending@[i]) && pending@[i] != entry by {
                let j = if i < at {
                    i
                } else {
                    i + 1
                };
                assert(pending@[i] == queue[j]);
            }
        }
        if dist[node] < cost {
            proof {
                assert forall|other: int|
                    0 <= other < dist@.len() && #[trigger] dist@[other] != usize::MAX
                        && !done[other] implies pending@.contains((dist@[other], other as usize)) by {
                    assert(queue.contains((dist@[other], other as usize)));
                    let j = choose|j: int|
                        0 <= j < queue.len() && queue[j] == (dist@[other], other as usize);
                    let i = if j < at {
                        j
                    } else {
                        j - 1
                    };
                    assert(pending@[i] == queue[j]);
                }
                assert forall|i: int| 0 <= i < pending@.len() implies (#[trigger] pending@[i]).1
                    < dist@.len() && floor <= pending@[i].0 && dist@[pending@[i].1 as int]
                    <= pending@[i].0 && pending@[i].0 <= heaviest * settled && (
                done[pending@[i].1 as int] ==> dist@[pending@[i].1 as int] < pending@[i].0) by {
                    let j = if i < at {
                        i
                    } else {
                        i + 1
                    };
                    assert(pending@[i] == queue[j]);
                }
            }
            continue;
        }
        let ghost before_done = done;
        let ghost before = dist@;
        let ghost old_floor = floor;
        proof {
            assert(!done[node as int]);
            assert(dist@[node as int] == cost);
            done = done.update(node as int, true);
            floor = cost as int;
            let was = only_settled(dist@, before_done);
            let now = only_settled(dist@, done);
            lemma_settle(was, now, node as int, count as nat);
            assert(reached_in(was, count as nat) < count) by {
                assert(was[node as int] == usize::MAX);
                lemma_count_bound(was, count as nat);
            }
            vstd::arithmetic::div_mod::lemma_add_mod_noop(
                total_in(was, count as nat) as int,
                cost as int,
                usize::MAX + 1,
            );
            vstd::arithmetic::div_mod::lemma_small_mod(
                cost as nat,
                (usize::MAX + 1) as nat,
            );
        }
        settled = settled + 1;
        total = total.wrapping_add(cost);
        proof {
            assert(heaviest * settled <= (count + 1) * heaviest) by (nonlinear_arith)
                requires
                    settled <= count,
            ;
            assert(total as int == (total_in(
                only_settled(dist@, before_done),
                count as nat,
            ) % (usize::MAX + 1) as nat + cost) % (usize::MAX + 1));
            lemma_next_round(
                adjacency@,
                start as int,
                heaviest as int,
                dist@,
                queue,
                pending@,
                at as int,
                before_done,
                done,
                entry,
                old_floor,
                settled as int,
            );
        }
        let degree: usize = adjacency[node].len();
        let mut k: usize = 0;
        while k < degree
            invariant
                count == adjacency@.len(),
                graph_wf(adjacency@, heaviest as int),
                start < count,
                node < count,
                k <= degree,
                degree == edges_of(adjacency@, node as int).len(),
                searching(
                    adjacency@,
                    start as int,
                    heaviest as int,
                    dist@,
                    pending@,
                    done,
                    cost as int,
                    settled as int,
                ),
                relaxed(adjacency@, dist@, done, node as int, k as int),
                done[node as int],
                done.len() == count,
                before.len() == count,
                dist@[node as int] == cost,
                cost + heaviest <= heaviest * settled,
                heaviest * settled < usize::MAX,
                forall|other: int|
                    0 <= other < count && done[other] ==> dist@[other] == before[other],
            decreases degree - k,
        {
            relax(
                adjacency,
                start,
                Ghost(heaviest as int),
                &mut dist,
                &mut pending,
                Ghost(done),
                cost,
                node,
                k,
                Ghost(settled as int),
            );
            k = k + 1;
        }
        proof {
            lemma_counts_same(
                only_settled(before, done),
                only_settled(dist@, done),
                count as nat,
            );
            assert forall|from: int, edge: int, to: int| #[trigger]
                leads(adjacency@, from, edge, to) && done[from] && !(from == -1 && edge
                    >= 0) implies dist@[to] != usize::MAX && dist@[to] <= dist@[from] + edges_of(
                adjacency@,
                from,
            )[edge].1 by {}
        }
    }
    proof {
        assert forall|node: int| 0 <= node < count && #[trigger] dist@[node]
            != usize::MAX implies done[node] by {
            if !done[node] {
                assert(pending@.contains((dist@[node], node as usize)));
            }
        }
        lemma_counts_same(only_settled(dist@, done), dist@, count as nat);
        lemma_finished(adjacency@, start as int, dist@, done);
    }
    Paths { dist, settled, total }
}

/// An empty set of settled nodes counts nothing.
proof fn lemma_none_settled(dist: Seq<usize>, count: nat)
    requires
        count <= dist.len(),
        forall|node: int| 0 <= node < dist.len() ==> dist[node] == usize::MAX,
    ensures
        reached_in(dist, count) == 0,
        total_in(dist, count) == 0,
    decreases count,
{
    if count > 0 {
        lemma_none_settled(dist, (count - 1) as nat);
    }
}

/// Removing an entry keeps the others apart.
proof fn lemma_removed(queue: Seq<Edge>, at: int)
    requires
        queue.no_duplicates(),
        0 <= at < queue.len(),
    ensures
        queue.remove(at).no_duplicates(),
{
    let rest = queue.remove(at);
    assert forall|i: int, j: int| 0 <= i < rest.len() && 0 <= j < rest.len() && i != j implies rest[i]
        != rest[j] by {
        let left = if i < at {
            i
        } else {
            i + 1
        };
        let right = if j < at {
            j
        } else {
            j + 1
        };
        assert(rest[i] == queue[left]);
        assert(rest[j] == queue[right]);
    }
}

/// Settling the least pending entry keeps the search going.
proof fn lemma_next_round(
    adjacency: Seq<Vec<Edge>>,
    start: int,
    heaviest: int,
    dist: Seq<usize>,
    queue: Seq<Edge>,
    pending: Seq<Edge>,
    at: int,
    before_done: Seq<bool>,
    done: Seq<bool>,
    entry: Edge,
    floor: int,
    settled: int,
)
    requires
        settled > 0,
        heaviest >= 0,
        heaviest * settled < usize::MAX,
        dist.len() <= usize::MAX,
        0 <= at < queue.len(),
        queue[at] == entry,
        pending == queue.remove(at),
        0 <= start < dist.len(),
        searching(adjacency, start, heaviest, dist, queue, before_done, floor, settled - 1),
        relaxed(adjacency, dist, before_done, -1, 0),
        dist[entry.1 as int] == entry.0,
        !before_done[entry.1 as int],
        done == before_done.update(entry.1 as int, true),
        forall|i: int|
            0 <= i < pending.len() ==> entry.0 <= (#[trigger] pending[i]).0 && pending[i] != entry,
    ensures
        searching(adjacency, start, heaviest, dist, pending, done, entry.0 as int, settled),
        relaxed(adjacency, dist, done, entry.1 as int, 0),
        entry.0 + heaviest <= heaviest * settled,
{
    let node = entry.1 as int;
    assert(heaviest * settled == heaviest * (settled - 1) + heaviest) by (nonlinear_arith);
    lemma_removed(queue, at);
    assert forall|other: int| 0 <= other < dist.len() && #[trigger] dist[other] != usize::MAX
        && !done[other] implies pending.contains((dist[other], other as usize)) by {
        assert(!before_done[other]);
        assert(queue.contains((dist[other], other as usize)));
        let j = choose|j: int| 0 <= j < queue.len() && queue[j] == (dist[other], other as usize);
        let i = if j < at {
            j
        } else {
            j - 1
        };
        assert(pending[i] == queue[j]);
    }
    assert forall|i: int| 0 <= i < pending.len() implies (#[trigger] pending[i]).1 < dist.len()
        && entry.0 <= pending[i].0 && dist[pending[i].1 as int] <= pending[i].0 && pending[i].0
        <= heaviest * settled && (done[pending[i].1 as int] ==> dist[pending[i].1 as int]
        < pending[i].0) by {
        let j = if i < at {
            i
        } else {
            i + 1
        };
        assert(pending[i] == queue[j]);
    }
}

/// A finished search found the least costs.
proof fn lemma_finished(adjacency: Seq<Vec<Edge>>, start: int, dist: Seq<usize>, done: Seq<bool>)
    requires
        dist.len() == adjacency.len(),
        done.len() == adjacency.len(),
        0 <= start < dist.len(),
        dist[start] == 0,
        forall|node: int|
            0 <= node < dist.len() && #[trigger] dist[node] != usize::MAX ==> done[node] && costs(
                adjacency,
                start,
                node,
                dist[node] as int,
            ),
        relaxed(adjacency, dist, done, -1, 0),
    ensures
        distances(adjacency, start, dist),
{
    assert forall|from: int, k: int, to: int| #[trigger]
        leads(adjacency, from, k, to) && dist[from] != usize::MAX implies dist[to] != usize::MAX
        && dist[to] <= dist[from] + edges_of(adjacency, from)[k].1 by {
        assert(done[from]);
    }
    assert forall|node: int, cost: int| 0 <= node < dist.len() && #[trigger]
        costs(adjacency, start, node, cost) implies dist[node] != usize::MAX && dist[node]
        <= cost by {
        let steps = choose|steps: nat| #[trigger] walk(adjacency, start, node, cost, steps);
        lemma_relaxed_is_least(adjacency, start, dist, node, cost, steps);
    }
}

/// Where edge `k` of `from` leads, and what it costs.
pub open spec fn edge_at(seed: u64, count: int, from: int, k: int) -> (int, int) {
    if k == 0 {
        ((from + 1) % count, 1 + draw(seed, (7 * from) as nat, 16))
    } else {
        (
            (from * k * 7 + draw(seed, (7 * from + 2 * k - 1) as nat, count)) % count,
            1 + draw(seed, (7 * from + 2 * k) as nat, 64),
        )
    }
}

/// The edges of one node are the ones that the stream of `seed` gives.
pub open spec fn node_built(edges: Seq<Edge>, seed: u64, count: int, from: int) -> bool {
    &&& edges.len() == DEGREE
    &&& forall|k: int|
        0 <= k < DEGREE ==> (#[trigger] edges[k]).0 == edge_at(seed, count, from, k).0 && edges[k].1
            == edge_at(seed, count, from, k).1
}

/// The ring edge keeps every node reachable; the chords add shortcuts.
pub open spec fn graph_built(adjacency: Seq<Vec<Edge>>, seed: u64, count: int) -> bool {
    &&& adjacency.len() == count
    &&& forall|from: int|
        0 <= from < count ==> node_built(#[trigger] edges_of(adjacency, from), seed, count, from)
}

/// The chord `step` of one node.
fn build_chord(
    rng: &mut TraceRng,
    Ghost(seed): Ghost<u64>,
    count: usize,
    from: usize,
    step: usize,
) -> (edge: Edge)
    requires
        0 < count,
        from < count,
        64 * (count + 1) < usize::MAX,
        1 <= step < DEGREE,
        old(rng).at(seed, (7 * from + 2 * step - 1) as nat),
    ensures
        final(rng).at(seed, (7 * from + 2 * step + 1) as nat),
        edge.0 == edge_at(seed, count as int, from as int, step as int).0,
        edge.1 == edge_at(seed, count as int, from as int, step as int).1,
        edge.0 < count,
        1 <= edge.1 <= 64,
{
    assert(0 <= from * step <= count * 3) by (nonlinear_arith)
        requires
            from <= count,
            step <= 3,
    ;
    let shift: usize = rng.next_usize(count);
    assert(rng.at(seed, (7 * from + 2 * step) as nat));
    let cost: usize = rng.next_usize(64);
    ((from * step * 7 + shift) % count, 1 + cost)
}

/// The edges of one node.
fn build_node(rng: &mut TraceRng, Ghost(seed): Ghost<u64>, count: usize, from: usize) -> (edges: Vec<
    Edge,
>)
    requires
        0 < count,
        from < count,
        64 * (count + 1) < usize::MAX,
        old(rng).at(seed, (7 * from) as nat),
    ensures
        final(rng).at(seed, (7 * (from + 1)) as nat),
        node_built(edges@, seed, count as int, from as int),
        forall|k: int|
            0 <= k < edges@.len() ==> (#[trigger] edges@[k]).0 < count && 1 <= edges@[k].1 <= 64,
{
    let mut edges: Vec<Edge> = Vec::new();
    let weight: usize = rng.next_usize(16);
    edges.push(((from + 1) % count, 1 + weight));
    let mut step: usize = 1;
    while step < DEGREE
        invariant
            1 <= step <= DEGREE,
            0 < count,
            from < count,
            64 * (count + 1) < usize::MAX,
            rng.at(seed, (7 * from + 2 * step - 1) as nat),
            edges@.len() == step,
            forall|k: int|
                0 <= k < step ==> (#[trigger] edges@[k]).0 == edge_at(
                    seed,
                    count as int,
                    from as int,
                    k,
                ).0 && edges@[k].1 == edge_at(seed, count as int, from as int, k).1
                    && edges@[k].0 < count && 1 <= edges@[k].1 <= 64,
        decreases DEGREE - step,
    {
        let edge = build_chord(rng, Ghost(seed), count, from, step);
        edges.push(edge);
        step = step + 1;
    }
    edges
}

/// The whole graph.
pub fn build_graph(seed: u64, count: usize) -> (adjacency: Vec<Vec<Edge>>)
    requires
        0 < count,
        64 * (count + 1) < usize::MAX,
    ensures
        graph_built(adjacency@, seed, count as int),
        graph_wf(adjacency@, 64),
{
    let mut rng = TraceRng::new(seed);
    let mut adjacency: Vec<Vec<Edge>> = Vec::new();
    let mut from: usize = 0;
    while from < count
        invariant
            from <= count,
            0 < count,
            64 * (count + 1) < usize::MAX,
            rng.at(seed, (7 * from) as nat),
            adjacency@.len() == from,
            forall|node: int|
                0 <= node < from ==> node_built(
                    #[trigger] edges_of(adjacency@, node),
                    seed,
                    count as int,
                    node,
                ),
            forall|node: int, k: int|
                #![trigger edges_of(adjacency@, node)[k]]
                0 <= node < from && 0 <= k < edges_of(adjacency@, node).len() ==> edges_of(
                    adjacency@,
                    node,
                )[k].0 < count && 1 <= edges_of(adjacency@, node)[k].1 <= 64,
        decreases count - from,
    {
        let ghost before = adjacency@;
        let edges = build_node(&mut rng, Ghost(seed), count, from);
        adjacency.push(edges);
        assert forall|node: int| 0 <= node < from + 1 implies node_built(
            #[trigger] edges_of(adjacency@, node),
            seed,
            count as int,
            node,
        ) by {
            if node < from {
                assert(edges_of(adjacency@, node) == edges_of(before, node));
            }
        }
        assert forall|node: int, k: int|
            #![trigger edges_of(adjacency@, node)[k]]
            0 <= node < from + 1 && 0 <= k < edges_of(adjacency@, node).len() implies edges_of(
            adjacency@,
            node,
        )[k].0 < count && 1 <= edges_of(adjacency@, node)[k].1 <= 64 by {
            if node < from {
                assert(edges_of(adjacency@, node) == edges_of(before, node));
            }
        }
        from = from + 1;
    }
    adjacency
}

/// The checksum of one search: total distance, settled nodes, and reached nodes.
pub open spec fn search_checksum(dist: Seq<usize>) -> usize {
    let total = (total_in(dist, dist.len()) % (usize::MAX + 1) as nat) as usize;
    let reached = reached_in(dist, dist.len()) as usize;
    (total ^ reached) ^ reached
}

/// `value` is the checksum of the search in round `round`.
pub open spec fn round_value(round: int, count: int, value: usize) -> bool {
    exists|adjacency: Seq<Vec<Edge>>, dist: Seq<usize>| #[trigger]
        graph_built(adjacency, 0x9ea0_d151u64 ^ (round as u64), count) && #[trigger] distances(
            adjacency,
            round % count,
            dist,
        ) && value == search_checksum(dist)
}

/// Nodes with a finite distance.
fn count_reached(dist: &Vec<usize>) -> (reached: usize)
    ensures
        reached == reached_in(dist@, dist@.len()),
{
    let mut reached: usize = 0;
    let mut i: usize = 0;
    while i < dist.len()
        invariant
            i <= dist@.len(),
            reached == reached_in(dist@, i as nat),
            reached <= i,
        decreases dist@.len() - i,
    {
        if dist[i] != usize::MAX {
            reached = reached + 1;
        }
        i = i + 1;
    }
    reached
}

/// Build and search one graph for each round.
pub fn graph_shortest_path(rounds: usize, nodes: usize) -> (checksum: usize)
    requires
        64 * (nodes + 3) < usize::MAX,
    ensures
        exists|values: Seq<usize>|
            values.len() == rounds && checksum == #[trigger] xor_seq(values) && forall|round: int|
                0 <= round < rounds ==> round_value(
                    round,
                    if nodes < 2 {
                        2
                    } else {
                        nodes as int
                    },
                    #[trigger] values[round],
                ),
{
    let count: usize = if nodes < 2 {
        2
    } else {
        nodes
    };
    let mut checksum: usize = 0;
    let ghost mut values: Seq<usize> = Seq::empty();
    let mut round: usize = 0;
    while round < rounds
        invariant
            round <= rounds,
            2 <= count,
            count == if nodes < 2 {
                2
            } else {
                nodes as int
            },
            64 * (count + 1) < usize::MAX,
            values.len() == round,
            checksum == xor_seq(values),
            forall|r: int|
                0 <= r < round ==> round_value(r, count as int, #[trigger] values[r]),
        decreases rounds - round,
    {
        let seed: u64 = 0x9ea0_d151u64 ^ (round as u64);
        let adjacency = build_graph(seed, count);
        let start: usize = round % count;
        assert((count + 1) * 64 < usize::MAX);
        let paths = shortest_paths(&adjacency, start, HEAVIEST);
        let reached: usize = count_reached(&paths.dist);
        let value: usize = (paths.total ^ paths.settled) ^ reached;
        checksum = checksum ^ value;
        proof {
            assert(distances(adjacency@, round as int % count as int, paths.dist@));
            assert(graph_built(adjacency@, 0x9ea0_d151u64 ^ (round as u64), count as int));
            assert(value == search_checksum(paths.dist@));
            assert(round_value(round as int, count as int, value));
            let before = values;
            values = values.push(value);
            assert(values.drop_last() =~= before);
        }
        round = round + 1;
    }
    checksum
}

/// `checksum` is one that the workload may return.
pub open spec fn is_checksum(checksum: usize) -> bool {
    exists|values: Seq<usize>|
        values.len() == ROUNDS && checksum == #[trigger] xor_seq(values) && forall|round: int|
            0 <= round < ROUNDS ==> round_value(round, NODES as int, #[trigger] values[round])
}

pub fn run() -> (checksum: usize)
    ensures
        is_checksum(checksum),
{
    graph_shortest_path(ROUNDS, NODES)
}

} // verus!
