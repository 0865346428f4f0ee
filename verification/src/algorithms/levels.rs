//! Level-synchronous breadth-first search.
//!
//! The search keeps a distance per node and the frontier of the current
//! level. Expanding a level gives every unreached neighbour of a frontier
//! node the next distance and puts it on the next frontier.

use crate::algorithms::reach::{
    at_distance, lemma_reaches_nodes, lemma_reaches_within, lemma_walk_single, lemma_within_step,
    lemma_within_unstep, lemma_within_weaken, lemma_within_zero, reaches, rows_closed, within,
    Adjacency,
};
use vstd::prelude::*;

verus! {

/// The distance of a node that was not reached.
pub const UNREACHED: u32 = 0xFFFF_FFFF;

/// How many entries of a distance array are reached.
pub open spec fn reached_count(dist: Seq<u32>) -> nat
    decreases dist.len(),
{
    if dist.len() == 0 {
        0
    } else {
        reached_count(dist.drop_last()) + if dist.last() != UNREACHED {
            1nat
        } else {
            0nat
        }
    }
}

/// No more entries are reached than there are.
pub proof fn lemma_reached_count_bound(dist: Seq<u32>)
    ensures
        reached_count(dist) <= dist.len(),
    decreases dist.len(),
{
    if dist.len() > 0 {
        lemma_reached_count_bound(dist.drop_last());
    }
}

/// Reaching one more entry raises the count by one.
pub proof fn lemma_reached_count_update(dist: Seq<u32>, i: int, d: u32)
    requires
        0 <= i < dist.len(),
        dist[i] == UNREACHED,
        d != UNREACHED,
    ensures
        reached_count(dist.update(i, d)) == reached_count(dist) + 1,
    decreases dist.len(),
{
    let upd = dist.update(i, d);
    if i == dist.len() - 1 {
        assert(upd.drop_last() =~= dist.drop_last());
    } else {
        assert(upd.drop_last() =~= dist.drop_last().update(i, d));
        lemma_reached_count_update(dist.drop_last(), i, d);
    }
}

/// An array without a reached entry counts 0.
pub proof fn lemma_reached_count_none(dist: Seq<u32>)
    requires
        forall|i: int| 0 <= i < dist.len() ==> dist[i] == UNREACHED,
    ensures
        reached_count(dist) == 0,
    decreases dist.len(),
{
    if dist.len() > 0 {
        lemma_reached_count_none(dist.drop_last());
    }
}

/// After `level` levels: the reached nodes are those within `level` steps,
/// and each holds its exact distance.
spec fn levels_ok(rows: Seq<Seq<u32>>, s: u32, dist: Seq<u32>, level: nat) -> bool {
    &&& dist.len() == rows.len()
    &&& forall|v: u32|
        v < rows.len() ==> ((#[trigger] dist[v as int]) != UNREACHED <==> within(rows, s, v, level))
    &&& forall|v: u32|
        v < rows.len() && (#[trigger] dist[v as int]) != UNREACHED ==> dist[v as int] <= level
            && at_distance(rows, s, v, dist[v as int] as nat)
}

/// The frontier of a level: the nodes at exactly that distance.
spec fn is_frontier(dist: Seq<u32>, f: Seq<u32>, level: nat) -> bool {
    &&& forall|i: int| 0 <= i < f.len() ==> (#[trigger] f[i]) < dist.len() && dist[f[i] as int] == level
    &&& forall|v: u32| v < dist.len() && (#[trigger] dist[v as int]) == level ==> f.contains(v)
}

/// While a level is expanded: old distances stand, and every newly
/// reached node is on the next frontier with the next distance, as a
/// neighbour of a frontier node.
spec fn expanding(
    rows: Seq<Seq<u32>>,
    dist0: Seq<u32>,
    dist: Seq<u32>,
    next: Seq<u32>,
    level: nat,
) -> bool {
    &&& dist.len() == rows.len()
    &&& dist0.len() == rows.len()
    &&& forall|v: u32|
        v < rows.len() && (#[trigger] dist0[v as int]) != UNREACHED ==> dist[v as int]
            == dist0[v as int]
    &&& forall|v: u32|
        v < rows.len() && dist0[v as int] == UNREACHED && (#[trigger] dist[v as int]) != UNREACHED
            ==> dist[v as int] == level + 1 && next.contains(v) && exists|m: u32|
            m < rows.len() && (#[trigger] dist0[m as int]) == level && rows[m as int].contains(v)
    &&& forall|i: int|
        0 <= i < next.len() ==> (#[trigger] next[i]) < rows.len() && dist[next[i] as int] == level
            + 1 && dist0[next[i] as int] == UNREACHED
    &&& reached_count(dist) == reached_count(dist0) + next.len()
}

/// The neighbours of the frontier nodes before position `(fi, j)` are reached.
spec fn expanded_upto(rows: Seq<Seq<u32>>, dist: Seq<u32>, frontier: Seq<u32>, fi: int, j: int) -> bool {
    forall|i: int, k: int|
        0 <= i < frontier.len() && 0 <= k < rows[frontier[i] as int].len() && (i < fi || (i == fi
            && k < j)) ==> dist[(#[trigger] rows[frontier[i] as int][k]) as int] != UNREACHED
}

/// A fully expanded level leaves the state of the next level.
proof fn lemma_level_advance(
    rows: Seq<Seq<u32>>,
    s: u32,
    dist0: Seq<u32>,
    dist: Seq<u32>,
    frontier: Seq<u32>,
    next: Seq<u32>,
    level: nat,
)
    requires
        rows_closed(rows),
        levels_ok(rows, s, dist0, level),
        is_frontier(dist0, frontier, level),
        expanding(rows, dist0, dist, next, level),
        expanded_upto(rows, dist, frontier, frontier.len() as int, 0),
        reached_count(dist0) >= level + 1,
        rows.len() <= u32::MAX,
    ensures
        levels_ok(rows, s, dist, level + 1),
        is_frontier(dist, next, level + 1),
{
    assert forall|v: u32| v < rows.len() implies ((#[trigger] dist[v as int]) != UNREACHED
        <==> within(rows, s, v, level + 1)) by {
        if dist0[v as int] != UNREACHED {
            assert(within(rows, s, v, level));
            lemma_within_weaken(rows, s, v, level, level + 1);
        } else if dist[v as int] != UNREACHED {
            let m = choose|m: u32|
                m < rows.len() && (#[trigger] dist0[m as int]) == level && rows[m as int].contains(
                    v,
                );
            assert(within(rows, s, m, level));
            lemma_within_step(rows, s, m, v, level);
        } else if within(rows, s, v, level + 1) {
            lemma_within_unstep(rows, s, v, level);
            assert(!within(rows, s, v, level));
            let m = choose|m: u32|
                #![trigger within(rows, s, m, level)]
                m < rows.len() && within(rows, s, m, level) && rows[m as int].contains(v);
            assert(dist0[m as int] != UNREACHED);
            let dm = dist0[m as int] as nat;
            assert(at_distance(rows, s, m, dm));
            if dm < level {
                lemma_within_step(rows, s, m, v, dm);
                lemma_within_weaken(rows, s, v, dm + 1, level);
                assert(false);
            }
            assert(frontier.contains(m));
            let i = choose|i: int| 0 <= i < frontier.len() && frontier[i] == m;
            let k = choose|k: int| 0 <= k < rows[m as int].len() && rows[m as int][k] == v;
            assert(dist[rows[frontier[i] as int][k] as int] != UNREACHED);
            assert(false);
        }
    }
    assert forall|v: u32|
        v < rows.len() && (#[trigger] dist[v as int]) != UNREACHED implies dist[v as int] <= level
        + 1 && at_distance(rows, s, v, dist[v as int] as nat) by {
        if dist0[v as int] != UNREACHED {
            assert(dist[v as int] == dist0[v as int]);
        } else {
            assert(dist[v as int] == level + 1);
            assert(within(rows, s, v, level + 1));
            assert(!within(rows, s, v, level));
        }
    }
    assert forall|v: u32|
        v < dist.len() && (#[trigger] dist[v as int]) == level + 1 implies next.contains(v) by {
        if dist0[v as int] != UNREACHED {
            assert(dist0[v as int] <= level);
        } else if dist[v as int] == UNREACHED {
            // Every node would be reached already.
            lemma_reached_count_update(dist0, v as int, 0);
            lemma_reached_count_bound(dist0.update(v as int, 0));
        }
    }
}

/// Once a level has no node, every node within any number of steps is
/// reached.
proof fn lemma_exhausted(rows: Seq<Seq<u32>>, s: u32, dist: Seq<u32>, level: nat, v: u32, d: nat)
    requires
        rows_closed(rows),
        levels_ok(rows, s, dist, level),
        forall|x: u32| x < rows.len() ==> (#[trigger] dist[x as int]) != level,
        v < rows.len(),
        within(rows, s, v, d),
    ensures
        dist[v as int] != UNREACHED,
    decreases d,
{
    if d <= level {
        lemma_within_weaken(rows, s, v, d, level);
    } else {
        lemma_within_unstep(rows, s, v, (d - 1) as nat);
        if within(rows, s, v, (d - 1) as nat) {
            lemma_exhausted(rows, s, dist, level, v, (d - 1) as nat);
        } else {
            let m = choose|m: u32|
                #![trigger within(rows, s, m, (d - 1) as nat)]
                m < rows.len() && within(rows, s, m, (d - 1) as nat) && rows[m as int].contains(v);
            lemma_exhausted(rows, s, dist, level, m, (d - 1) as nat);
            let dm = dist[m as int] as nat;
            assert(dm <= level && at_distance(rows, s, m, dm));
            assert(dm != level);
            lemma_within_step(rows, s, m, v, dm);
            lemma_within_weaken(rows, s, v, dm + 1, level);
        }
    }
}

/// A vector of `n` unreached entries.
fn all_unreached(n: usize) -> (v: Vec<u32>)
    ensures
        v@.len() == n,
        forall|i: int| 0 <= i < n ==> v@[i] == UNREACHED,
{
    let mut v: Vec<u32> = Vec::new();
    let mut i: usize = 0;
    while i < n
        invariant
            i <= n,
            v@.len() == i,
            forall|j: int| 0 <= j < i ==> v@[j] == UNREACHED,
        decreases n - i,
    {
        v.push(UNREACHED);
        i += 1;
    }
    v
}

/// Distances from `source`, level by level, for at most `max_depth` levels.
///
/// A node within `max_depth` steps holds its exact distance; every other
/// node holds `UNREACHED`. With `max_depth` at least the node count, every
/// reachable node is within reach. A source that is no node reaches
/// nothing.
pub fn bfs_levels<A: Adjacency>(adj: &A, source: u32, max_depth: usize) -> (dist: Vec<u32>)
    requires
        adj.valid(),
    ensures
        dist@.len() == adj.rows().len(),
        forall|v: u32|
            v < adj.rows().len() ==> ((#[trigger] dist@[v as int]) != UNREACHED <==> within(
                adj.rows(),
                source,
                v,
                max_depth as nat,
            )),
        forall|v: u32|
            v < adj.rows().len() && (#[trigger] dist@[v as int]) != UNREACHED ==> at_distance(
                adj.rows(),
                source,
                v,
                dist@[v as int] as nat,
            ),
        max_depth >= adj.rows().len() ==> forall|v: u32|
            v < adj.rows().len() && reaches(adj.rows(), source, v) ==> (#[trigger] dist@[v as int])
                != UNREACHED,
{
    let ghost rows = adj.rows();
    proof {
        adj.lemma_valid();
    }
    let n = adj.node_total();
    let mut dist = all_unreached(n);
    if source as usize >= n {
        proof {
            assert forall|v: u32, d: nat| !within(rows, source, v, d) by {
                if within(rows, source, v, d) {
                    lemma_within_weaken(rows, source, v, d, d);
                    lemma_reaches_nodes(rows, source, v);
                }
            }
            assert forall|v: u32| !reaches(rows, source, v) by {
                if reaches(rows, source, v) {
                    lemma_reaches_nodes(rows, source, v);
                }
            }
        }
        return dist;
    }
    proof {
        lemma_reached_count_none(dist@);
        lemma_reached_count_update(dist@, source as int, 0);
    }
    dist.set(source as usize, 0);
    let mut frontier: Vec<u32> = Vec::new();
    frontier.push(source);
    let mut level: u32 = 0;
    proof {
        lemma_walk_single(rows, source);
        assert forall|v: u32| v < rows.len() implies ((#[trigger] dist@[v as int]) != UNREACHED
            <==> within(rows, source, v, 0)) by {
            if within(rows, source, v, 0) {
                lemma_within_zero(rows, source, v);
            }
        }
        assert(frontier@[0] == source);
    }
    while frontier.len() > 0 && (level as usize) < max_depth
        invariant
            rows == adj.rows(),
            adj.valid(),
            rows_closed(rows),
            n == rows.len(),
            n <= u32::MAX,
            source < n,
            level <= max_depth,
            levels_ok(rows, source, dist@, level as nat),
            is_frontier(dist@, frontier@, level as nat),
            frontier@.len() > 0 ==> reached_count(dist@) >= level + 1,
        decreases max_depth - level,
    {
        let ghost dist0 = dist@;
        let mut next: Vec<u32> = Vec::new();
        let mut fi: usize = 0;
        while fi < frontier.len()
            invariant
                rows == adj.rows(),
                adj.valid(),
                rows_closed(rows),
                n == rows.len(),
                n <= u32::MAX,
                fi <= frontier@.len(),
                levels_ok(rows, source, dist0, level as nat),
                is_frontier(dist0, frontier@, level as nat),
                reached_count(dist0) >= level + 1,
                expanding(rows, dist0, dist@, next@, level as nat),
                expanded_upto(rows, dist@, frontier@, fi as int, 0),
            decreases frontier@.len() - fi,
        {
            let f = frontier[fi] as usize;
            let deg = adj.degree(f);
            let mut j: u64 = 0;
            while j < deg
                invariant
                    rows == adj.rows(),
                    adj.valid(),
                    rows_closed(rows),
                    n == rows.len(),
                    n <= u32::MAX,
                    fi < frontier@.len(),
                    f == frontier@[fi as int],
                    f < n,
                    deg == rows[f as int].len(),
                    j <= deg,
                    levels_ok(rows, source, dist0, level as nat),
                    is_frontier(dist0, frontier@, level as nat),
                    reached_count(dist0) >= level + 1,
                    expanding(rows, dist0, dist@, next@, level as nat),
                    expanded_upto(rows, dist@, frontier@, fi as int, j as int),
                decreases deg - j,
            {
                let x = adj.neighbor(f, j);
                let ghost before = dist@;
                let ghost next_before = next@;
                assert(x == rows[f as int][j as int]);
                assert(x < n);
                if dist[x as usize] == UNREACHED {
                    proof {
                        lemma_reached_count_update(before, x as int, 1);
                        lemma_reached_count_bound(before.update(x as int, 1));
                        lemma_reached_count_update(before, x as int, (level + 1) as u32);
                        assert(dist0[x as int] == UNREACHED);
                    }
                    dist.set(x as usize, level + 1);
                    next.push(x);
                    proof {
                        assert(next@.last() == x);
                        assert forall|v: u32|
                            v < rows.len() && dist0[v as int] == UNREACHED && (
                            #[trigger] dist@[v as int]) != UNREACHED implies dist@[v as int]
                            == level + 1 && next@.contains(v) && exists|m: u32|
                            m < rows.len() && (#[trigger] dist0[m as int]) == level
                                && rows[m as int].contains(v) by {
                            if v == x {
                                assert(next@[next@.len() - 1] == x);
                                assert(dist0[(f as u32) as int] == level);
                                assert(rows[f as int].contains(x));
                            } else {
                                assert(before[v as int] != UNREACHED);
                                assert(next_before.contains(v));
                                let i = choose|i: int|
                                    0 <= i < next_before.len() && next_before[i] == v;
                                assert(next@[i] == v);
                            }
                        }
                        assert forall|i: int| 0 <= i < next@.len() implies (#[trigger] next@[i])
                            < rows.len() && dist@[next@[i] as int] == level + 1
                            && dist0[next@[i] as int] == UNREACHED by {
                            if i < next_before.len() {
                                assert(next@[i] == next_before[i]);
                            }
                        }
                    }
                }
                proof {
                    assert forall|i: int, k: int|
                        0 <= i < frontier@.len() && 0 <= k < rows[frontier@[i] as int].len() && (i
                            < fi || (i == fi && k < j + 1)) implies dist@[(
                    #[trigger] rows[frontier@[i] as int][k]) as int] != UNREACHED by {
                        if i == fi && k == j {
                        } else {
                            assert(before[rows[frontier@[i] as int][k] as int] != UNREACHED);
                        }
                    }
                }
                j += 1;
            }
            fi += 1;
        }
        proof {
            if next@.len() > 0 {
                lemma_reached_count_bound(dist@);
            }
            lemma_reached_count_bound(dist0);
            lemma_level_advance(rows, source, dist0, dist@, frontier@, next@, level as nat);
        }
        frontier = next;
        level += 1;
    }
    proof {
        assert forall|v: u32| v < rows.len() implies ((#[trigger] dist@[v as int]) != UNREACHED
            <==> within(rows, source, v, max_depth as nat)) by {
            if dist@[v as int] != UNREACHED {
                lemma_within_weaken(rows, source, v, level as nat, max_depth as nat);
            } else if within(rows, source, v, max_depth as nat) {
                if frontier@.len() == 0 {
                    assert forall|x: u32| x < rows.len() implies (#[trigger] dist@[x as int])
                        != level by {
                        if dist@[x as int] == level {
                            assert(frontier@.contains(x));
                        }
                    }
                    lemma_exhausted(rows, source, dist@, level as nat, v, max_depth as nat);
                }
            }
        }
        if max_depth >= rows.len() {
            lemma_reached_count_bound(dist@);
            assert(frontier@.len() == 0);
            assert forall|v: u32| v < rows.len() && reaches(rows, source, v) implies (
            #[trigger] dist@[v as int]) != UNREACHED by {
                let d = lemma_reaches_within(rows, source, v);
                assert forall|x: u32| x < rows.len() implies (#[trigger] dist@[x as int])
                    != level by {
                    if dist@[x as int] == level {
                        assert(frontier@.contains(x));
                    }
                }
                lemma_exhausted(rows, source, dist@, level as nat, v, d);
            }
        }
    }
    dist
}

} // verus!
