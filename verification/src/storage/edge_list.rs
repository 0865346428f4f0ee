//! Edge lists and the CSR layout they determine.
//!
//! An edge is a triple `(source, target, weight bits)`. Read forward, an
//! edge is filed under its source and contributes `(target, weight)` to that
//! row; read in reverse, it is filed under its target and contributes
//! `(source, weight)`.

use crate::storage::csr::{csr_layout, csr_row, NodeId};
use vstd::prelude::*;

verus! {

/// The node an edge is filed under.
pub open spec fn edge_key(e: (NodeId, NodeId, u32), rev: bool) -> u32 {
    if rev {
        e.1.0
    } else {
        e.0.0
    }
}

/// What an edge contributes to the row it is filed under.
pub open spec fn edge_entry(e: (NodeId, NodeId, u32), rev: bool) -> (u32, u32) {
    if rev {
        (e.0.0, e.2)
    } else {
        (e.1.0, e.2)
    }
}

/// The entries of the edges filed under `u`, in list order.
pub open spec fn bucket(edges: Seq<(NodeId, NodeId, u32)>, rev: bool, u: u32) -> Seq<(u32, u32)>
    decreases edges.len(),
{
    if edges.len() == 0 {
        Seq::empty()
    } else {
        let rest = bucket(edges.drop_last(), rev, u);
        if edge_key(edges.last(), rev) == u {
            rest.push(edge_entry(edges.last(), rev))
        } else {
            rest
        }
    }
}

/// Outgoing `(target, weight)` pairs of `u` in an edge list, in list order.
pub open spec fn out_list(edges: Seq<(NodeId, NodeId, u32)>, u: u32) -> Seq<(u32, u32)> {
    bucket(edges, false, u)
}

/// Incoming `(source, weight)` pairs of `v` in an edge list, in list order.
pub open spec fn in_list(edges: Seq<(NodeId, NodeId, u32)>, v: u32) -> Seq<(u32, u32)> {
    bucket(edges, true, v)
}

/// How many edges are filed under a node below `u`.
pub open spec fn keys_below(edges: Seq<(NodeId, NodeId, u32)>, rev: bool, u: nat) -> nat
    decreases edges.len(),
{
    if edges.len() == 0 {
        0
    } else {
        keys_below(edges.drop_last(), rev, u) + if edge_key(edges.last(), rev) < u {
            1nat
        } else {
            0nat
        }
    }
}

/// The number of nodes an edge list spans: one more than its largest
/// endpoint, and 0 for the empty list.
pub open spec fn node_span(edges: Seq<(NodeId, NodeId, u32)>) -> nat
    decreases edges.len(),
{
    if edges.len() == 0 {
        0
    } else {
        let e = edges.last();
        let here: nat = if e.0.0 >= e.1.0 {
            (e.0.0 + 1) as nat
        } else {
            (e.1.0 + 1) as nat
        };
        let rest = node_span(edges.drop_last());
        if here >= rest {
            here
        } else {
            rest
        }
    }
}

/// Every endpoint of an edge list lies below its span.
pub proof fn lemma_span_bounds(edges: Seq<(NodeId, NodeId, u32)>, i: int)
    requires
        0 <= i < edges.len(),
    ensures
        edges[i].0.0 < node_span(edges),
        edges[i].1.0 < node_span(edges),
    decreases edges.len(),
{
    if i < edges.len() - 1 {
        lemma_span_bounds(edges.drop_last(), i);
    }
}

/// A non-empty edge list has an edge that touches its last node.
pub proof fn lemma_span_witness(edges: Seq<(NodeId, NodeId, u32)>) -> (i: int)
    requires
        edges.len() > 0,
    ensures
        0 <= i < edges.len(),
        edges[i].0.0 + 1 == node_span(edges) || edges[i].1.0 + 1 == node_span(edges),
    decreases edges.len(),
{
    let e = edges.last();
    let here: nat = if e.0.0 >= e.1.0 {
        (e.0.0 + 1) as nat
    } else {
        (e.1.0 + 1) as nat
    };
    if here >= node_span(edges.drop_last()) {
        edges.len() - 1
    } else {
        lemma_span_witness(edges.drop_last())
    }
}

/// A bucket holds at most as many entries as the list has edges.
pub proof fn lemma_bucket_len(edges: Seq<(NodeId, NodeId, u32)>, rev: bool, u: u32)
    ensures
        bucket(edges, rev, u).len() <= edges.len(),
    decreases edges.len(),
{
    if edges.len() > 0 {
        lemma_bucket_len(edges.drop_last(), rev, u);
    }
}

/// The bucket of a prefix is no longer than the bucket of the whole list.
pub proof fn lemma_bucket_prefix_len(
    edges: Seq<(NodeId, NodeId, u32)>,
    rev: bool,
    u: u32,
    k: int,
)
    requires
        0 <= k <= edges.len(),
    ensures
        bucket(edges.take(k), rev, u).len() <= bucket(edges, rev, u).len(),
    decreases edges.len(),
{
    if k == edges.len() {
        assert(edges.take(k) =~= edges);
    } else {
        assert(edges.drop_last().take(k) =~= edges.take(k));
        lemma_bucket_prefix_len(edges.drop_last(), rev, u, k);
    }
}

/// Taking one more edge appends its entry to the bucket it is filed under
/// and leaves the other buckets alone.
pub proof fn lemma_bucket_take_step(
    edges: Seq<(NodeId, NodeId, u32)>,
    rev: bool,
    u: u32,
    k: int,
)
    requires
        0 <= k < edges.len(),
    ensures
        bucket(edges.take(k + 1), rev, u) == if edge_key(edges[k], rev) == u {
            bucket(edges.take(k), rev, u).push(edge_entry(edges[k], rev))
        } else {
            bucket(edges.take(k), rev, u)
        },
{
    assert(edges.take(k + 1).drop_last() =~= edges.take(k));
    assert(edges.take(k + 1).last() == edges[k]);
}

/// Raising the bound by one adds the bucket of the node that came in.
pub proof fn lemma_keys_below_step(edges: Seq<(NodeId, NodeId, u32)>, rev: bool, u: u32)
    ensures
        keys_below(edges, rev, (u + 1) as nat) == keys_below(edges, rev, u as nat) + bucket(
            edges,
            rev,
            u,
        ).len(),
    decreases edges.len(),
{
    if edges.len() > 0 {
        lemma_keys_below_step(edges.drop_last(), rev, u);
    }
}

/// Nothing is filed below node 0, and everything below a bound that
/// exceeds every key.
pub proof fn lemma_keys_below_ends(edges: Seq<(NodeId, NodeId, u32)>, rev: bool, n: nat)
    requires
        forall|i: int| 0 <= i < edges.len() ==> edge_key(#[trigger] edges[i], rev) < n,
    ensures
        keys_below(edges, rev, 0) == 0,
        keys_below(edges, rev, n) == edges.len(),
    decreases edges.len(),
{
    if edges.len() > 0 {
        assert(edge_key(edges[edges.len() - 1], rev) < n);
        lemma_keys_below_ends(edges.drop_last(), rev, n);
    }
}

/// `keys_below` grows with its bound and never exceeds the list length.
pub proof fn lemma_keys_below_monotone(
    edges: Seq<(NodeId, NodeId, u32)>,
    rev: bool,
    a: nat,
    b: nat,
)
    requires
        a <= b,
    ensures
        keys_below(edges, rev, a) <= keys_below(edges, rev, b) <= edges.len(),
    decreases edges.len(),
{
    if edges.len() > 0 {
        lemma_keys_below_monotone(edges.drop_last(), rev, a, b);
    }
}

/// The bucket an edge is filed under is not empty.
pub proof fn lemma_bucket_has(edges: Seq<(NodeId, NodeId, u32)>, rev: bool, i: int)
    requires
        0 <= i < edges.len(),
    ensures
        bucket(edges, rev, edge_key(edges[i], rev)).len() > 0,
    decreases edges.len(),
{
    if i < edges.len() - 1 {
        lemma_bucket_has(edges.drop_last(), rev, i);
    }
}

/// An edge `(u, v, w)` is listed as often among the outgoing entries of
/// `u` as among the incoming entries of `v`.
pub proof fn lemma_buckets_match(edges: Seq<(NodeId, NodeId, u32)>, u: u32, v: u32, w: u32)
    ensures
        out_list(edges, u).to_multiset().count((v, w)) == in_list(edges, v).to_multiset().count(
            (u, w),
        ),
    decreases edges.len(),
{
    broadcast use vstd::seq_lib::group_to_multiset_ensures;

    if edges.len() > 0 {
        lemma_buckets_match(edges.drop_last(), u, v, w);
    } else {
        assert(out_list(edges, u).to_multiset().count((v, w)) == 0);
        assert(in_list(edges, v).to_multiset().count((u, w)) == 0);
    }
}

/// A vector of `n` zeros.
pub(crate) fn zeros(n: usize) -> (v: Vec<u32>)
    ensures
        v@.len() == n,
        forall|i: int| 0 <= i < n ==> v@[i] == 0,
{
    let mut v: Vec<u32> = Vec::new();
    let mut i: usize = 0;
    while i < n
        invariant
            i <= n,
            v@.len() == i,
            forall|j: int| 0 <= j < i ==> v@[j] == 0,
        decreases n - i,
    {
        v.push(0);
        i += 1;
    }
    v
}

/// The node an edge is filed under.
fn key_of(e: (NodeId, NodeId, u32), rev: bool) -> (k: u32)
    ensures
        k == edge_key(e, rev),
{
    if rev {
        e.1.0
    } else {
        e.0.0
    }
}

/// One more than the largest endpoint of an edge list; 0 for the empty list.
pub(crate) fn span_of(edges: &[(NodeId, NodeId, u32)]) -> (n: usize)
    requires
        forall|i: int|
            0 <= i < edges@.len() ==> (#[trigger] edges@[i]).0.0 < u32::MAX && edges@[i].1.0
                < u32::MAX,
    ensures
        n == node_span(edges@),
        n <= u32::MAX,
{
    let mut n: usize = 0;
    let mut k: usize = 0;
    while k < edges.len()
        invariant
            k <= edges@.len(),
            n == node_span(edges@.take(k as int)),
            n <= u32::MAX,
            forall|i: int|
                0 <= i < edges@.len() ==> (#[trigger] edges@[i]).0.0 < u32::MAX && edges@[i].1.0
                    < u32::MAX,
        decreases edges@.len() - k,
    {
        let e = edges[k];
        let hi: u32 = if e.0.0 >= e.1.0 {
            e.0.0
        } else {
            e.1.0
        };
        proof {
            assert(edges@.take(k + 1).drop_last() =~= edges@.take(k as int));
            assert(edges@.take(k + 1).last() == edges@[k as int]);
        }
        if hi as usize + 1 >= n {
            n = hi as usize + 1;
        }
        k += 1;
    }
    proof {
        assert(edges@.take(k as int) =~= edges@);
    }
    n
}

/// Builds the CSR layout of an edge list over `n` nodes in two linear
/// passes: count the entries of every row and turn the counts into offsets,
/// then place every entry at the write cursor of its row.
pub(crate) fn build_layout(edges: &[(NodeId, NodeId, u32)], rev: bool, n: usize) -> (r: (
    Vec<u32>,
    Vec<u32>,
    Vec<u32>,
))
    requires
        edges@.len() <= u32::MAX,
        n <= u32::MAX,
        forall|i: int|
            0 <= i < edges@.len() ==> (#[trigger] edges@[i]).0.0 < n && edges@[i].1.0 < n,
    ensures
        csr_layout(r.0@, r.1@, r.2@, n as nat),
        r.1@.len() == edges@.len(),
        forall|u: u32| u < n ==> csr_row(r.0@, r.1@, r.2@, u as int) == bucket(edges@, rev, u),
{
    let ghost es = edges@;
    let m = edges.len();
    // Pass 1a: off[u + 1] counts the entries of row u.
    let mut off = zeros(n);
    off.push(0);
    let mut k: usize = 0;
    while k < m
        invariant
            k <= m,
            m == es.len(),
            es == edges@,
            m <= u32::MAX,
            off@.len() == n + 1,
            off@[0] == 0,
            forall|i: int| 0 <= i < es.len() ==> (#[trigger] es[i]).0.0 < n && es[i].1.0 < n,
            forall|u: u32| u < n ==> (#[trigger] off@[u + 1]) == bucket(es.take(k as int), rev, u).len(),
        decreases m - k,
    {
        let key = key_of(edges[k], rev) as usize;
        proof {
            assert(es[k as int].0.0 < n && es[k as int].1.0 < n);
            lemma_bucket_len(es.take(k + 1), rev, key as u32);
            assert forall|u: u32| u < n implies bucket(es.take(k + 1), rev, u) == if edge_key(
                es[k as int],
                rev,
            ) == u {
                bucket(es.take(k as int), rev, u).push(edge_entry(es[k as int], rev))
            } else {
                bucket(es.take(k as int), rev, u)
            } by {
                lemma_bucket_take_step(es, rev, u, k as int);
            }
            assert(off@[(key as u32) + 1] == bucket(es.take(k as int), rev, key as u32).len());
        }
        let c = off[key + 1];
        off.set(key + 1, c + 1);
        k += 1;
    }
    proof {
        assert(es.take(m as int) =~= es);
        lemma_keys_below_ends(es, rev, n as nat);
    }
    // Pass 1b: prefix sums turn the counts into offsets.
    let mut u: usize = 0;
    while u < n
        invariant
            u <= n,
            n <= u32::MAX,
            m == es.len(),
            m <= u32::MAX,
            off@.len() == n + 1,
            forall|i: int| 0 <= i <= u ==> (#[trigger] off@[i]) == keys_below(es, rev, i as nat),
            forall|v: u32| u <= v < n ==> (#[trigger] off@[v + 1]) == bucket(es, rev, v).len(),
        decreases n - u,
    {
        proof {
            lemma_keys_below_step(es, rev, u as u32);
            lemma_keys_below_monotone(es, rev, (u + 1) as nat, (u + 1) as nat);
            assert(off@[(u as u32) + 1] == bucket(es, rev, u as u32).len());
        }
        let below = off[u];
        let here = off[u + 1];
        off.set(u + 1, below + here);
        u += 1;
    }
    // Pass 2: place every entry at the cursor of its row.
    let mut cursor: Vec<u32> = Vec::new();
    let mut i: usize = 0;
    while i < n
        invariant
            i <= n,
            off@.len() == n + 1,
            cursor@.len() == i,
            forall|j: int| 0 <= j < i ==> cursor@[j] == off@[j],
        decreases n - i,
    {
        cursor.push(off[i]);
        i += 1;
    }
    let mut col = zeros(m);
    let mut w = zeros(m);
    proof {
        assert forall|a: int, b: int| 0 <= a <= b <= n implies off@[a] <= off@[b] by {
            lemma_keys_below_monotone(es, rev, a as nat, b as nat);
        }
        assert forall|v: u32| v < n implies off@[v + 1] == off@[v as int] + bucket(
            es,
            rev,
            v,
        ).len() by {
            lemma_keys_below_step(es, rev, v);
        }
        assert(es.take(0) =~= Seq::<(NodeId, NodeId, u32)>::empty());
    }
    let mut k: usize = 0;
    while k < m
        invariant
            k <= m,
            m == es.len(),
            es == edges@,
            m <= u32::MAX,
            n <= u32::MAX,
            off@.len() == n + 1,
            cursor@.len() == n,
            col@.len() == m,
            w@.len() == m,
            off@[n as int] == m,
            forall|i: int| 0 <= i < es.len() ==> (#[trigger] es[i]).0.0 < n && es[i].1.0 < n,
            forall|a: int, b: int| 0 <= a <= b <= n ==> off@[a] <= off@[b],
            forall|v: u32|
                v < n ==> (#[trigger] off@[v + 1]) == off@[v as int] + bucket(es, rev, v).len(),
            forall|v: u32|
                v < n ==> (#[trigger] cursor@[v as int]) == off@[v as int] + bucket(
                    es.take(k as int),
                    rev,
                    v,
                ).len(),
            forall|v: u32, j: int|
                v < n && 0 <= j < bucket(es.take(k as int), rev, v).len() ==> (
                col@[off@[v as int] + j],
                w@[off@[v as int] + j],
            ) == #[trigger] bucket(es.take(k as int), rev, v)[j],
            forall|i: int| 0 <= i < m ==> (#[trigger] col@[i]) < n,
        decreases m - k,
    {
        let e = edges[k];
        let key = key_of(e, rev) as usize;
        let entry_col: u32 = if rev {
            e.0.0
        } else {
            e.1.0
        };
        let ghost key32 = key as u32;
        let ghost before = es.take(k as int);
        let ghost after = es.take(k + 1);
        proof {
            assert(es[k as int].0.0 < n && es[k as int].1.0 < n);
            lemma_bucket_prefix_len(es, rev, key32, k + 1);
            assert forall|v: u32| v < n implies bucket(after, rev, v) == if edge_key(
                es[k as int],
                rev,
            ) == v {
                bucket(before, rev, v).push(edge_entry(es[k as int], rev))
            } else {
                bucket(before, rev, v)
            } by {
                lemma_bucket_take_step(es, rev, v, k as int);
            }
            assert(cursor@[key32 as int] == off@[key32 as int] + bucket(before, rev, key32).len());
            assert(off@[key32 + 1] == off@[key32 as int] + bucket(es, rev, key32).len());
            assert(off@[key32 + 1] <= off@[n as int]);
        }
        let pos = cursor[key] as usize;
        let ghost col0 = col@;
        let ghost w0 = w@;
        col.set(pos, entry_col);
        w.set(pos, e.2);
        cursor.set(key, (pos + 1) as u32);
        proof {
            assert forall|v: u32, j: int| v < n && 0 <= j < bucket(after, rev, v).len() implies (
                col@[off@[v as int] + j],
                w@[off@[v as int] + j],
            ) == #[trigger] bucket(after, rev, v)[j] by {
                if v == key32 {
                    if j < bucket(before, rev, v).len() {
                        assert((col0[off@[v as int] + j], w0[off@[v as int] + j]) == bucket(
                            before,
                            rev,
                            v,
                        )[j]);
                    }
                } else {
                    assert((col0[off@[v as int] + j], w0[off@[v as int] + j]) == bucket(
                        before,
                        rev,
                        v,
                    )[j]);
                    lemma_bucket_prefix_len(es, rev, v, k as int);
                    assert(off@[v + 1] == off@[v as int] + bucket(es, rev, v).len());
                    if v < key32 {
                        assert(off@[v + 1] <= off@[key32 as int]);
                    } else {
                        assert(off@[key32 + 1] <= off@[v as int]);
                    }
                }
            }
        }
        k += 1;
    }
    proof {
        assert(es.take(m as int) =~= es);
        assert forall|v: u32| v < n implies csr_row(off@, col@, w@, v as int) == bucket(
            es,
            rev,
            v,
        ) by {
            assert(off@[v + 1] == off@[v as int] + bucket(es, rev, v).len());
            assert forall|j: int| 0 <= j < bucket(es, rev, v).len() implies csr_row(
                off@,
                col@,
                w@,
                v as int,
            )[j] == bucket(es, rev, v)[j] by {
                assert((col@[off@[v as int] + j], w@[off@[v as int] + j]) == bucket(
                    es.take(m as int),
                    rev,
                    v,
                )[j]);
            }
            assert(csr_row(off@, col@, w@, v as int) =~= bucket(es, rev, v));
        }
        assert(off@[0] == keys_below(es, rev, 0));
    }
    (off, col, w)
}

} // verus!
