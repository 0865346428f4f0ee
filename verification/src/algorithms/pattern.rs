//! Detectors for three anti-patterns of call graphs: nodes that call too
//! much, dependency cycles of a given length, and nodes nobody calls.

use crate::algorithms::reach::{
    graph_rows, hop, is_walk, lemma_graph_rows_closed, lemma_walk_push, lemma_walk_single,
    Direction,
};
use crate::algorithms::counting::{all_false, lemma_distinct_bound};
use crate::error::GraphError;
use crate::storage::csr::{CsrGraph, NodeId};
use std::collections::HashMap;
use vstd::prelude::*;
use vstd::string::StringExecFns;

verus! {

/// How bad a finding is. The order is `Low < Medium < High < Critical`.
#[derive(Debug, Clone, Copy, PartialEq, Eq, Structural, PartialOrd, Ord)]
pub enum Severity {
    /// A minor smell.
    Low,
    /// Should be refactored.
    Medium,
    /// A significant anti-pattern.
    High,
    /// An architectural flaw.
    Critical,
}

impl Severity {
    /// The place of a severity in the order, from 0 for `Low` to 3 for
    /// `Critical`.
    pub open spec fn rank_spec(self) -> nat {
        match self {
            Severity::Low => 0,
            Severity::Medium => 1,
            Severity::High => 2,
            Severity::Critical => 3,
        }
    }

    /// The place of a severity in the order.
    pub fn rank(self) -> (r: u8)
        ensures
            r == self.rank_spec(),
    {
        match self {
            Severity::Low => 0,
            Severity::Medium => 1,
            Severity::High => 2,
            Severity::Critical => 3,
        }
    }
}

/// One finding: which graph nodes play the pattern's roles.
#[derive(Debug, Clone)]
pub struct PatternMatch {
    /// Pattern node to graph node.
    pub node_mapping: HashMap<u32, NodeId>,
    /// Name of the pattern that matched.
    pub pattern_name: String,
    /// Severity of the finding.
    pub severity: Severity,
}

/// What to look for.
#[derive(Debug, Clone)]
pub struct Pattern {
    /// Name of the pattern; it selects the detector.
    pub name: String,
    /// Edges of the pattern, over pattern-local node ids.
    pub edges: Vec<(u32, u32)>,
    /// Least number of nodes of a match.
    pub min_nodes: usize,
    /// Greatest number of nodes of a match, if bounded.
    pub max_nodes: Option<usize>,
    /// Severity of a match.
    pub severity: Severity,
}

/// The number of pattern nodes that a list of pattern edges spans: one
/// more than the largest id, 0 for no edge.
pub open spec fn pattern_span(edges: Seq<(u32, u32)>) -> nat
    decreases edges.len(),
{
    if edges.len() == 0 {
        0
    } else {
        let e = edges.last();
        let here: nat = if e.0 >= e.1 {
            (e.0 + 1) as nat
        } else {
            (e.1 + 1) as nat
        };
        let rest = pattern_span(edges.drop_last());
        if here >= rest {
            here
        } else {
            rest
        }
    }
}

/// The edges up to a place span no more than all of them.
proof fn lemma_span_prefix(edges: Seq<(u32, u32)>, k: int)
    requires
        0 <= k <= edges.len(),
    ensures
        pattern_span(edges.take(k)) <= pattern_span(edges),
    decreases edges.len(),
{
    if k == edges.len() {
        assert(edges.take(k) =~= edges);
    } else {
        assert(edges.drop_last().take(k) =~= edges.take(k));
        lemma_span_prefix(edges.drop_last(), k);
    }
}

/// The edges of a directed ring over `len` nodes: `i -> (i + 1) mod len`.
pub open spec fn ring_edges(len: nat) -> Seq<(u32, u32)> {
    Seq::new(len, |i: int| (i as u32, ((i + 1) % (len as int)) as u32))
}

impl Pattern {
    /// A pattern from its edges. Its least node count is the number of
    /// nodes the edges span; the greatest is open. The span must be a
    /// `usize`, as it is for every list of edges where a `usize` is wider
    /// than a pattern node id.
    pub fn new(name: String, edges: Vec<(u32, u32)>, severity: Severity) -> (p: Self)
        requires
            pattern_span(edges@) <= usize::MAX,
        ensures
            p.name@ == name@,
            p.edges@ == edges@,
            p.min_nodes == pattern_span(edges@),
            p.max_nodes is None,
            p.severity == severity,
    {
        let mut span: usize = 0;
        let mut k: usize = 0;
        while k < edges.len()
            invariant
                k <= edges@.len(),
                span == pattern_span(edges@.take(k as int)),
                pattern_span(edges@) <= usize::MAX,
            decreases edges@.len() - k,
        {
            let e = edges[k];
            let hi: u32 = if e.0 >= e.1 {
                e.0
            } else {
                e.1
            };
            proof {
                assert(edges@.take(k + 1).drop_last() =~= edges@.take(k as int));
                assert(edges@.take(k + 1).last() == edges@[k as int]);
                lemma_span_prefix(edges@, k + 1);
                assert(hi + 1 <= pattern_span(edges@.take(k + 1)));
            }
            if hi as usize + 1 >= span {
                span = hi as usize + 1;
            }
            k += 1;
        }
        proof {
            assert(edges@.take(k as int) =~= edges@);
        }
        Pattern { name, edges, min_nodes: span, max_nodes: None, severity }
    }

    /// The "God Class" pattern: a node with at least `min_callees` callees.
    pub fn god_class(min_callees: usize) -> (p: Self)
        requires
            min_callees < usize::MAX,
        ensures
            p.name@ == "God Class"@,
            p.edges@.len() == 0,
            p.min_nodes == min_callees + 1,
            p.max_nodes is None,
            p.severity == Severity::High,
    {
        Pattern {
            name: String::from_str("God Class"),
            edges: Vec::new(),
            min_nodes: min_callees + 1,
            max_nodes: None,
            severity: Severity::High,
        }
    }

    /// The "Circular Dependency" pattern: a cycle of `cycle_length` nodes.
    pub fn circular_dependency(cycle_length: usize) -> (p: Self)
        requires
            cycle_length <= u32::MAX,
        ensures
            p.name@ == "Circular Dependency"@,
            p.edges@ == ring_edges(cycle_length as nat),
            p.min_nodes == cycle_length,
            p.max_nodes == Some(cycle_length),
            p.severity == Severity::Critical,
    {
        let mut edges: Vec<(u32, u32)> = Vec::new();
        let mut i: usize = 0;
        while i < cycle_length
            invariant
                i <= cycle_length <= u32::MAX,
                edges@ == ring_edges(cycle_length as nat).take(i as int),
            decreases cycle_length - i,
        {
            let next = (i + 1) % cycle_length;
            edges.push((i as u32, next as u32));
            proof {
                assert(edges@ =~= ring_edges(cycle_length as nat).take(i + 1));
            }
            i += 1;
        }
        proof {
            assert(edges@ =~= ring_edges(cycle_length as nat));
        }
        Pattern {
            name: String::from_str("Circular Dependency"),
            edges,
            min_nodes: cycle_length,
            max_nodes: Some(cycle_length),
            severity: Severity::Critical,
        }
    }

    /// The "Dead Code" pattern: a node without callers.
    pub fn dead_code() -> (p: Self)
        ensures
            p.name@ == "Dead Code"@,
            p.edges@.len() == 0,
            p.min_nodes == 1,
            p.max_nodes == Some(1usize),
            p.severity == Severity::Medium,
    {
        Pattern {
            name: String::from_str("Dead Code"),
            edges: Vec::new(),
            min_nodes: 1,
            max_nodes: Some(1),
            severity: Severity::Medium,
        }
    }
}

/// The record of a finding that has one node: pattern node 0 is mapped
/// to `node`, and name and severity are the pattern's.
pub open spec fn is_single_match(m: PatternMatch, node: u32, p: Pattern) -> bool {
    &&& m.node_mapping@ == Map::<u32, NodeId>::empty().insert(0u32, NodeId(node))
    &&& m.pattern_name@ == p.name@
    &&& m.severity == p.severity
}

/// The node that a one-node finding names.
pub open spec fn match_node(m: PatternMatch) -> u32 {
    m.node_mapping@[0u32].0
}

/// Some finding of `matches` names the node `v`.
pub open spec fn reported(matches: Seq<PatternMatch>, v: u32) -> bool {
    exists|i: int| 0 <= i < matches.len() && match_node(#[trigger] matches[i]) == v
}

/// `matches` reports, in increasing order and once each, exactly the
/// nodes below `n` that `hit` holds of.
pub open spec fn reports_nodes(
    matches: Seq<PatternMatch>,
    p: Pattern,
    n: nat,
    hit: spec_fn(u32) -> bool,
) -> bool {
    &&& forall|i: int|
        0 <= i < matches.len() ==> is_single_match(
            #[trigger] matches[i],
            match_node(matches[i]),
            p,
        )
    &&& forall|i: int, j: int|
        0 <= i < j < matches.len() ==> match_node(matches[i]) < match_node(matches[j])
    &&& forall|v: u32| #[trigger] reported(matches, v) <==> v < n && hit(v)
}

/// The least number of callees that makes a node a god class under a
/// pattern: one less than the pattern's least node count.
pub open spec fn callee_threshold(p: Pattern) -> nat {
    if p.min_nodes > 0 {
        (p.min_nodes - 1) as nat
    } else {
        0
    }
}

/// A finding with one node.
fn single_match(node: u32, pattern: &Pattern) -> (m: PatternMatch)
    ensures
        is_single_match(m, node, *pattern),
        match_node(m) == node,
{
    broadcast use vstd::std_specs::hash::group_hash_axioms;

    let mut node_mapping: HashMap<u32, NodeId> = HashMap::new();
    node_mapping.insert(0, NodeId(node));
    let m = PatternMatch {
        node_mapping,
        pattern_name: pattern.name.clone(),
        severity: pattern.severity,
    };
    assert(m.node_mapping@ =~= Map::<u32, NodeId>::empty().insert(0u32, NodeId(node)));
    m
}

/// Appending the finding for node `v` keeps a report exact.
proof fn lemma_report_grows(
    before: Seq<PatternMatch>,
    m: PatternMatch,
    p: Pattern,
    v: u32,
    hit: spec_fn(u32) -> bool,
)
    requires
        reports_nodes(before, p, v as nat, hit),
        is_single_match(m, v, p),
    ensures
        hit(v) ==> reports_nodes(before.push(m), p, (v + 1) as nat, hit),
        !hit(v) ==> reports_nodes(before, p, (v + 1) as nat, hit),
{
    let after = before.push(m);
    if hit(v) {
        assert forall|i: int, j: int| 0 <= i < j < after.len() implies match_node(after[i])
            < match_node(after[j]) by {
            if j == before.len() {
                assert(reported(before, match_node(before[i])));
            }
        }
        assert forall|x: u32| #[trigger] reported(after, x) <==> x < v + 1 && hit(x) by {
            if reported(after, x) {
                let i = choose|i: int| 0 <= i < after.len() && match_node(#[trigger] after[i]) == x;
                if i < before.len() {
                    assert(match_node(before[i]) == x);
                    assert(reported(before, x));
                }
            }
            if x < v + 1 && hit(x) {
                if x < v {
                    assert(reported(before, x));
                    let i = choose|i: int|
                        0 <= i < before.len() && match_node(#[trigger] before[i]) == x;
                    assert(match_node(after[i]) == x);
                } else {
                    assert(match_node(after[before.len() as int]) == x);
                }
            }
        }
    } else {
        assert forall|x: u32| #[trigger] reported(before, x) <==> x < v + 1 && hit(x) by {
            if reported(before, x) {
                assert(x < v && hit(x));
            }
        }
    }
}

/// One finding for every node with at least the threshold of callees.
fn find_god_class_patterns(graph: &CsrGraph, pattern: &Pattern) -> (matches: Vec<PatternMatch>)
    requires
        graph.wf(),
    ensures
        reports_nodes(
            matches@,
            *pattern,
            graph.node_count(),
            |v: u32| graph.out_targets(v as int).len() >= callee_threshold(*pattern),
        ),
{
    let ghost hit = |v: u32| graph.out_targets(v as int).len() >= callee_threshold(*pattern);
    let threshold: usize = if pattern.min_nodes > 0 {
        pattern.min_nodes - 1
    } else {
        0
    };
    let n = graph.num_nodes();
    let mut matches: Vec<PatternMatch> = Vec::new();
    let mut v: usize = 0;
    while v < n
        invariant
            graph.wf(),
            n == graph.node_count(),
            v <= n,
            threshold == callee_threshold(*pattern),
            hit == |v: u32| graph.out_targets(v as int).len() >= callee_threshold(*pattern),
            reports_nodes(matches@, *pattern, v as nat, hit),
        decreases n - v,
    {
        let m = single_match(v as u32, pattern);
        proof {
            lemma_report_grows(matches@, m, *pattern, v as u32, hit);
        }
        if graph.out_slice(v).len() >= threshold {
            matches.push(m);
        }
        v += 1;
    }
    matches
}

/// One finding for every node without incoming edges.
fn find_dead_code_patterns(graph: &CsrGraph, pattern: &Pattern) -> (matches: Vec<PatternMatch>)
    requires
        graph.wf(),
    ensures
        reports_nodes(
            matches@,
            *pattern,
            graph.node_count(),
            |v: u32| graph.in_sources(v as int).len() == 0,
        ),
{
    let ghost hit = |v: u32| graph.in_sources(v as int).len() == 0;
    let n = graph.num_nodes();
    let mut matches: Vec<PatternMatch> = Vec::new();
    let mut v: usize = 0;
    while v < n
        invariant
            graph.wf(),
            n == graph.node_count(),
            v <= n,
            hit == |v: u32| graph.in_sources(v as int).len() == 0,
            reports_nodes(matches@, *pattern, v as nat, hit),
        decreases n - v,
    {
        let m = single_match(v as u32, pattern);
        proof {
            lemma_report_grows(matches@, m, *pattern, v as u32, hit);
        }
        if graph.in_slice(v).len() == 0 {
            matches.push(m);
        }
        v += 1;
    }
    matches
}

/// A simple directed cycle: a walk without repeated nodes whose last node
/// has an edge back to the first. Its length is its number of nodes; a node
/// with a self-loop is a cycle of length 1.
pub open spec fn is_simple_cycle(rows: Seq<Seq<u32>>, c: Seq<u32>) -> bool {
    &&& is_walk(rows, c)
    &&& c.no_duplicates()
    &&& rows[c.last() as int].contains(c.first())
}

/// The graph nodes that a cycle finding maps the pattern nodes `0 .. k` to.
pub open spec fn cycle_nodes(m: PatternMatch, k: nat) -> Seq<u32> {
    Seq::new(k, |i: int| m.node_mapping@[i as u32].0)
}

/// The record of a cycle finding: pattern node `i` is mapped to `c[i]`,
/// and name and severity are the pattern's.
pub open spec fn is_cycle_match(m: PatternMatch, c: Seq<u32>, p: Pattern) -> bool {
    &&& forall|key: u32| m.node_mapping@.contains_key(key) <==> key < c.len()
    &&& forall|i: int| 0 <= i < c.len() ==> (#[trigger] m.node_mapping@[i as u32]) == NodeId(c[i])
    &&& m.pattern_name@ == p.name@
    &&& m.severity == p.severity
}

/// The first node of `c` is its least.
pub open spec fn least_first(c: Seq<u32>) -> bool {
    forall|i: int| 0 <= i < c.len() ==> c[0] <= #[trigger] c[i]
}

/// `matches` reports the simple cycles of `k` nodes, one finding for every
/// set of nodes that carries such a cycle. A cycle is reported from its
/// least node on, and the findings are ordered by that node.
pub open spec fn reports_cycles(
    rows: Seq<Seq<u32>>,
    matches: Seq<PatternMatch>,
    p: Pattern,
    k: nat,
) -> bool {
    &&& forall|i: int|
        0 <= i < matches.len() ==> is_cycle_match(
            #[trigger] matches[i],
            cycle_nodes(matches[i], k),
            p,
        ) && is_simple_cycle(rows, cycle_nodes(matches[i], k)) && least_first(
            cycle_nodes(matches[i], k),
        )
    &&& forall|i: int, j: int|
        0 <= i < j < matches.len() ==> cycle_nodes(#[trigger] matches[i], k)[0] <= cycle_nodes(
            #[trigger] matches[j],
            k,
        )[0]
    &&& forall|i: int, j: int|
        0 <= i < j < matches.len() ==> cycle_nodes(#[trigger] matches[i], k).to_set()
            != cycle_nodes(#[trigger] matches[j], k).to_set()
    &&& forall|c: Seq<u32>| #[trigger]
        is_simple_cycle(rows, c) && c.len() == k ==> exists|i: int|
            0 <= i < matches.len() && cycle_nodes(#[trigger] matches[i], k).to_set() == c.to_set()
}

/// Whether `x` occurs in `list`.
fn contains_node(list: &Vec<u32>, x: u32) -> (r: bool)
    ensures
        r == list@.contains(x),
{
    let mut i: usize = 0;
    while i < list.len()
        invariant
            i <= list@.len(),
            forall|j: int| 0 <= j < i ==> list@[j] != x,
        decreases list@.len() - i,
    {
        if list[i] == x {
            return true;
        }
        i += 1;
    }
    false
}

/// Whether every node of `a` occurs in `b`.
fn all_in(a: &Vec<u32>, b: &Vec<u32>) -> (r: bool)
    ensures
        r == a@.to_set().subset_of(b@.to_set()),
{
    let mut i: usize = 0;
    while i < a.len()
        invariant
            i <= a@.len(),
            forall|j: int| 0 <= j < i ==> b@.contains(a@[j]),
        decreases a@.len() - i,
    {
        if !contains_node(b, a[i]) {
            proof {
                assert(a@.to_set().contains(a@[i as int]));
                assert(!b@.to_set().contains(a@[i as int]));
            }
            return false;
        }
        i += 1;
    }
    proof {
        assert forall|x: u32| a@.to_set().contains(x) implies b@.to_set().contains(x) by {
            let j = choose|j: int| 0 <= j < a@.len() && a@[j] == x;
            assert(b@.contains(a@[j]));
        }
    }
    true
}

/// Whether two lists hold the same nodes.
fn same_nodes(a: &Vec<u32>, b: &Vec<u32>) -> (r: bool)
    ensures
        r == (a@.to_set() == b@.to_set()),
{
    let r = all_in(a, b) && all_in(b, a);
    proof {
        if r {
            assert(a@.to_set() =~= b@.to_set());
        }
    }
    r
}

/// A copy of a list.
fn copy_of(list: &Vec<u32>) -> (r: Vec<u32>)
    ensures
        r@ == list@,
{
    let mut r: Vec<u32> = Vec::new();
    let mut i: usize = 0;
    while i < list.len()
        invariant
            i <= list@.len(),
            r@ == list@.take(i as int),
        decreases list@.len() - i,
    {
        r.push(list[i]);
        proof {
            assert(r@ =~= list@.take(i + 1));
        }
        i += 1;
    }
    proof {
        assert(list@.take(i as int) =~= list@);
    }
    r
}

/// The finding for the cycle `c`.
fn cycle_match(c: &Vec<u32>, pattern: &Pattern) -> (m: PatternMatch)
    requires
        c@.len() <= u32::MAX,
    ensures
        is_cycle_match(m, c@, *pattern),
        cycle_nodes(m, c@.len()) == c@,
{
    broadcast use vstd::std_specs::hash::group_hash_axioms;

    let mut node_mapping: HashMap<u32, NodeId> = HashMap::new();
    let mut i: usize = 0;
    while i < c.len()
        invariant
            i <= c@.len() <= u32::MAX,
            forall|key: u32| node_mapping@.contains_key(key) <==> key < i,
            forall|j: int| 0 <= j < i ==> (#[trigger] node_mapping@[j as u32]) == NodeId(c@[j]),
        decreases c@.len() - i,
    {
        node_mapping.insert(i as u32, NodeId(c[i]));
        i += 1;
    }
    let m = PatternMatch {
        node_mapping,
        pattern_name: pattern.name.clone(),
        severity: pattern.severity,
    };
    proof {
        assert forall|j: int| 0 <= j < c@.len() implies cycle_nodes(m, c@.len())[j] == c@[j] by {
            assert(m.node_mapping@[j as u32] == NodeId(c@[j]));
        }
        assert(cycle_nodes(m, c@.len()) =~= c@);
    }
    m
}

/// Extends the simple path `path` in every way to `k` nodes and appends
/// to `cycles` each extension whose last node has an edge to the first.
fn extend_path(
    graph: &CsrGraph,
    path: &mut Vec<u32>,
    on_path: &mut Vec<bool>,
    k: usize,
    cycles: &mut Vec<Vec<u32>>,
)
    requires
        graph.wf(),
        1 <= old(path)@.len() <= k,
        is_walk(graph_rows(*graph, Direction::Forward), old(path)@),
        old(path)@.no_duplicates(),
        old(on_path)@.len() == graph.node_count(),
        forall|v: u32|
            v < graph.node_count() ==> (old(on_path)@[v as int] <==> old(path)@.contains(v)),
    ensures
        final(path)@ == old(path)@,
        final(on_path)@ == old(on_path)@,
        final(cycles)@.len() >= old(cycles)@.len(),
        forall|i: int| 0 <= i < old(cycles)@.len() ==> final(cycles)@[i] == old(cycles)@[i],
        forall|i: int|
            old(cycles)@.len() <= i < final(cycles)@.len() ==> is_simple_cycle(
                graph_rows(*graph, Direction::Forward),
                (#[trigger] final(cycles)@[i])@,
            ) && final(cycles)@[i]@.len() == k && final(cycles)@[i]@.take(
                old(path)@.len() as int,
            ) == old(path)@,
        forall|c: Seq<u32>| #[trigger]
            is_simple_cycle(graph_rows(*graph, Direction::Forward), c) && c.len() == k && c.take(
                old(path)@.len() as int,
            ) == old(path)@ ==> exists|i: int|
                old(cycles)@.len() <= i < final(cycles)@.len() && (#[trigger] final(cycles)@[i])@
                    == c,
    decreases k - old(path)@.len(),
{
    let ghost rows = graph_rows(*graph, Direction::Forward);
    let ghost p0 = path@;
    let ghost o0 = on_path@;
    let ghost c0 = cycles@;
    let len = path.len();
    let last = path[len - 1] as usize;
    proof {
        lemma_graph_rows_closed(*graph, Direction::Forward);
        assert(p0[len - 1] < rows.len());
    }
    let nbrs = graph.out_slice(last);
    assert(nbrs@ == rows[last as int]);
    if len == k {
        if contains_node_slice(nbrs, path[0]) {
            let c = copy_of(path);
            cycles.push(c);
            proof {
                assert(cycles@[c0.len() as int]@ == p0);
                assert(p0.take(len as int) =~= p0);
                assert forall|c: Seq<u32>| #[trigger]
                    is_simple_cycle(rows, c) && c.len() == k && c.take(len as int)
                        == p0 implies exists|i: int|
                    c0.len() <= i < cycles@.len() && (#[trigger] cycles@[i])@ == c by {
                    assert(c.take(len as int) =~= c);
                    assert(cycles@[c0.len() as int]@ == c);
                }
            }
        } else {
            proof {
                assert forall|c: Seq<u32>| #[trigger]
                    is_simple_cycle(rows, c) && c.len() == k && c.take(len as int)
                        == p0 implies false by {
                    assert(c.take(len as int) =~= c);
                }
            }
        }
        return ;
    }
    let mut j: usize = 0;
    while j < nbrs.len()
        invariant
            graph.wf(),
            rows == graph_rows(*graph, Direction::Forward),
            rows.len() == graph.node_count(),
            crate::algorithms::reach::rows_closed(rows),
            p0 == old(path)@,
            o0 == old(on_path)@,
            c0 == old(cycles)@,
            len == p0.len(),
            1 <= len < k,
            last == p0[len - 1],
            last < rows.len(),
            nbrs@ == rows[last as int],
            j <= nbrs@.len(),
            path@ == p0,
            on_path@ == o0,
            is_walk(rows, p0),
            p0.no_duplicates(),
            o0.len() == rows.len(),
            forall|v: u32| v < rows.len() ==> (o0[v as int] <==> p0.contains(v)),
            cycles@.len() >= c0.len(),
            forall|i: int| 0 <= i < c0.len() ==> cycles@[i] == c0[i],
            forall|i: int|
                c0.len() <= i < cycles@.len() ==> is_simple_cycle(rows, (#[trigger] cycles@[i])@)
                    && cycles@[i]@.len() == k && cycles@[i]@.take(len as int) == p0,
            forall|c: Seq<u32>| #[trigger]
                is_simple_cycle(rows, c) && c.len() == k && c.take(len as int) == p0 && (exists|
                    a: int,
                | 0 <= a < j && nbrs@[a] == c[len as int]) ==> exists|i: int|
                    c0.len() <= i < cycles@.len() && (#[trigger] cycles@[i])@ == c,
        decreases nbrs@.len() - j,
    {
        let x = nbrs[j];
        assert(rows[last as int][j as int] < rows.len());
        let ghost c1 = cycles@;
        if !on_path[x as usize] {
            proof {
                assert(rows[p0.last() as int].contains(x));
                lemma_walk_push(rows, p0, x);
                assert(p0.push(x).no_duplicates()) by {
                    assert forall|a: int, b: int|
                        0 <= a < p0.len() + 1 && 0 <= b < p0.len() + 1 && a != b implies p0.push(
                        x,
                    )[a] != p0.push(x)[b] by {
                        if a == p0.len() {
                            assert(p0.contains(p0[b]));
                        } else if b == p0.len() {
                            assert(p0.contains(p0[a]));
                        }
                    }
                }
            }
            path.push(x);
            on_path.set(x as usize, true);
            proof {
                let p1 = path@;
                assert forall|v: u32| v < rows.len() implies (on_path@[v as int] <==> p1.contains(
                    v,
                )) by {
                    if v == x {
                        assert(p1[len as int] == x);
                    } else {
                        if p0.contains(v) {
                            let a = choose|a: int| 0 <= a < p0.len() && p0[a] == v;
                            assert(p1[a] == v);
                        }
                        if p1.contains(v) {
                            let a = choose|a: int| 0 <= a < p1.len() && p1[a] == v;
                            assert(p0[a] == v);
                        }
                    }
                }
            }
            extend_path(graph, path, on_path, k, cycles);
            path.pop();
            on_path.set(x as usize, false);
            proof {
                let p1 = p0.push(x);
                assert(path@ =~= p0);
                assert(on_path@ =~= o0);
                assert forall|i: int| c0.len() <= i < cycles@.len() implies is_simple_cycle(
                    rows,
                    (#[trigger] cycles@[i])@,
                ) && cycles@[i]@.len() == k && cycles@[i]@.take(len as int) == p0 by {
                    if i >= c1.len() {
                        assert(cycles@[i]@.take(len + 1) == p1);
                        assert(cycles@[i]@.take(len as int) =~= p1.take(len as int));
                        assert(p1.take(len as int) =~= p0);
                    } else {
                        assert(cycles@[i] == c1[i]);
                    }
                }
                assert forall|c: Seq<u32>| #[trigger]
                    is_simple_cycle(rows, c) && c.len() == k && c.take(len as int) == p0 && (
                    exists|a: int| 0 <= a < j + 1 && nbrs@[a] == c[len as int]) implies exists|
                    i: int,
                | c0.len() <= i < cycles@.len() && (#[trigger] cycles@[i])@ == c by {
                    let a = choose|a: int| 0 <= a < j + 1 && nbrs@[a] == c[len as int];
                    if c[len as int] == x {
                        assert(c.take(len + 1) =~= c.take(len as int).push(c[len as int]));
                        let i = choose|i: int|
                            c1.len() <= i < cycles@.len() && (#[trigger] cycles@[i])@ == c;
                        assert(c0.len() <= i);
                    } else {
                        assert(a < j);
                        let i = choose|i: int| c0.len() <= i < c1.len() && (#[trigger] c1[i])@ == c;
                        assert(cycles@[i] == c1[i]);
                    }
                }
            }
        } else {
            proof {
                assert forall|c: Seq<u32>| #[trigger]
                    is_simple_cycle(rows, c) && c.len() == k && c.take(len as int) == p0 && (
                    exists|a: int| 0 <= a < j + 1 && nbrs@[a] == c[len as int]) implies exists|
                    i: int,
                | c0.len() <= i < cycles@.len() && (#[trigger] cycles@[i])@ == c by {
                    let a = choose|a: int| 0 <= a < j + 1 && nbrs@[a] == c[len as int];
                    if c[len as int] == x {
                        // `x` is on the path already, so `c` would repeat it.
                        assert(p0.contains(x));
                        let b = choose|b: int| 0 <= b < p0.len() && p0[b] == x;
                        assert(c.take(len as int)[b] == c[b]);
                        assert(false);
                    } else {
                        assert(a < j);
                    }
                }
            }
        }
        j += 1;
    }
    proof {
        assert forall|c: Seq<u32>| #[trigger]
            is_simple_cycle(rows, c) && c.len() == k && c.take(len as int) == p0 implies exists|
            i: int,
        | c0.len() <= i < cycles@.len() && (#[trigger] cycles@[i])@ == c by {
            assert(hop(rows, c, len - 1));
            assert(c.take(len as int)[len - 1] == c[len - 1]);
            let a = choose|a: int| 0 <= a < nbrs@.len() && nbrs@[a] == c[len as int];
            assert(0 <= a < j && nbrs@[a] == c[len as int]);
        }
    }
}

/// Whether `x` occurs in a row.
fn contains_node_slice(row: &[u32], x: u32) -> (r: bool)
    ensures
        r == row@.contains(x),
{
    let mut i: usize = 0;
    while i < row.len()
        invariant
            i <= row@.len(),
            forall|j: int| 0 <= j < i ==> row@[j] != x,
        decreases row@.len() - i,
    {
        if row[i] == x {
            return true;
        }
        i += 1;
    }
    false
}

/// One of `kept` holds the same nodes as `c`.
spec fn covered(kept: Seq<Vec<u32>>, c: Seq<u32>) -> bool {
    exists|j: int| 0 <= j < kept.len() && (#[trigger] kept[j])@.to_set() == c.to_set()
}

/// What is covered stays covered when more is kept.
proof fn lemma_covered_grows(kept: Seq<Vec<u32>>, more: Seq<Vec<u32>>, c: Seq<u32>)
    requires
        covered(kept, c),
        more.len() >= kept.len(),
        forall|j: int| 0 <= j < kept.len() ==> more[j] == kept[j],
    ensures
        covered(more, c),
{
    let j = choose|j: int| 0 <= j < kept.len() && (#[trigger] kept[j])@.to_set() == c.to_set();
    assert(more[j] == kept[j]);
}

/// Whether one of `kept` holds the same nodes as `c`.
fn seen_before(kept: &Vec<Vec<u32>>, c: &Vec<u32>) -> (r: bool)
    ensures
        r == covered(kept@, c@),
{
    let mut j: usize = 0;
    while j < kept.len()
        invariant
            j <= kept@.len(),
            forall|a: int| 0 <= a < j ==> (#[trigger] kept@[a])@.to_set() != c@.to_set(),
        decreases kept@.len() - j,
    {
        if same_nodes(&kept[j], c) {
            return true;
        }
        j += 1;
    }
    false
}

/// A simple cycle read from another of its nodes on is a simple cycle
/// over the same nodes.
proof fn lemma_cycle_rotation(rows: Seq<Seq<u32>>, c: Seq<u32>, r: int)
    requires
        is_simple_cycle(rows, c),
        0 <= r < c.len(),
    ensures
        is_simple_cycle(rows, c.subrange(r, c.len() as int) + c.subrange(0, r)),
        (c.subrange(r, c.len() as int) + c.subrange(0, r)).to_set() == c.to_set(),
        (c.subrange(r, c.len() as int) + c.subrange(0, r)).len() == c.len(),
        (c.subrange(r, c.len() as int) + c.subrange(0, r))[0] == c[r],
{
    let k = c.len() as int;
    let rot = c.subrange(r, k) + c.subrange(0, r);
    let back = |i: int|
        if i < k - r {
            i + r
        } else {
            i + r - k
        };
    assert forall|i: int| 0 <= i < k implies rot[i] == c[back(i)] by {}
    assert forall|i: int| 0 <= i < rot.len() - 1 implies #[trigger] hop(rows, rot, i) by {
        if i < k - r - 1 {
            assert(hop(rows, c, i + r));
        } else if i == k - r - 1 {
            assert(rot[i] == c[k - 1]);
            assert(rot[i + 1] == c[0]);
        } else {
            assert(hop(rows, c, i + r - k));
        }
    }
    assert forall|i: int, j: int| 0 <= i < rot.len() && 0 <= j < rot.len() && i != j implies rot[i]
        != rot[j] by {
        assert(rot[i] == c[back(i)]);
        assert(rot[j] == c[back(j)]);
        assert(back(i) != back(j));
    }
    if r > 0 {
        assert(rot.last() == c[r - 1]);
        assert(hop(rows, c, r - 1));
    } else {
        assert(rot =~= c);
    }
    assert forall|x: u32| rot.to_set().contains(x) <==> c.to_set().contains(x) by {
        if rot.to_set().contains(x) {
            let i = choose|i: int| 0 <= i < rot.len() && rot[i] == x;
            assert(c[back(i)] == x);
        }
        if c.to_set().contains(x) {
            let j = choose|j: int| 0 <= j < c.len() && c[j] == x;
            let i = if j >= r {
                j - r
            } else {
                j + k - r
            };
            assert(rot[i] == c[back(i)]);
            assert(rot[i] == x);
        }
    }
    assert(rot.to_set() =~= c.to_set());
}

/// What holds of the cycles kept so far: each is a simple cycle of `k`
/// nodes, read from its least node on, with its finding; no two hold the
/// same nodes; and they are ordered by their first node, which is at most
/// `top`.
spec fn kept_ok(
    rows: Seq<Seq<u32>>,
    kept: Seq<Vec<u32>>,
    matches: Seq<PatternMatch>,
    p: Pattern,
    k: nat,
    top: int,
) -> bool {
    &&& kept.len() == matches.len()
    &&& forall|i: int|
        0 <= i < kept.len() ==> is_simple_cycle(rows, (#[trigger] kept[i])@) && kept[i]@.len() == k
            && is_cycle_match(matches[i], kept[i]@, p) && cycle_nodes(matches[i], k) == kept[i]@
            && least_first(kept[i]@) && kept[i]@[0] <= top
    &&& forall|i: int, j: int|
        0 <= i < j < kept.len() ==> (#[trigger] kept[i])@[0] <= (#[trigger] kept[j])@[0]
    &&& forall|i: int, j: int|
        0 <= i < j < kept.len() ==> (#[trigger] kept[i])@.to_set() != (#[trigger] kept[j])@.to_set()
}

/// Every simple cycle of `k` nodes that begins below `bound` shares its
/// nodes with a kept cycle.
spec fn covers_below(rows: Seq<Seq<u32>>, kept: Seq<Vec<u32>>, k: nat, bound: int) -> bool {
    forall|c: Seq<u32>| #[trigger]
        is_simple_cycle(rows, c) && c.len() == k && c[0] < bound ==> covered(kept, c)
}

/// Keeping a cycle from `start` that no kept cycle shares its nodes with
/// keeps the kept cycles in order.
proof fn lemma_keep(
    rows: Seq<Seq<u32>>,
    kept: Seq<Vec<u32>>,
    matches: Seq<PatternMatch>,
    c: Vec<u32>,
    m: PatternMatch,
    p: Pattern,
    k: nat,
    start: u32,
)
    requires
        kept_ok(rows, kept, matches, p, k, start as int),
        covers_below(rows, kept, k, start as int),
        is_simple_cycle(rows, c@),
        c@.len() == k,
        c@[0] == start,
        is_cycle_match(m, c@, p),
        cycle_nodes(m, k) == c@,
        !covered(kept, c@),
    ensures
        kept_ok(rows, kept.push(c), matches.push(m), p, k, start as int),
{
    let more = kept.push(c);
    let found = c@;
    let last = kept.len() as int;
    // No node of the cycle is below its first: a cycle over the same nodes
    // from such a node on would have been kept before.
    assert(least_first(found)) by {
        assert forall|r: int| 0 <= r < found.len() implies found[0] <= #[trigger] found[r] by {
            if found[r] < found[0] {
                lemma_cycle_rotation(rows, found, r);
                let rot = found.subrange(r, found.len() as int) + found.subrange(0, r);
                assert(is_simple_cycle(rows, rot) && rot.len() == k && rot[0] < start);
                assert(covered(kept, rot));
                let j = choose|j: int|
                    0 <= j < kept.len() && (#[trigger] kept[j])@.to_set() == rot.to_set();
                assert(kept[j]@.to_set() == found.to_set());
                assert(false);
            }
        }
    }
    assert forall|a: int, b: int| 0 <= a < b < more.len() implies (#[trigger] more[a])@.to_set() != (
    #[trigger] more[b])@.to_set() by {
        if b == last {
            assert(more[a] == kept[a]);
            if kept[a]@.to_set() == found.to_set() {
                assert(covered(kept, found));
            }
        }
    }
}

/// Kept cycles that cover every simple cycle of `k` nodes make a report.
proof fn lemma_kept_reports(
    rows: Seq<Seq<u32>>,
    kept: Seq<Vec<u32>>,
    matches: Seq<PatternMatch>,
    p: Pattern,
    k: nat,
    n: int,
)
    requires
        kept_ok(rows, kept, matches, p, k, n),
        k >= 1,
        rows.len() == n,
        covers_below(rows, kept, k, n),
    ensures
        reports_cycles(rows, matches, p, k),
{
    assert forall|i: int| 0 <= i < matches.len() implies is_cycle_match(
        #[trigger] matches[i],
        cycle_nodes(matches[i], k),
        p,
    ) && is_simple_cycle(rows, cycle_nodes(matches[i], k)) && least_first(
        cycle_nodes(matches[i], k),
    ) by {
        assert(is_simple_cycle(rows, kept[i]@));
    }
    assert forall|i: int, j: int| 0 <= i < j < matches.len() implies cycle_nodes(
        #[trigger] matches[i],
        k,
    )[0] <= cycle_nodes(#[trigger] matches[j], k)[0] by {
        assert(kept[i]@[0] <= kept[j]@[0]);
        assert(cycle_nodes(matches[i], k) == kept[i]@);
        assert(cycle_nodes(matches[j], k) == kept[j]@);
    }
    assert forall|i: int, j: int| 0 <= i < j < matches.len() implies cycle_nodes(
        #[trigger] matches[i],
        k,
    ).to_set() != cycle_nodes(#[trigger] matches[j], k).to_set() by {
        assert(kept[i]@.to_set() != kept[j]@.to_set());
        assert(cycle_nodes(matches[i], k) == kept[i]@);
        assert(cycle_nodes(matches[j], k) == kept[j]@);
    }
    assert forall|c: Seq<u32>| #[trigger]
        is_simple_cycle(rows, c) && c.len() == k implies exists|i: int|
        0 <= i < matches.len() && cycle_nodes(#[trigger] matches[i], k).to_set() == c.to_set() by {
        assert(c[0] < n);
        assert(covered(kept, c));
        let j = choose|j: int| 0 <= j < kept.len() && (#[trigger] kept[j])@.to_set() == c.to_set();
        assert(cycle_nodes(matches[j], k) == kept[j]@);
    }
}

/// Once the cycles from `start` are sifted, every simple cycle that
/// begins at `start` or below shares its nodes with a kept one.
proof fn lemma_start_done(
    rows: Seq<Seq<u32>>,
    kept: Seq<Vec<u32>>,
    cycles: Seq<Vec<u32>>,
    k: nat,
    start: u32,
)
    requires
        covers_below(rows, kept, k, start as int),
        forall|x: Seq<u32>| #[trigger]
            is_simple_cycle(rows, x) && x.len() == k && x.take(1) == seq![start] ==> exists|a: int|
                0 <= a < cycles.len() && (#[trigger] cycles[a])@ == x,
        forall|a: int| 0 <= a < cycles.len() ==> covered(kept, (#[trigger] cycles[a])@),
    ensures
        covers_below(rows, kept, k, start + 1),
{
    assert forall|x: Seq<u32>| #[trigger]
        is_simple_cycle(rows, x) && x.len() == k && x[0] < start + 1 implies covered(kept, x) by {
        if x[0] == start {
            assert(x.take(1) =~= seq![start]);
            let a = choose|a: int| 0 <= a < cycles.len() && (#[trigger] cycles[a])@ == x;
            assert(covered(kept, cycles[a]@));
        }
    }
}

/// Keeping more cycles keeps what was covered.
proof fn lemma_covers_grows(
    rows: Seq<Seq<u32>>,
    kept: Seq<Vec<u32>>,
    more: Seq<Vec<u32>>,
    k: nat,
    bound: int,
)
    requires
        covers_below(rows, kept, k, bound),
        more.len() >= kept.len(),
        forall|j: int| 0 <= j < kept.len() ==> more[j] == kept[j],
    ensures
        covers_below(rows, more, k, bound),
{
    assert forall|c: Seq<u32>| #[trigger]
        is_simple_cycle(rows, c) && c.len() == k && c[0] < bound implies covered(more, c) by {
        lemma_covered_grows(kept, more, c);
    }
}

/// Raising the bound on the first nodes keeps the kept cycles in order.
proof fn lemma_kept_ok_raise(
    rows: Seq<Seq<u32>>,
    kept: Seq<Vec<u32>>,
    matches: Seq<PatternMatch>,
    p: Pattern,
    k: nat,
    top: int,
    higher: int,
)
    requires
        kept_ok(rows, kept, matches, p, k, top),
        top <= higher,
    ensures
        kept_ok(rows, kept, matches, p, k, higher),
{
}

/// One finding for every set of nodes that carries a simple cycle of as
/// many nodes as the pattern has.
fn find_cycle_patterns(graph: &CsrGraph, pattern: &Pattern) -> (matches: Vec<PatternMatch>)
    requires
        graph.wf(),
    ensures
        reports_cycles(
            graph_rows(*graph, Direction::Forward),
            matches@,
            *pattern,
            pattern.min_nodes as nat,
        ),
{
    let ghost rows = graph_rows(*graph, Direction::Forward);
    let k = pattern.min_nodes;
    let n = graph.num_nodes();
    let mut matches: Vec<PatternMatch> = Vec::new();
    proof {
        lemma_graph_rows_closed(*graph, Direction::Forward);
    }
    if k == 0 || k > n {
        proof {
            assert forall|c: Seq<u32>| #[trigger]
                is_simple_cycle(rows, c) && c.len() == k implies false by {
                lemma_distinct_bound(c, n as nat);
            }
        }
        return matches;
    }
    let mut kept: Vec<Vec<u32>> = Vec::new();
    let mut on_path = all_false(n);
    let mut start: usize = 0;
    while start < n
        invariant
            graph.wf(),
            rows == graph_rows(*graph, Direction::Forward),
            rows.len() == n,
            n == graph.node_count(),
            n <= u32::MAX,
            1 <= k <= n,
            k == pattern.min_nodes,
            start <= n,
            on_path@.len() == n,
            forall|v: int| 0 <= v < n ==> !on_path@[v],
            kept_ok(rows, kept@, matches@, *pattern, k as nat, start as int),
            covers_below(rows, kept@, k as nat, start as int),
        decreases n - start,
    {
        let mut path: Vec<u32> = Vec::new();
        path.push(start as u32);
        on_path.set(start, true);
        let mut cycles: Vec<Vec<u32>> = Vec::new();
        proof {
            lemma_walk_single(rows, start as u32);
            assert(path@ =~= seq![start as u32]);
            assert forall|v: u32| v < n implies (on_path@[v as int] <==> path@.contains(v)) by {
                if v == start {
                    assert(path@[0] == v);
                }
            }
        }
        extend_path(graph, &mut path, &mut on_path, k, &mut cycles);
        on_path.set(start, false);
        proof {
            assert forall|a: int| 0 <= a < cycles@.len() implies (#[trigger] cycles@[a])@[0]
                == start by {
                assert(cycles@[a]@.take(1)[0] == cycles@[a]@[0]);
            }
        }
        let mut i: usize = 0;
        while i < cycles.len()
            invariant
                1 <= k <= n,
                n <= u32::MAX,
                start < n,
                i <= cycles@.len(),
                forall|a: int|
                    0 <= a < cycles@.len() ==> is_simple_cycle(rows, (#[trigger] cycles@[a])@)
                        && cycles@[a]@.len() == k && cycles@[a]@[0] == start,
                kept_ok(rows, kept@, matches@, *pattern, k as nat, start as int),
                covers_below(rows, kept@, k as nat, start as int),
                forall|a: int| 0 <= a < i ==> covered(kept@, (#[trigger] cycles@[a])@),
            decreases cycles@.len() - i,
        {
            let ghost kept1 = kept@;
            if !seen_before(&kept, &cycles[i]) {
                let m = cycle_match(&cycles[i], pattern);
                let c = copy_of(&cycles[i]);
                proof {
                    lemma_keep(rows, kept1, matches@, c, m, *pattern, k as nat, start as u32);
                }
                matches.push(m);
                kept.push(c);
                proof {
                    lemma_covers_grows(rows, kept1, kept@, k as nat, start as int);
                    assert forall|a: int| 0 <= a < i + 1 implies covered(
                        kept@,
                        (#[trigger] cycles@[a])@,
                    ) by {
                        if a < i {
                            lemma_covered_grows(kept1, kept@, cycles@[a]@);
                        } else {
                            assert(kept@[kept1.len() as int]@.to_set() == cycles@[a]@.to_set());
                        }
                    }
                }
            }
            i += 1;
        }
        proof {
            lemma_start_done(rows, kept@, cycles@, k as nat, start as u32);
            lemma_kept_ok_raise(
                rows,
                kept@,
                matches@,
                *pattern,
                k as nat,
                start as int,
                start + 1,
            );
        }
        start += 1;
    }
    proof {
        lemma_kept_reports(rows, kept@, matches@, *pattern, k as nat, n as int);
    }
    matches
}

/// Whether a name is the given literal.
fn name_is(name: &String, literal: &str) -> (r: bool)
    ensures
        r == (name@ == literal@),
{
    let other = String::from_str(literal);
    *name == other
}

/// The findings of `pattern` in `graph`. The name of the pattern selects
/// the detector:
///
/// - `"God Class"`: every node with at least `min_nodes - 1` callees, in
///   increasing order, each mapped from pattern node 0;
/// - `"Circular Dependency"`: the simple cycles of `min_nodes` nodes, one
///   finding for every set of nodes that carries one, read from its least
///   node on and in the order of that node;
/// - `"Dead Code"`: every node without callers, in increasing order.
///
/// Any other name is refused with `PatternUnsupported`.
pub fn find_patterns(graph: &CsrGraph, pattern: &Pattern) -> (r: Result<
    Vec<PatternMatch>,
    GraphError,
>)
    requires
        graph.wf(),
    ensures
        pattern.name@ == "God Class"@ ==> r is Ok && reports_nodes(
            r->Ok_0@,
            *pattern,
            graph.node_count(),
            |v: u32| graph.out_targets(v as int).len() >= callee_threshold(*pattern),
        ),
        pattern.name@ == "Circular Dependency"@ ==> r is Ok && reports_cycles(
            graph_rows(*graph, Direction::Forward),
            r->Ok_0@,
            *pattern,
            pattern.min_nodes as nat,
        ),
        pattern.name@ == "Dead Code"@ ==> r is Ok && reports_nodes(
            r->Ok_0@,
            *pattern,
            graph.node_count(),
            |v: u32| graph.in_sources(v as int).len() == 0,
        ),
        pattern.name@ != "God Class"@ && pattern.name@ != "Circular Dependency"@ && pattern.name@
            != "Dead Code"@ ==> r is Err && r->Err_0 == GraphError::PatternUnsupported,
{
    proof {
        reveal_strlit("God Class");
        reveal_strlit("Circular Dependency");
        reveal_strlit("Dead Code");
        assert("God Class"@.len() == 9);
        assert("Circular Dependency"@.len() == 19);
        assert("Dead Code"@[0] == 'D');
        assert("God Class"@[0] == 'G');
    }
    if name_is(&pattern.name, "God Class") {
        Ok(find_god_class_patterns(graph, pattern))
    } else if name_is(&pattern.name, "Circular Dependency") {
        Ok(find_cycle_patterns(graph, pattern))
    } else if name_is(&pattern.name, "Dead Code") {
        Ok(find_dead_code_patterns(graph, pattern))
    } else {
        Err(GraphError::PatternUnsupported)
    }
}

} // verus!
