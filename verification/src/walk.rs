use vstd::prelude::*;
use vstd::set_lib::*;

use crate::edge::Edge;

verus! {

/// Some edge of `es` leads from node `a` to node `b`.
pub open spec fn arc(es: Seq<(usize, Edge)>, a: usize, b: usize) -> bool {
    exists|i: int| 0 <= i < es.len() && #[trigger] es[i].1.outputNode == a && es[i].1.inputNode == b
}

/// Every arc of `es1` is an arc of `es2`.
pub open spec fn arcs_within(es1: Seq<(usize, Edge)>, es2: Seq<(usize, Edge)>) -> bool {
    forall|a: usize, b: usize| #[trigger] arc(es1, a, b) ==> arc(es2, a, b)
}

/// The `k`-th step of the node sequence `w` follows an arc of `es`.
pub open spec fn step_ok(es: Seq<(usize, Edge)>, w: Seq<usize>, k: int) -> bool {
    arc(es, w[k], w[k + 1])
}

/// `w` is a non-empty sequence of nodes in which each consecutive pair is an arc of `es`.
pub open spec fn is_walk(es: Seq<(usize, Edge)>, w: Seq<usize>) -> bool {
    &&& w.len() >= 1
    &&& forall|k: int| 0 <= k < w.len() - 1 ==> #[trigger] step_ok(es, w, k)
}

/// `w` is a walk of `es` from `a` to `b`.
pub open spec fn walk_between(es: Seq<(usize, Edge)>, w: Seq<usize>, a: usize, b: usize) -> bool {
    &&& is_walk(es, w)
    &&& w[0] == a
    &&& w[w.len() - 1] == b
}

/// Node `b` can be reached from node `a` by following edges of `es` (possibly none).
pub open spec fn reach(es: Seq<(usize, Edge)>, a: usize, b: usize) -> bool {
    exists|w: Seq<usize>| #[trigger] walk_between(es, w, a, b)
}

/// No edge of `es` lies on a cycle: the output node of an edge is never reachable
/// from its input node.
pub open spec fn acyclic(es: Seq<(usize, Edge)>) -> bool {
    forall|i: int|
        0 <= i < es.len() ==> !reach(es, #[trigger] es[i].1.inputNode, es[i].1.outputNode)
}

/// A walk of exactly `k` steps ends at node `n`.
pub open spec fn walk_into(es: Seq<(usize, Edge)>, n: usize, k: nat) -> bool {
    exists|w: Seq<usize>| #[trigger] is_walk(es, w) && w.len() == k + 1 && w[w.len() - 1] == n
}

/// A walk of exactly `k` steps leads from `x` to `n`.
pub open spec fn walk_len_between(es: Seq<(usize, Edge)>, x: usize, n: usize, k: nat) -> bool {
    exists|w: Seq<usize>| #[trigger] walk_between(es, w, x, n) && w.len() == k + 1
}

/// `d` is the number of edges on a longest walk ending at node `n`.
pub open spec fn is_depth(es: Seq<(usize, Edge)>, n: usize, d: nat) -> bool {
    &&& walk_into(es, n, d)
    &&& forall|k: nat| k > d ==> !#[trigger] walk_into(es, n, k)
}

/// The number of edges on a longest walk of `es` that ends at node `n`.
pub open spec fn depth(es: Seq<(usize, Edge)>, n: usize) -> nat {
    choose|d: nat| is_depth(es, n, d)
}

// ---------------------------------------------------------------------------
// Lemmas about walks
// ---------------------------------------------------------------------------

pub proof fn lemma_depth_unique(es: Seq<(usize, Edge)>, n: usize, d: nat)
    requires
        is_depth(es, n, d),
    ensures
        depth(es, n) == d,
{
    let c = depth(es, n);
    assert(is_depth(es, n, c));
    if c > d {
        assert(!walk_into(es, n, c));
    } else if c < d {
        assert(!walk_into(es, n, d));
    }
}

pub proof fn lemma_single_node_walk(es: Seq<(usize, Edge)>, a: usize)
    ensures
        walk_between(es, seq![a], a, a),
        reach(es, a, a),
{
    let w = seq![a];
    assert(walk_between(es, w, a, a));
}

pub proof fn lemma_arc_walk(es: Seq<(usize, Edge)>, a: usize, b: usize)
    requires
        arc(es, a, b),
    ensures
        walk_between(es, seq![a, b], a, b),
        reach(es, a, b),
{
    let w = seq![a, b];
    assert forall|k: int| 0 <= k < w.len() - 1 implies #[trigger] step_ok(es, w, k) by {
        assert(k == 0);
    }
    assert(walk_between(es, w, a, b));
}

/// Walks survive when every arc is kept.
pub proof fn lemma_walk_within(es1: Seq<(usize, Edge)>, es2: Seq<(usize, Edge)>, w: Seq<usize>)
    requires
        is_walk(es1, w),
        arcs_within(es1, es2),
    ensures
        is_walk(es2, w),
{
    assert forall|k: int| 0 <= k < w.len() - 1 implies #[trigger] step_ok(es2, w, k) by {
        assert(step_ok(es1, w, k));
        assert(arc(es1, w[k], w[k + 1]));
    }
}

pub proof fn lemma_reach_within(
    es1: Seq<(usize, Edge)>,
    es2: Seq<(usize, Edge)>,
    a: usize,
    b: usize,
)
    requires
        reach(es1, a, b),
        arcs_within(es1, es2),
    ensures
        reach(es2, a, b),
{
    let w = choose|w: Seq<usize>| #[trigger] walk_between(es1, w, a, b);
    lemma_walk_within(es1, es2, w);
    assert(walk_between(es2, w, a, b));
}

/// A contiguous piece of a walk is a walk.
pub proof fn lemma_subwalk(es: Seq<(usize, Edge)>, w: Seq<usize>, p: int, q: int)
    requires
        is_walk(es, w),
        0 <= p <= q < w.len(),
    ensures
        walk_between(es, w.subrange(p, q + 1), w[p], w[q]),
{
    let s = w.subrange(p, q + 1);
    assert forall|k: int| 0 <= k < s.len() - 1 implies #[trigger] step_ok(es, s, k) by {
        assert(step_ok(es, w, p + k));
        assert(s[k] == w[p + k]);
        assert(s[k + 1] == w[p + k + 1]);
    }
}

/// Joining a walk that ends at `x` with one that starts at `x`.
pub proof fn lemma_join(es: Seq<(usize, Edge)>, w1: Seq<usize>, w2: Seq<usize>)
    requires
        is_walk(es, w1),
        is_walk(es, w2),
        w1[w1.len() - 1] == w2[0],
    ensures
        walk_between(es, w1 + w2.subrange(1, w2.len() as int), w1[0], w2[w2.len() - 1]),
        (w1 + w2.subrange(1, w2.len() as int)).len() == w1.len() + w2.len() - 1,
{
    let t = w2.subrange(1, w2.len() as int);
    let j = w1 + t;
    assert forall|k: int| 0 <= k < j.len() - 1 implies #[trigger] step_ok(es, j, k) by {
        if k < w1.len() - 1 {
            assert(step_ok(es, w1, k));
            assert(j[k] == w1[k] && j[k + 1] == w1[k + 1]);
        } else {
            let m = k - (w1.len() - 1);
            assert(step_ok(es, w2, m));
            assert(j[k] == w2[m]);
            assert(j[k + 1] == w2[m + 1]);
        }
    }
    if w2.len() == 1 {
        assert(j[j.len() - 1] == w1[w1.len() - 1]);
    } else {
        assert(j[j.len() - 1] == w2[w2.len() - 1]);
    }
}

pub proof fn lemma_reach_trans(es: Seq<(usize, Edge)>, a: usize, b: usize, c: usize)
    requires
        reach(es, a, b),
        reach(es, b, c),
    ensures
        reach(es, a, c),
{
    let w1 = choose|w: Seq<usize>| #[trigger] walk_between(es, w, a, b);
    let w2 = choose|w: Seq<usize>| #[trigger] walk_between(es, w, b, c);
    lemma_join(es, w1, w2);
    let j = w1 + w2.subrange(1, w2.len() as int);
    assert(walk_between(es, j, a, c));
}

/// A node that no edge enters is never visited by a walk that does not start there.
pub proof fn lemma_never_entered(es: Seq<(usize, Edge)>, w: Seq<usize>, x: usize, k: int)
    requires
        is_walk(es, w),
        forall|a: usize| !#[trigger] arc(es, a, x),
        w[0] != x,
        0 <= k < w.len(),
    ensures
        w[k] != x,
    decreases k,
{
    if k > 0 {
        lemma_never_entered(es, w, x, k - 1);
        assert(step_ok(es, w, k - 1));
    }
}

/// In an acyclic edge list, a walk has at most as many steps as there are edges.
pub proof fn lemma_acyclic_walk_bound(es: Seq<(usize, Edge)>, w: Seq<usize>)
    requires
        acyclic(es),
        is_walk(es, w),
    ensures
        w.len() - 1 <= es.len(),
{
    let n = es.len() as int;
    let k = w.len() - 1;
    if k > n {
        let t = w.subrange(1, w.len() as int);
        let idx = set_int_range(0, n);
        let f = |i: int| es[i].1.inputNode;
        let targets = idx.map(f);
        lemma_int_range(0, n);
        lemma_map_size_bound(idx, targets, f);
        assert forall|x: usize| t.to_set().contains(x) implies targets.contains(x) by {
            let j = choose|j: int| 0 <= j < t.len() && t[j] == x;
            assert(step_ok(es, w, j));
            let i = choose|i: int|
                0 <= i < es.len() && #[trigger] es[i].1.outputNode == w[j] && es[i].1.inputNode
                    == w[j + 1];
            assert(idx.contains(i));
            assert(f(i) == x);
        }
        assert(t.to_set().subset_of(targets));
        lemma_len_subset(t.to_set(), targets);
        if t.no_duplicates() {
            t.unique_seq_to_set();
            assert(false);
        }
        let (p0, q0) = choose|p0: int, q0: int|
            0 <= p0 < t.len() && 0 <= q0 < t.len() && p0 != q0 && t[p0] == t[q0];
        let p = if p0 < q0 { p0 + 1 } else { q0 + 1 };
        let q = if p0 < q0 { q0 + 1 } else { p0 + 1 };
        assert(w[p] == w[q]);
        assert(step_ok(es, w, p));
        let i = choose|i: int|
            0 <= i < es.len() && #[trigger] es[i].1.outputNode == w[p] && es[i].1.inputNode == w[p
                + 1];
        lemma_subwalk(es, w, p + 1, q);
        assert(walk_between(es, w.subrange(p + 1, q + 1), es[i].1.inputNode, es[i].1.outputNode));
        assert(reach(es, es[i].1.inputNode, es[i].1.outputNode));
    }
}

/// Dropping the first steps of a walk into `n` leaves a shorter walk into `n`.
pub proof fn lemma_walk_into_shorter(es: Seq<(usize, Edge)>, n: usize, k: nat, j: nat)
    requires
        walk_into(es, n, k),
        j <= k,
    ensures
        walk_into(es, n, j),
{
    let w = choose|w: Seq<usize>| #[trigger] is_walk(es, w) && w.len() == k + 1 && w[w.len() - 1] == n;
    lemma_subwalk(es, w, k - j, k as int);
    let s = w.subrange(k - j, (k + 1) as int);
    assert(is_walk(es, s) && s.len() == j + 1 && s[s.len() - 1] == n);
}


/// A duplicate-free list of nodes, each of which is `from` or the input node of an edge,
/// has at most one more element than there are edges.
pub proof fn lemma_visited_bound(es: Seq<(usize, Edge)>, v: Seq<usize>, from: usize)
    requires
        v.no_duplicates(),
        forall|j: int|
            0 <= j < v.len() ==> v[j] == from || exists|i: int|
                0 <= i < es.len() && #[trigger] es[i].1.inputNode == v[j],
    ensures
        v.len() <= es.len() + 1,
{
    let n = es.len() as int;
    let idx = set_int_range(0, n);
    let f = |i: int| es[i].1.inputNode;
    let targets = idx.map(f);
    lemma_int_range(0, n);
    lemma_map_size_bound(idx, targets, f);
    let all = targets.insert(from);
    assert forall|x: usize| v.to_set().contains(x) implies all.contains(x) by {
        let j = choose|j: int| 0 <= j < v.len() && v[j] == x;
        if x != from {
            let i = choose|i: int| 0 <= i < es.len() && #[trigger] es[i].1.inputNode == v[j];
            assert(idx.contains(i));
            assert(f(i) == x);
        }
    }
    lemma_len_subset(v.to_set(), all);
    v.unique_seq_to_set();
}

/// If a set of nodes contains `from` and is closed under following edges,
/// it contains every node reachable from `from`.
pub proof fn lemma_closed_contains_reach(
    es: Seq<(usize, Edge)>,
    v: Seq<usize>,
    from: usize,
    w: Seq<usize>,
    k: int,
)
    requires
        v.contains(from),
        forall|i: int| 0 <= i < es.len() && v.contains(#[trigger] es[i].1.outputNode) ==> v.contains(es[i].1.inputNode),
        is_walk(es, w),
        w[0] == from,
        0 <= k < w.len(),
    ensures
        v.contains(w[k]),
    decreases k,
{
    if k > 0 {
        lemma_closed_contains_reach(es, v, from, w, k - 1);
        assert(step_ok(es, w, k - 1));
        let i = choose|i: int|
            0 <= i < es.len() && #[trigger] es[i].1.outputNode == w[k - 1] && es[i].1.inputNode == w[k];
    }
}

/// Linear membership test on a list of nodes.
pub fn contains_node(v: &Vec<usize>, x: usize) -> (r: bool)
    ensures
        r == v@.contains(x),
{
    let mut i: usize = 0;
    while i < v.len()
        invariant
            i <= v.len(),
            forall|j: int| 0 <= j < i ==> v@[j] != x,
        decreases v.len() - i,
    {
        if v[i] == x {
            return true;
        }
        i += 1;
    }
    false
}

/// Decides whether node `to` can be reached from node `from` along the edges `es`.
pub fn reaches(es: &Vec<(usize, Edge)>, from: usize, to: usize) -> (r: bool)
    ensures
        r == reach(es@, from, to),
{
    let mut visited: Vec<usize> = Vec::new();
    visited.push(from);
    let mut work: Vec<usize> = Vec::new();
    work.push(from);
    proof {
        lemma_single_node_walk(es@, from);
    }
    while work.len() > 0
        invariant
            visited@.no_duplicates(),
            visited@.contains(from),
            forall|j: int| 0 <= j < visited@.len() ==> reach(es@, from, #[trigger] visited@[j]),
            forall|j: int|
                0 <= j < visited@.len() ==> visited@[j] == from || exists|i: int|
                    0 <= i < es@.len() && #[trigger] es@[i].1.inputNode == visited@[j],
            forall|j: int| 0 <= j < work@.len() ==> visited@.contains(#[trigger] work@[j]),
            forall|i: int|
                0 <= i < es@.len() && visited@.contains(#[trigger] es@[i].1.outputNode) && !work@.contains(es@[i].1.outputNode)
                    ==> visited@.contains(es@[i].1.inputNode),
        decreases es@.len() + 1 - visited@.len(), work@.len(),
    {
        proof {
            lemma_visited_bound(es@, visited@, from);
        }
        let ghost work0 = work@;
        let x = work.pop().unwrap();
        let ghost visited0 = visited@;
        let ghost work1 = work@;
        proof {
            assert(work0 == work1.push(x));
            assert(visited0.contains(x)) by {
                assert(work0[work0.len() - 1] == x);
            }
            assert forall|k: int|
                0 <= k < es@.len() && visited0.contains(#[trigger] es@[k].1.outputNode) && !work1.contains(es@[k].1.outputNode) && es@[k].1.outputNode != x
                    implies visited@.contains(es@[k].1.inputNode) by {
                assert(!work0.contains(es@[k].1.outputNode));
            }
        }
        let mut i: usize = 0;
        while i < es.len()
            invariant
                i <= es@.len(),
                visited@.no_duplicates(),
                visited0.contains(x),
                visited0.contains(from),
                visited0.len() <= visited@.len(),
                visited@.subrange(0, visited0.len() as int) == visited0,
                work@ == work1 + visited@.subrange(visited0.len() as int, visited@.len() as int),
                forall|j: int| 0 <= j < visited@.len() ==> reach(es@, from, #[trigger] visited@[j]),
                forall|j: int|
                    0 <= j < visited@.len() ==> visited@[j] == from || exists|i: int|
                        0 <= i < es@.len() && #[trigger] es@[i].1.inputNode == visited@[j],
                forall|k: int| 0 <= k < i && #[trigger] es@[k].1.outputNode == x ==> visited@.contains(es@[k].1.inputNode),
            decreases es@.len() - i,
        {
            let e = es[i].1;
            if e.outputNode == x && !contains_node(&visited, e.inputNode) {
                proof {
                    let jx = choose|j: int| 0 <= j < visited0.len() && visited0[j] == x;
                    assert(visited@[jx] == x);
                    let wx = choose|w: Seq<usize>| #[trigger] walk_between(es@, w, from, x);
                    assert(arc(es@, x, e.inputNode)) by {
                        assert(es@[i as int].1.outputNode == x);
                    }
                    lemma_arc_walk(es@, x, e.inputNode);
                    lemma_reach_trans(es@, from, x, e.inputNode);
                }
                let ghost vprev = visited@;
                visited.push(e.inputNode);
                work.push(e.inputNode);
                proof {
                    assert(visited@.last() == es@[i as int].1.inputNode);
                    assert(visited@.subrange(0, visited0.len() as int) =~= visited0);
                    assert(work@ =~= work1 + visited@.subrange(visited0.len() as int, visited@.len() as int));
                    assert forall|k: int| 0 <= k < i + 1 && #[trigger] es@[k].1.outputNode == x implies visited@.contains(es@[k].1.inputNode) by {
                        if k < i {
                            assert(vprev.contains(es@[k].1.inputNode));
                            let j = choose|j: int| 0 <= j < vprev.len() && vprev[j] == es@[k].1.inputNode;
                            assert(visited@[j] == es@[k].1.inputNode);
                        } else {
                            assert(visited@[visited@.len() - 1] == es@[k].1.inputNode);
                        }
                    }
                }
            }
            i += 1;
        }
        proof {
            let nv = visited@.subrange(visited0.len() as int, visited@.len() as int);
            assert forall|j: int| 0 <= j < visited0.len() implies visited@[j] == visited0[j] by {
                assert(visited@.subrange(0, visited0.len() as int)[j] == visited0[j]);
            }
            assert forall|j: int| visited0.len() <= j < visited@.len() implies work@.contains(visited@[j]) by {
                assert(work@[work1.len() + j - visited0.len()] == nv[j - visited0.len()]);
            }
            assert forall|j: int| 0 <= j < work@.len() implies visited@.contains(#[trigger] work@[j]) by {
                if j < work1.len() {
                    assert(work@[j] == work1[j]);
                    assert(work0[j] == work1[j]);
                    let t = choose|t: int| 0 <= t < visited0.len() && visited0[t] == work1[j];
                    assert(visited@[t] == work1[j]);
                } else {
                    assert(work@[j] == nv[j - work1.len()]);
                    assert(work@[j] == visited@[visited0.len() + j - work1.len()]);
                }
            }
            assert(visited@.no_duplicates()) by {
                assert forall|a: int, b: int| 0 <= a < visited@.len() && 0 <= b < visited@.len() && a != b implies visited@[a] != visited@[b] by {
                    if a < visited0.len() && b < visited0.len() {
                    } else if a >= visited0.len() && b >= visited0.len() {
                    } else {
                    }
                }
            }
            lemma_visited_bound(es@, visited@, from);
            assert(visited@.contains(from)) by {
                let j = choose|j: int| 0 <= j < visited0.len() && visited0[j] == from;
                assert(visited@[j] == from);
            }
            assert forall|k: int|
                0 <= k < es@.len() && visited@.contains(#[trigger] es@[k].1.outputNode) && !work@.contains(es@[k].1.outputNode)
                    implies visited@.contains(es@[k].1.inputNode) by {
                let o = es@[k].1.outputNode;
                let j = choose|j: int| 0 <= j < visited@.len() && visited@[j] == o;
                if j >= visited0.len() {
                    assert(work@.contains(visited@[j]));
                }
                assert(visited0.contains(o)) by {
                    assert(visited0[j] == o);
                }
                assert(!work1.contains(o)) by {
                    if work1.contains(o) {
                        let t = choose|t: int| 0 <= t < work1.len() && work1[t] == o;
                        assert(work@[t] == o);
                    }
                }
                if o != x {
                    assert(!work0.contains(o));
                }
            }
        }
    }
    if contains_node(&visited, to) {
        let ghost j = choose|j: int| 0 <= j < visited@.len() && visited@[j] == to;
        assert(reach(es@, from, visited@[j]));
        true
    } else {
        proof {
            if reach(es@, from, to) {
                let w = choose|w: Seq<usize>| #[trigger] walk_between(es@, w, from, to);
                lemma_closed_contains_reach(es@, visited@, from, w, w.len() - 1);
            }
        }
        false
    }
}


/// Extending or shortening walks into `n` by one step at their start.
proof fn lemma_next_frontier(es: Seq<(usize, Edge)>, n: usize, d: nat, z: usize, front: Seq<usize>)
    requires
        forall|x: usize| front.contains(x) <==> walk_len_between(es, x, n, d),
    ensures
        walk_len_between(es, z, n, d + 1) <==> exists|k: int|
            0 <= k < es.len() && front.contains(#[trigger] es[k].1.inputNode) && es[k].1.outputNode == z,
{
    if walk_len_between(es, z, n, d + 1) {
        let w = choose|w: Seq<usize>| #[trigger] walk_between(es, w, z, n) && w.len() == d + 2;
        lemma_subwalk(es, w, 1, (d + 1) as int);
        let s = w.subrange(1, (d + 2) as int);
        assert(walk_between(es, s, w[1], n) && s.len() == d + 1);
        assert(front.contains(w[1]));
        assert(step_ok(es, w, 0));
        let k = choose|k: int| 0 <= k < es.len() && #[trigger] es[k].1.outputNode == w[0] && es[k].1.inputNode == w[1];
        assert(front.contains(es[k].1.inputNode) && es[k].1.outputNode == z);
    }
    if exists|k: int|
        0 <= k < es.len() && front.contains(#[trigger] es[k].1.inputNode) && es[k].1.outputNode == z {
        let k = choose|k: int|
            0 <= k < es.len() && front.contains(#[trigger] es[k].1.inputNode) && es[k].1.outputNode == z;
        let y = es[k].1.inputNode;
        assert(walk_len_between(es, y, n, d));
        let w = choose|w: Seq<usize>| #[trigger] walk_between(es, w, y, n) && w.len() == d + 1;
        assert(arc(es, z, y));
        lemma_arc_walk(es, z, y);
        lemma_join(es, seq![z, y], w);
        let j = seq![z, y] + w.subrange(1, w.len() as int);
        assert(walk_between(es, j, z, n) && j.len() == d + 2);
    }
}

/// Computes the number of edges on a longest walk of the acyclic edge list `es`
/// that ends at node `n`.
pub fn longest_walk_into(es: &Vec<(usize, Edge)>, n: usize) -> (d: usize)
    requires
        acyclic(es@),
    ensures
        is_depth(es@, n, d as nat),
{
    let mut frontier: Vec<usize> = Vec::new();
    frontier.push(n);
    let mut d: usize = 0;
    proof {
        assert forall|x: usize| frontier@.contains(x) <==> walk_len_between(es@, x, n, 0) by {
            if frontier@.contains(x) {
                lemma_single_node_walk(es@, x);
                assert(walk_between(es@, seq![x], x, n));
            }
            if walk_len_between(es@, x, n, 0) {
                let w = choose|w: Seq<usize>| #[trigger] walk_between(es@, w, x, n) && w.len() == 1;
                assert(frontier@[0] == x);
            }
        }
    }
    loop
        invariant
            acyclic(es@),
            frontier@.len() > 0,
            d <= es@.len(),
            forall|x: usize| frontier@.contains(x) <==> walk_len_between(es@, x, n, d as nat),
        decreases es@.len() - d,
    {
        let mut next: Vec<usize> = Vec::new();
        let mut i: usize = 0;
        while i < es.len()
            invariant
                i <= es@.len(),
                forall|z: usize|
                    next@.contains(z) <==> exists|k: int|
                        0 <= k < i && frontier@.contains(#[trigger] es@[k].1.inputNode) && es@[k].1.outputNode == z,
            decreases es@.len() - i,
        {
            let e = es[i].1;
            let ghost prev = next@;
            if contains_node(&frontier, e.inputNode) && !contains_node(&next, e.outputNode) {
                next.push(e.outputNode);
            }
            proof {
                assert forall|z: usize|
                    next@.contains(z) <==> exists|k: int|
                        0 <= k < i + 1 && frontier@.contains(#[trigger] es@[k].1.inputNode) && es@[k].1.outputNode == z by {
                    if next@.contains(z) && !prev.contains(z) {
                        assert(es@[i as int].1.outputNode == z);
                    }
                    if prev.contains(z) {
                        let t = choose|t: int| 0 <= t < prev.len() && prev[t] == z;
                        assert(next@[t] == z);
                    }
                    if exists|k: int|
                        0 <= k < i + 1 && frontier@.contains(#[trigger] es@[k].1.inputNode) && es@[k].1.outputNode == z {
                        let k = choose|k: int|
                            0 <= k < i + 1 && frontier@.contains(#[trigger] es@[k].1.inputNode) && es@[k].1.outputNode == z;
                        if k == i && !prev.contains(z) {
                            assert(next@[next@.len() - 1] == z);
                        }
                    }
                }
            }
            i += 1;
        }
        proof {
            assert forall|z: usize| next@.contains(z) <==> walk_len_between(es@, z, n, (d + 1) as nat) by {
                lemma_next_frontier(es@, n, d as nat, z, frontier@);
            }
        }
        if next.len() == 0 {
            proof {
                let x = frontier@[0];
                assert(frontier@.contains(x));
                let w = choose|w: Seq<usize>| #[trigger] walk_between(es@, w, x, n) && w.len() == d + 1;
                assert(is_walk(es@, w) && w.len() == d + 1 && w[w.len() - 1] == n);
                assert forall|k: nat| k > d implies !#[trigger] walk_into(es@, n, k) by {
                    if walk_into(es@, n, k) {
                        lemma_walk_into_shorter(es@, n, k, (d + 1) as nat);
                        let v = choose|v: Seq<usize>| #[trigger] is_walk(es@, v) && v.len() == d + 2 && v[v.len() - 1] == n;
                        assert(walk_between(es@, v, v[0], n));
                        assert(next@.contains(v[0]));
                    }
                }
            }
            return d;
        }
        proof {
            let z = next@[0];
            assert(next@.contains(z));
            let w = choose|w: Seq<usize>| #[trigger] walk_between(es@, w, z, n) && w.len() == d + 2;
            lemma_acyclic_walk_bound(es@, w);
        }
        d = d + 1;
        frontier = next;
    }
}


/// Some element of `es` carries the edge `e`.
pub open spec fn has_edge(es: Seq<(usize, Edge)>, e: Edge) -> bool {
    exists|u: int| 0 <= u < es.len() && #[trigger] es[u].1 == e
}

/// Every edge of `es2` is an edge of `es1`, except possibly edges leaving `l`.
pub open spec fn edges_from(es2: Seq<(usize, Edge)>, es1: Seq<(usize, Edge)>, l: usize) -> bool {
    forall|t: int| 0 <= t < es2.len() && (#[trigger] es2[t]).1.outputNode != l ==> has_edge(es1, es2[t].1)
}

/// Edges out of a node that no edge enters cannot close a cycle: an edge list built
/// from the edges of an acyclic list and edges leaving such a node is acyclic.
pub proof fn lemma_unentered_source_acyclic(es1: Seq<(usize, Edge)>, es2: Seq<(usize, Edge)>, l: usize)
    requires
        acyclic(es1),
        edges_from(es2, es1, l),
        forall|t: int| 0 <= t < es2.len() ==> (#[trigger] es2[t]).1.inputNode != l,
    ensures
        acyclic(es2),
{
    assert forall|a: usize| !#[trigger] arc(es2, a, l) by {
        if arc(es2, a, l) {
            let t = choose|t: int| 0 <= t < es2.len() && #[trigger] es2[t].1.outputNode == a && es2[t].1.inputNode == l;
            assert(es2[t].1.inputNode != l);
        }
    }
    assert forall|t: int| 0 <= t < es2.len() implies !reach(es2, #[trigger] es2[t].1.inputNode, es2[t].1.outputNode) by {
        let f = es2[t].1;
        if reach(es2, f.inputNode, f.outputNode) {
            let w = choose|w: Seq<usize>| #[trigger] walk_between(es2, w, f.inputNode, f.outputNode);
            assert(f.inputNode != l);
            assert forall|m: int| 0 <= m < w.len() - 1 implies #[trigger] step_ok(es1, w, m) by {
                lemma_never_entered(es2, w, l, m);
                assert(step_ok(es2, w, m));
                let v = choose|v: int| 0 <= v < es2.len() && #[trigger] es2[v].1.outputNode == w[m] && es2[v].1.inputNode == w[m + 1];
                let u = choose|u: int| 0 <= u < es1.len() && #[trigger] es1[u].1 == es2[v].1;
                assert(es1[u].1.outputNode == w[m] && es1[u].1.inputNode == w[m + 1]);
            }
            if f.outputNode == l {
                lemma_never_entered(es2, w, l, w.len() - 1);
            } else {
                let u = choose|u: int| 0 <= u < es1.len() && #[trigger] es1[u].1 == es2[t].1;
                assert(walk_between(es1, w, es1[u].1.inputNode, es1[u].1.outputNode));
            }
        }
    }
}

/// Every edge of `es2` is an edge of `es1`.
pub open spec fn edges_among(es2: Seq<(usize, Edge)>, es1: Seq<(usize, Edge)>) -> bool {
    forall|t: int| 0 <= t < es2.len() ==> has_edge(es1, (#[trigger] es2[t]).1)
}

pub proof fn lemma_edges_among_arcs(es2: Seq<(usize, Edge)>, es1: Seq<(usize, Edge)>)
    requires
        edges_among(es2, es1),
    ensures
        arcs_within(es2, es1),
{
    assert forall|a: usize, b: usize| #[trigger] arc(es2, a, b) implies arc(es1, a, b) by {
        let t = choose|t: int| 0 <= t < es2.len() && #[trigger] es2[t].1.outputNode == a && es2[t].1.inputNode == b;
        let u = choose|u: int| 0 <= u < es1.len() && #[trigger] es1[u].1 == (#[trigger] es2[t]).1;
        assert(es1[u].1.outputNode == a && es1[u].1.inputNode == b);
    }
}

/// A sub-list of an acyclic edge list is acyclic.
pub proof fn lemma_edges_among_acyclic(es2: Seq<(usize, Edge)>, es1: Seq<(usize, Edge)>)
    requires
        edges_among(es2, es1),
        acyclic(es1),
    ensures
        acyclic(es2),
{
    lemma_edges_among_arcs(es2, es1);
    assert forall|t: int| 0 <= t < es2.len() implies !reach(es2, #[trigger] es2[t].1.inputNode, es2[t].1.outputNode) by {
        if reach(es2, es2[t].1.inputNode, es2[t].1.outputNode) {
            lemma_reach_within(es2, es1, es2[t].1.inputNode, es2[t].1.outputNode);
            let u = choose|u: int| 0 <= u < es1.len() && #[trigger] es1[u].1 == (#[trigger] es2[t]).1;
            assert(reach(es1, es1[u].1.inputNode, es1[u].1.outputNode));
        }
    }
}

/// Adding an edge `e` to a list taken from an acyclic one keeps it acyclic, unless
/// the output node of `e` can then be reached from its input node.
pub proof fn lemma_add_edge_acyclic(es0: Seq<(usize, Edge)>, es1: Seq<(usize, Edge)>, x: usize, e: Edge)
    requires
        acyclic(es0),
        edges_among(es1, es0),
        !reach(es1.push((x, e)), e.inputNode, e.outputNode),
    ensures
        acyclic(es1.push((x, e))),
{
    let es2 = es1.push((x, e));
    assert forall|t: int| 0 <= t < es2.len() implies !reach(es2, #[trigger] es2[t].1.inputNode, es2[t].1.outputNode) by {
        let f = es2[t].1;
        if t < es1.len() && reach(es2, f.inputNode, f.outputNode) {
            assert(es2[t] == es1[t]);
            let w = choose|w: Seq<usize>| #[trigger] walk_between(es2, w, f.inputNode, f.outputNode);
            if exists|p: int| 0 <= p < w.len() - 1 && #[trigger] w[p] == e.outputNode && w[p + 1] == e.inputNode {
                let p = choose|p: int| 0 <= p < w.len() - 1 && #[trigger] w[p] == e.outputNode && w[p + 1] == e.inputNode;
                lemma_subwalk(es2, w, p + 1, w.len() - 1);
                lemma_subwalk(es2, w, 0, p);
                assert(arc(es2, f.outputNode, f.inputNode)) by {
                    assert(es2[t].1.outputNode == f.outputNode);
                }
                lemma_arc_walk(es2, f.outputNode, f.inputNode);
                lemma_reach_trans(es2, e.inputNode, f.outputNode, f.inputNode);
                lemma_reach_trans(es2, e.inputNode, f.inputNode, e.outputNode);
            } else {
                assert forall|m: int| 0 <= m < w.len() - 1 implies #[trigger] step_ok(es0, w, m) by {
                    assert(step_ok(es2, w, m));
                    let v = choose|v: int| 0 <= v < es2.len() && #[trigger] es2[v].1.outputNode == w[m] && es2[v].1.inputNode == w[m + 1];
                    assert(v < es1.len());
                    assert(es2[v] == es1[v]);
                    let u = choose|u: int| 0 <= u < es0.len() && #[trigger] es0[u].1 == (#[trigger] es1[v]).1;
                    assert(es0[u].1.outputNode == w[m] && es0[u].1.inputNode == w[m + 1]);
                }
                let u = choose|u: int| 0 <= u < es0.len() && #[trigger] es0[u].1 == (#[trigger] es1[t]).1;
                assert(walk_between(es0, w, es0[u].1.inputNode, es0[u].1.outputNode));
            }
        }
    }
}


/// An edge at position `u` of `es1` equal to the one at position `t` of `es2`
/// witnesses that the latter occurs in `es1`.
pub proof fn lemma_edge_witness(es1: Seq<(usize, Edge)>, es2: Seq<(usize, Edge)>, u: int, t: int)
    requires
        0 <= u < es1.len(),
        0 <= t < es2.len(),
        es1[u].1 == es2[t].1,
    ensures
        has_edge(es1, es2[t].1),
{
}

pub proof fn lemma_edges_among_refl(es: Seq<(usize, Edge)>)
    ensures
        edges_among(es, es),
{
    assert forall|t: int| 0 <= t < es.len() implies has_edge(es, (#[trigger] es[t]).1) by {
        lemma_edge_witness(es, es, t, t);
    }
}


/// Some edge of `es` enters node `x`.
pub open spec fn entered(es: Seq<(usize, Edge)>, x: usize) -> bool {
    exists|i: int| 0 <= i < es.len() && #[trigger] es[i].1.inputNode == x
}

/// An edge list built from an acyclic list `es1` is acyclic when each of its edges
/// enters a node that `es1` enters, and is an edge of `es1` unless it leaves a node
/// that no edge of `es1` enters.
pub proof fn lemma_rewired_acyclic(es1: Seq<(usize, Edge)>, es2: Seq<(usize, Edge)>)
    requires
        acyclic(es1),
        forall|t: int| 0 <= t < es2.len() ==> has_edge(es1, (#[trigger] es2[t]).1) || !entered(es1, es2[t].1.outputNode),
        forall|t: int| 0 <= t < es2.len() ==> entered(es1, (#[trigger] es2[t]).1.inputNode),
    ensures
        acyclic(es2),
{
    assert forall|t: int| 0 <= t < es2.len() implies !reach(es2, #[trigger] es2[t].1.inputNode, es2[t].1.outputNode) by {
        let f = es2[t].1;
        if reach(es2, f.inputNode, f.outputNode) {
            let w = choose|w: Seq<usize>| #[trigger] walk_between(es2, w, f.inputNode, f.outputNode);
            assert forall|k: int| 0 <= k < w.len() implies entered(es1, #[trigger] w[k]) by {
                if k > 0 {
                    assert(step_ok(es2, w, k - 1));
                    let v = choose|v: int| 0 <= v < es2.len() && #[trigger] es2[v].1.outputNode == w[k - 1] && es2[v].1.inputNode == w[k];
                    assert(entered(es1, es2[v].1.inputNode));
                }
            }
            assert forall|m: int| 0 <= m < w.len() - 1 implies #[trigger] step_ok(es1, w, m) by {
                assert(step_ok(es2, w, m));
                let v = choose|v: int| 0 <= v < es2.len() && #[trigger] es2[v].1.outputNode == w[m] && es2[v].1.inputNode == w[m + 1];
                assert(entered(es1, w[m]));
                assert(has_edge(es1, es2[v].1));
                let u = choose|u: int| 0 <= u < es1.len() && #[trigger] es1[u].1 == es2[v].1;
                assert(es1[u].1.outputNode == w[m] && es1[u].1.inputNode == w[m + 1]);
            }
            assert(entered(es1, w[w.len() - 1]));
            assert(has_edge(es1, f));
            let u = choose|u: int| 0 <= u < es1.len() && #[trigger] es1[u].1 == f;
            assert(walk_between(es1, w, es1[u].1.inputNode, es1[u].1.outputNode));
        }
    }
}

} // verus!
