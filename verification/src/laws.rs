use vstd::prelude::*;

use crate::edge::{same_slot, Edge};
use crate::commands::{parse_edge_args, spec_command, spec_execute_commands, spec_run};
use crate::text::parse_unsigned;
use crate::graph::{
    add_edge_panics, creates_cycle, default_edge, default_for, detach_range, edge_ok, fed,
    first_equal, first_slot, has_node, kind_of, not_into, rewire_from, lemma_add_edge_wf, lemma_default_of_input,
    lemma_first_equal, lemma_first_equal_is, lemma_first_slot, lemma_same_edges,
    lemma_take_slot_clears, mismatched, relayer, same_edges, spec_add_edge, spec_detach,
    spec_remove_edge, spec_remove_node, take_slot, CommandView, Graph, GraphError, GraphModel,
};
use crate::node::{input_kinds, is_literal, output_kinds};
use crate::schedule::{at_layer, layers_from, on_layer, spec_schedule};
use crate::walk::{
    acyclic, arc, arcs_within, depth, lemma_walk_within, has_edge, is_depth, is_walk, lemma_acyclic_walk_bound, lemma_arc_walk,
    lemma_depth_unique, lemma_edge_witness, lemma_join, lemma_single_node_walk, lemma_subwalk,
    step_ok, walk_between, walk_into,
};

verus! {

// ---------------------------------------------------------------------------
// Inputs and edges
// ---------------------------------------------------------------------------

/// Every input of every node of a graph is fed by exactly one edge.
pub proof fn law_each_input_fed_once(g: GraphModel, id: int, j: int)
    requires
        g.wf(),
        has_node(g.nodes, id),
        0 <= j < input_kinds(kind_of(g.nodes, id)).len(),
    ensures
        exists|i: int| 0 <= i < g.edges.len() && #[trigger] g.edges[i].1.inputNode == id && g.edges[i].1.inputIndex == j,
        forall|a: int, b: int|
            0 <= a < g.edges.len() && 0 <= b < g.edges.len() && (#[trigger] g.edges[a]).1.inputNode == id
                && g.edges[a].1.inputIndex == j && (#[trigger] g.edges[b]).1.inputNode == id
                && g.edges[b].1.inputIndex == j ==> a == b,
{
    assert(fed(g.edges, id, j));
    assert forall|a: int, b: int|
        0 <= a < g.edges.len() && 0 <= b < g.edges.len() && (#[trigger] g.edges[a]).1.inputNode == id
            && g.edges[a].1.inputIndex == j && (#[trigger] g.edges[b]).1.inputNode == id
            && g.edges[b].1.inputIndex == j implies a == b by {
        if a != b {
            assert(!same_slot(g.edges[a].1, g.edges[b].1));
        }
    }
}

/// Each input of each node has a default input edge, from the literal node added
/// with it; while that literal exists it supplies a value of the input's kind.
pub proof fn law_default_inputs_are_literals(g: GraphModel, id: int, j: int)
    requires
        g.wf(),
        has_node(g.nodes, id),
        0 <= j < input_kinds(kind_of(g.nodes, id)).len(),
    ensures
        g.defaults[id] is Some,
        g.defaults[id]->Some_0[j] == default_edge(id as usize, j),
        has_node(g.nodes, id + j + 1) ==> is_literal(kind_of(g.nodes, id + j + 1)) && output_kinds(
            kind_of(g.nodes, id + j + 1),
        )[0] == input_kinds(kind_of(g.nodes, id))[j],
{
    assert(crate::graph::defaults_ok(g, id));
}

/// A new graph holds the final node, with identifier 0, and the bitmap literal
/// that feeds its input, with identifier 1, joined by one edge; its command
/// history is empty and carries the identifier 0.
pub proof fn law_new_graph()
    ensures
        Graph::spec_new().wf(),
        Graph::spec_new().id_count == 2,
        Graph::spec_new().nodes.len() == 2,
        kind_of(Graph::spec_new().nodes, 0) == crate::node::NodeKind::Final,
        kind_of(Graph::spec_new().nodes, 1) == crate::node::NodeKind::BitmapLiteral,
        Graph::spec_new().edges == seq![(0usize, Edge { inputIndex: 0, outputIndex: 0, inputNode: 0, outputNode: 1 })],
        Graph::spec_new().history.len() == 0,
        Graph::spec_new().graph_id == 0,
{
    let g = Graph::spec_new();
    assert(g.edges =~= seq![(0usize, Edge { inputIndex: 0, outputIndex: 0, inputNode: 0, outputNode: 1 })]);
    assert(g.nodes[0] == Some(crate::nodes::Node::Final(crate::nodes::FinalNode {  })@));
    crate::graph::lemma_new_wf();
}

// ---------------------------------------------------------------------------
// Refused edges
// ---------------------------------------------------------------------------

/// Refusing an edge between sockets of different kinds changes nothing.
pub proof fn law_mismatched_edge_refused(g: GraphModel, e: Edge)
    requires
        mismatched(g, e),
    ensures
        spec_add_edge(g, e) == (g, Err::<(), GraphError>(GraphError::MismatchedNodes)),
{
}

/// Refusing an edge that would close a cycle leaves the graph's nodes and its
/// edges as they were: the edge it displaced is put back, and only the order of
/// the edges and their layers may change.
pub proof fn law_cycle_refused_keeps_edges(g: GraphModel, e: Edge)
    requires
        g.wf(),
        !add_edge_panics(g, e),
        !mismatched(g, e),
        creates_cycle(g, e),
    ensures
        spec_add_edge(g, e).1 == Err::<(), GraphError>(GraphError::Cycle),
        spec_add_edge(g, e).0.nodes == g.nodes,
        spec_add_edge(g, e).0.defaults == g.defaults,
        spec_add_edge(g, e).0.id_count == g.id_count,
        spec_add_edge(g, e).0.edges.len() == g.edges.len(),
        forall|x: Edge| has_edge(spec_add_edge(g, e).0.edges, x) <==> has_edge(g.edges, x),
{
    let id = e.inputNode as int;
    let j = e.inputIndex as int;
    assert(fed(g.edges, id, j));
    lemma_first_slot(g.edges, e);
    let t = choose|t: int| 0 <= t < g.edges.len() && #[trigger] g.edges[t].1.inputNode == id && g.edges[t].1.inputIndex == j;
    assert(same_slot(g.edges[t].1, e));
    let i = first_slot(g.edges, e)->Some_0;
    let r = g.edges[i].1;
    let es1 = g.edges.remove(i);
    let es2 = es1.push((0usize, r));
    let out = relayer(es2);
    g.edges.remove_ensures(i);
    assert(take_slot(g.edges, e) == es1);
    assert(spec_add_edge(g, e).0.edges == out);
    assert forall|x: Edge| has_edge(out, x) <==> has_edge(g.edges, x) by {
        if has_edge(out, x) {
            let u = choose|u: int| 0 <= u < out.len() && #[trigger] out[u].1 == x;
            if u < es1.len() {
                let v = if u < i { u } else { u + 1 };
                assert(es1[u] == g.edges[v]);
                lemma_edge_witness(g.edges, out, v, u);
            } else {
                lemma_edge_witness(g.edges, out, i, u);
            }
        }
        if has_edge(g.edges, x) {
            let v = choose|v: int| 0 <= v < g.edges.len() && #[trigger] g.edges[v].1 == x;
            if v == i {
                assert(out[es1.len() as int].1 == x);
                lemma_edge_witness(out, out, es1.len() as int, es1.len() as int);
            } else {
                let u = if v < i { v } else { v - 1 };
                assert(es1[u] == g.edges[v]);
                assert(out[u].1 == x);
                lemma_edge_witness(out, out, u, u);
            }
        }
    }
}

/// An accepted edge feeds the input it names in place of the edge that fed it;
/// every other edge stays, and the number of edges does not change.
pub proof fn law_add_edge_connects(g: GraphModel, e: Edge)
    requires
        g.wf(),
        !add_edge_panics(g, e),
        !mismatched(g, e),
        !creates_cycle(g, e),
    ensures
        spec_add_edge(g, e).1 == Ok::<(), GraphError>(()),
        spec_add_edge(g, e).0.nodes == g.nodes,
        spec_add_edge(g, e).0.edges.len() == g.edges.len(),
        has_edge(spec_add_edge(g, e).0.edges, e),
        forall|x: Edge| has_edge(g.edges, x) && !same_slot(x, e) ==> has_edge(spec_add_edge(g, e).0.edges, x),
        forall|x: Edge| has_edge(spec_add_edge(g, e).0.edges, x) ==> x == e || (has_edge(g.edges, x) && !same_slot(x, e)),
{
    let id = e.inputNode as int;
    let j = e.inputIndex as int;
    assert(fed(g.edges, id, j));
    lemma_first_slot(g.edges, e);
    let t = choose|t: int| 0 <= t < g.edges.len() && #[trigger] g.edges[t].1.inputNode == id && g.edges[t].1.inputIndex == j;
    assert(same_slot(g.edges[t].1, e));
    let i = first_slot(g.edges, e)->Some_0;
    let es1 = g.edges.remove(i);
    let out = relayer(es1.push((0usize, e)));
    g.edges.remove_ensures(i);
    assert(take_slot(g.edges, e) == es1);
    assert(spec_add_edge(g, e).0.edges == out);
    lemma_edge_witness(out, out, es1.len() as int, es1.len() as int);
    assert forall|x: Edge| has_edge(g.edges, x) && !same_slot(x, e) implies has_edge(out, x) by {
        let v = choose|v: int| 0 <= v < g.edges.len() && #[trigger] g.edges[v].1 == x;
        assert(v != i);
        let u = if v < i { v } else { v - 1 };
        assert(es1[u] == g.edges[v]);
        assert(out[u].1 == x);
        lemma_edge_witness(out, out, u, u);
    }
    assert forall|x: Edge| has_edge(out, x) implies x == e || (has_edge(g.edges, x) && !same_slot(x, e)) by {
        let u = choose|u: int| 0 <= u < out.len() && #[trigger] out[u].1 == x;
        if u < es1.len() {
            let v = if u < i { u } else { u + 1 };
            assert(es1[u] == g.edges[v]);
            assert(v != i);
            assert(!same_slot(g.edges[v].1, g.edges[i].1));
            lemma_edge_witness(g.edges, out, v, u);
        }
    }
}

// ---------------------------------------------------------------------------
// Layers
// ---------------------------------------------------------------------------

/// The longest walk into a node of an acyclic edge list, found from a bound on
/// walk lengths.
proof fn lemma_find_depth(es: Seq<(usize, Edge)>, n: usize, k: nat) -> (d: nat)
    requires
        forall|m: nat| m > k ==> !#[trigger] walk_into(es, n, m),
    ensures
        is_depth(es, n, d),
        d <= k,
    decreases k,
{
    if walk_into(es, n, k) {
        k
    } else if k == 0 {
        lemma_single_node_walk(es, n);
        assert(is_walk(es, seq![n]) && seq![n].len() == 0 + 1 && seq![n][0] == n);
        0
    } else {
        assert forall|m: nat| m > (k - 1) as nat implies !#[trigger] walk_into(es, n, m) by {
            if m > k {
            }
        }
        lemma_find_depth(es, n, (k - 1) as nat)
    }
}

/// In an acyclic edge list every node has a longest walk into it, of at most as
/// many steps as there are edges.
pub proof fn lemma_depth_exists(es: Seq<(usize, Edge)>, n: usize)
    requires
        acyclic(es),
    ensures
        is_depth(es, n, depth(es, n)),
        depth(es, n) <= es.len(),
{
    assert forall|m: nat| m > es.len() implies !#[trigger] walk_into(es, n, m) by {
        if walk_into(es, n, m) {
            let w = choose|w: Seq<usize>| #[trigger] is_walk(es, w) && w.len() == m + 1 && w[w.len() - 1] == n;
            lemma_acyclic_walk_bound(es, w);
        }
    }
    let d = lemma_find_depth(es, n, es.len());
    lemma_depth_unique(es, n, d);
}

/// Once layers are recomputed, an edge that feeds the node another edge leaves is
/// on a lower layer than that edge: processing the edges layer by layer passes a
/// value out of a node only after every input of that node has received its value.
pub proof fn law_layers_follow_dependencies(es: Seq<(usize, Edge)>, a: int, b: int)
    requires
        acyclic(es),
        es.len() < usize::MAX,
        0 <= a < es.len(),
        0 <= b < es.len(),
        es[b].1.inputNode == es[a].1.outputNode,
    ensures
        relayer(es)[b].0 < relayer(es)[a].0,
{
    let p = es[a].1;
    let q = es[b].1;
    lemma_depth_exists(es, q.outputNode);
    lemma_depth_exists(es, p.outputNode);
    let d = depth(es, q.outputNode);
    let w = choose|w: Seq<usize>| #[trigger] is_walk(es, w) && w.len() == d + 1 && w[w.len() - 1] == q.outputNode;
    assert(arc(es, q.outputNode, q.inputNode)) by {
        assert(es[b].1.outputNode == q.outputNode);
    }
    lemma_arc_walk(es, q.outputNode, q.inputNode);
    lemma_join(es, w, seq![q.outputNode, q.inputNode]);
    let w2 = w + seq![q.outputNode, q.inputNode].subrange(1, 2);
    assert(walk_between(es, w2, w[0], q.inputNode));
    assert(is_walk(es, w2) && w2.len() == (d + 1) + 1 && w2[w2.len() - 1] == p.outputNode);
    assert(walk_into(es, p.outputNode, d + 1));
}


/// Two edge lists with the same arcs give every node the same depth.
proof fn lemma_depth_same_arcs(es1: Seq<(usize, Edge)>, es2: Seq<(usize, Edge)>, n: usize)
    requires
        acyclic(es1),
        arcs_within(es1, es2),
        arcs_within(es2, es1),
    ensures
        depth(es2, n) == depth(es1, n),
        depth(es1, n) <= es1.len(),
{
    lemma_depth_exists(es1, n);
    let d = depth(es1, n);
    let w = choose|w: Seq<usize>| #[trigger] is_walk(es1, w) && w.len() == d + 1 && w[w.len() - 1] == n;
    lemma_walk_within(es1, es2, w);
    assert(walk_into(es2, n, d));
    assert forall|k: nat| k > d implies !#[trigger] walk_into(es2, n, k) by {
        if walk_into(es2, n, k) {
            let v = choose|v: Seq<usize>| #[trigger] is_walk(es2, v) && v.len() == k + 1 && v[v.len() - 1] == n;
            lemma_walk_within(es2, es1, v);
            assert(walk_into(es1, n, k));
        }
    }
    lemma_depth_unique(es2, n, d);
}

/// Moving one edge of a list to its end, and changing layers, keeps the arcs.
proof fn lemma_moved_arcs(es: Seq<(usize, Edge)>, i: int, f: Seq<(usize, Edge)>)
    requires
        0 <= i < es.len(),
        same_edges(f, es.remove(i).push(es[i])),
    ensures
        arcs_within(es, f),
        arcs_within(f, es),
{
    let p = es.remove(i).push(es[i]);
    let last = es.len() - 1;
    es.remove_ensures(i);
    assert forall|x: usize, y: usize| #[trigger] arc(f, x, y) implies arc(es, x, y) by {
        let w = choose|w: int| 0 <= w < f.len() && #[trigger] f[w].1.outputNode == x && f[w].1.inputNode == y;
        let v = if w == last { i } else if w < i { w } else { w + 1 };
        assert(es[v].1 == p[w].1);
        assert(f[w].1 == p[w].1);
    }
    assert forall|x: usize, y: usize| #[trigger] arc(es, x, y) implies arc(f, x, y) by {
        let v = choose|v: int| 0 <= v < es.len() && #[trigger] es[v].1.outputNode == x && es[v].1.inputNode == y;
        let w = if v == i { last } else if v < i { v } else { v - 1 };
        assert(p[w] == es[v]);
        assert(f[w].1 == p[w].1);
    }
}

/// Once layers are recomputed over an edge list without cycles (as `add_edge`,
/// `remove_node` and `remove_edge_and_replace_with_default` do when asked), the
/// layer of each edge is the number of edges on a longest walk, in the list itself,
/// ending at the node the edge comes from.
pub proof fn law_recomputed_layers_are_depths(es: Seq<(usize, Edge)>)
    requires
        acyclic(es),
        es.len() <= usize::MAX,
    ensures
        forall|k: int| 0 <= k < relayer(es).len() ==> (#[trigger] relayer(es)[k]).0 == depth(relayer(es), relayer(es)[k].1.outputNode),
{
    let out = relayer(es);
    assert(same_edges(es, out));
    lemma_same_edges(es, out);
    lemma_same_edges(out, es);
    assert forall|k: int| 0 <= k < out.len() implies (#[trigger] out[k]).0 == depth(out, out[k].1.outputNode) by {
        lemma_depth_same_arcs(es, out, es[k].1.outputNode);
    }
}

/// After an accepted edge, the layer of every edge is the number of edges on a
/// longest walk, in the resulting edge list, ending at the node the edge comes from.
pub proof fn law_accepted_edge_layers(g: GraphModel, e: Edge)
    requires
        g.wf(),
        g.edges.len() <= usize::MAX,
        !add_edge_panics(g, e),
        spec_add_edge(g, e).1 is Ok,
    ensures
        forall|k: int|
            0 <= k < spec_add_edge(g, e).0.edges.len() ==> (#[trigger] spec_add_edge(g, e).0.edges[k]).0 == depth(
                spec_add_edge(g, e).0.edges,
                spec_add_edge(g, e).0.edges[k].1.outputNode,
            ),
{
    let es2 = take_slot(g.edges, e).push((0usize, e));
    lemma_add_edge_wf(g, e);
    law_add_edge_connects(g, e);
    assert(spec_add_edge(g, e).0.edges == relayer(es2));
    law_recomputed_layers_are_depths(es2);
}

/// Removing an edge that was just accepted, into an input that its default edge
/// fed before, gives back the edges and layers there were: the same pairs of layer
/// and edge, of which only the default edge may have moved.
pub proof fn law_remove_undoes_add(g: GraphModel, e: Edge)
    requires
        g.wf(),
        forall|k: int| 0 <= k < g.edges.len() ==> (#[trigger] g.edges[k]).0 == depth(g.edges, g.edges[k].1.outputNode),
        has_edge(g.edges, default_edge(e.inputNode, e.inputIndex as int)),
        !add_edge_panics(g, e),
        spec_add_edge(g, e).1 is Ok,
    ensures
        spec_remove_edge(spec_add_edge(g, e).0, e, true).1 is Ok,
        spec_remove_edge(spec_add_edge(g, e).0, e, true).0.nodes == g.nodes,
        spec_remove_edge(spec_add_edge(g, e).0, e, true).0.edges.to_multiset() == g.edges.to_multiset(),
{
    broadcast use vstd::multiset::group_multiset_axioms;
    let d = default_edge(e.inputNode, e.inputIndex as int);
    let id = e.inputNode as int;
    let j = e.inputIndex as int;
    // the input is fed by its default edge, at the slot that `add_edge` takes
    assert(fed(g.edges, id, j));
    lemma_first_slot(g.edges, e);
    let t = choose|t: int| 0 <= t < g.edges.len() && #[trigger] g.edges[t].1.inputNode == id && g.edges[t].1.inputIndex == j;
    assert(same_slot(g.edges[t].1, e));
    let i = first_slot(g.edges, e)->Some_0;
    let u = choose|u: int| 0 <= u < g.edges.len() && #[trigger] g.edges[u].1 == d;
    assert(same_slot(g.edges[u].1, g.edges[i].1));
    assert(u == i);
    // after adding
    let es1 = g.edges.remove(i);
    g.edges.remove_ensures(i);
    assert(take_slot(g.edges, e) == es1);
    let es2 = es1.push((0usize, e));
    let a = relayer(es2);
    let g1 = spec_add_edge(g, e).0;
    assert(g1.edges == a);
    lemma_take_slot_clears(g.edges, e);
    let last = es1.len() as int;
    assert forall|m: int| 0 <= m < last implies #[trigger] a[m].1 != e by {
        assert(a[m].1 == es1[m].1);
        assert(!same_slot(es1[m].1, e));
    }
    lemma_first_equal_is(a, e, last);
    // after removing
    lemma_default_of_input(g, e);
    assert(default_for(g1, e) == d);
    let f = a.update(last, (a[last].0, d));
    let r = relayer(f);
    assert(spec_remove_edge(g1, e, true).0.edges == r);
    // `r` is the original list with the default edge moved to the end
    let p = es1.push(g.edges[i]);
    assert(same_edges(f, p));
    lemma_moved_arcs(g.edges, i, f);
    assert forall|k: int| 0 <= k < r.len() implies #[trigger] r[k] == p[k] by {
        let v = if k == last { i } else if k < i { k } else { k + 1 };
        assert(p[k] == g.edges[v]);
        lemma_depth_same_arcs(g.edges, f, p[k].1.outputNode);
    }
    assert(r =~= p);
    assert(p.to_multiset() =~= g.edges.to_multiset()) by {
        es1.to_multiset_ensures();
        g.edges.to_multiset_ensures();
        assert(g.edges.to_multiset().count(g.edges[i]) > 0) by {
            assert(g.edges.contains(g.edges[i]));
        }
    }
}


// ---------------------------------------------------------------------------
// Removing edges and nodes
// ---------------------------------------------------------------------------

/// Removing an edge connects the input it fed to that input's default literal
/// again; every other edge stays, and the number of edges does not change.
pub proof fn law_remove_edge_restores_default(g: GraphModel, e: Edge, recalculate: bool)
    requires
        g.wf(),
        has_edge(g.edges, e),
    ensures
        spec_remove_edge(g, e, recalculate).1 == Ok::<(), GraphError>(()),
        spec_remove_edge(g, e, recalculate).0.nodes == g.nodes,
        spec_remove_edge(g, e, recalculate).0.edges.len() == g.edges.len(),
        has_edge(spec_remove_edge(g, e, recalculate).0.edges, default_edge(e.inputNode, e.inputIndex as int)),
        forall|x: Edge| x != e && has_edge(g.edges, x) ==> has_edge(spec_remove_edge(g, e, recalculate).0.edges, x),
        has_edge(spec_remove_edge(g, e, recalculate).0.edges, e) ==> e == default_edge(e.inputNode, e.inputIndex as int),
{
    lemma_first_equal(g.edges, e);
    let i = first_equal(g.edges, e)->Some_0;
    assert(edge_ok(g, g.edges[i].1));
    lemma_default_of_input(g, e);
    let d = default_for(g, e);
    let es = g.edges.update(i, (g.edges[i].0, d));
    let out = if recalculate { relayer(es) } else { es };
    assert(spec_remove_edge(g, e, recalculate).0.edges == out);
    assert(out.len() == g.edges.len());
    assert(out[i].1 == d);
    lemma_edge_witness(out, out, i, i);
    assert forall|x: Edge| x != e && has_edge(g.edges, x) implies has_edge(out, x) by {
        let v = choose|v: int| 0 <= v < g.edges.len() && #[trigger] g.edges[v].1 == x;
        assert(v != i);
        assert(out[v].1 == g.edges[v].1);
        lemma_edge_witness(out, out, v, v);
    }
    if has_edge(out, e) {
        let v = choose|v: int| 0 <= v < out.len() && #[trigger] out[v].1 == e;
        if v != i {
            assert(out[v].1 == g.edges[v].1);
            assert(!crate::edge::same_slot(g.edges[v].1, g.edges[i].1));
        }
    }
}

/// Detaching nodes keeps the nodes' number, the defaults and the history, and
/// leaves each node of the range absent.
proof fn lemma_detach_range_nodes(g: GraphModel, next: int, end: int)
    requires
        g.nodes.len() == g.id_count,
        g.id_count <= usize::MAX,
        0 <= next,
    ensures
        detach_range(g, next, end).nodes.len() == g.nodes.len(),
        detach_range(g, next, end).id_count == g.id_count,
        detach_range(g, next, end).defaults == g.defaults,
        detach_range(g, next, end).history == g.history,
        forall|m: int| next <= m < end ==> !has_node(detach_range(g, next, end).nodes, m),
        forall|m: int| #[trigger] has_node(detach_range(g, next, end).nodes, m) ==> has_node(g.nodes, m),
    decreases end - next,
{
    if next < end {
        let g1 = if has_node(g.nodes, next) { spec_detach(g, next as usize) } else { g };
        assert forall|m: int| #[trigger] has_node(g1.nodes, m) implies has_node(g.nodes, m) && m != next by {
            if has_node(g.nodes, next) {
                assert(g1.nodes[m] == g.nodes.update(next, None)[m]);
            }
        }
        lemma_detach_range_nodes(g1, next + 1, end);
    }
}

/// `e` is the default input edge of the input it feeds.
pub open spec fn is_default(e: Edge) -> bool {
    e == default_edge(e.inputNode, e.inputIndex as int)
}

/// An edge into an input of a node of `g0` that exists, at an index it has.
pub open spec fn feeds_input_of(g0: GraphModel, e: Edge) -> bool {
    has_node(g0.nodes, e.inputNode as int) && (e.inputIndex as int) < input_kinds(kind_of(g0.nodes, e.inputNode as int)).len()
}

/// One step of removing nodes one by one from a graph that started as `g0`:
/// detaching node `x` keeps the default input edges, drops the edges into `x`,
/// keeps every other edge that does not leave `x` and every default input edge,
/// and puts the default input edge in place of each edge that leaves `x`.
proof fn lemma_detach_step(g0: GraphModel, g: GraphModel, x: usize, lo: int)
    requires
        g0.wf(),
        g.defaults == g0.defaults,
        forall|t: int| 0 <= t < g.edges.len() ==> feeds_input_of(g0, (#[trigger] g.edges[t]).1),
        forall|t: int| 0 <= t < g.edges.len() ==> !(lo <= (#[trigger] g.edges[t]).1.inputNode < x),
    ensures
        spec_detach(g, x).defaults == g0.defaults,
        spec_detach(g, x).nodes == g.nodes.update(x as int, None),
        forall|t: int| 0 <= t < spec_detach(g, x).edges.len() ==> feeds_input_of(g0, (#[trigger] spec_detach(g, x).edges[t]).1),
        forall|t: int| 0 <= t < spec_detach(g, x).edges.len() ==> !(lo <= (#[trigger] spec_detach(g, x).edges[t]).1.inputNode < x + 1),
        forall|e: Edge|
            has_edge(g.edges, e) && e.inputNode != x && (e.outputNode != x || e == default_edge(e.inputNode, e.inputIndex as int))
                ==> #[trigger] has_edge(spec_detach(g, x).edges, e),
        forall|e: Edge|
            #[trigger] has_edge(g.edges, e) && e.inputNode != x && e.outputNode == x ==> has_edge(
                spec_detach(g, x).edges,
                default_edge(e.inputNode, e.inputIndex as int),
            ),
        forall|t: int|
            0 <= t < spec_detach(g, x).edges.len() ==> is_default((#[trigger] spec_detach(g, x).edges[t]).1) || (has_edge(
                g.edges,
                spec_detach(g, x).edges[t].1,
            ) && spec_detach(g, x).edges[t].1.outputNode != x),
{
    let rw = rewire_from(g, x);
    let h = spec_detach(g, x);
    assert(h.edges == rw.filter(not_into(x)));
    assert forall|v: int| 0 <= v < rw.len() implies feeds_input_of(g0, (#[trigger] rw[v]).1)
        && rw[v].1.inputNode == g.edges[v].1.inputNode && (g.edges[v].1.outputNode == x ==> rw[v].1 == default_edge(
        g.edges[v].1.inputNode,
        g.edges[v].1.inputIndex as int,
    )) && (g.edges[v].1.outputNode != x ==> rw[v] == g.edges[v]) by {
        assert(feeds_input_of(g0, g.edges[v].1));
        if g.edges[v].1.outputNode == x {
            lemma_default_of_input(g0, g.edges[v].1);
            assert(default_for(g, g.edges[v].1) == default_for(g0, g.edges[v].1));
        }
    }
    assert forall|t: int| 0 <= t < h.edges.len() implies feeds_input_of(g0, (#[trigger] h.edges[t]).1) && !(lo
        <= h.edges[t].1.inputNode < x + 1) && (is_default(h.edges[t].1) || (has_edge(g.edges, h.edges[t].1)
        && h.edges[t].1.outputNode != x)) by {
        rw.lemma_filter_pred(not_into(x), t);
        assert(h.edges.contains(h.edges[t]));
        rw.lemma_filter_contains_rev(not_into(x), h.edges[t]);
        let v = choose|v: int| 0 <= v < rw.len() && rw[v] == h.edges[t];
        assert(rw[v].1.inputNode == g.edges[v].1.inputNode);
        if g.edges[v].1.outputNode != x {
            lemma_edge_witness(g.edges, h.edges, v, t);
        }
    }
    assert forall|e: Edge|
        has_edge(g.edges, e) && e.inputNode != x && (e.outputNode != x || e == default_edge(e.inputNode, e.inputIndex as int))
            implies #[trigger] has_edge(h.edges, e) by {
        let v = choose|v: int| 0 <= v < g.edges.len() && #[trigger] g.edges[v].1 == e;
        assert(rw[v].1 == e);
        rw.lemma_filter_contains(not_into(x), v);
        let t = choose|t: int| 0 <= t < h.edges.len() && h.edges[t] == rw[v];
        lemma_edge_witness(h.edges, h.edges, t, t);
    }
    assert forall|e: Edge|
        #[trigger] has_edge(g.edges, e) && e.inputNode != x && e.outputNode == x implies has_edge(
            h.edges,
            default_edge(e.inputNode, e.inputIndex as int),
        ) by {
        let v = choose|v: int| 0 <= v < g.edges.len() && #[trigger] g.edges[v].1 == e;
        assert(rw[v].1 == default_edge(e.inputNode, e.inputIndex as int));
        rw.lemma_filter_contains(not_into(x), v);
        let t = choose|t: int| 0 <= t < h.edges.len() && h.edges[t] == rw[v];
        lemma_edge_witness(h.edges, h.edges, t, t);
    }
}

/// Removing in turn the nodes from `next` up to `end` (those that exist) from a graph
/// that started as `g0`: the default input edges stay as they were, no edge enters a
/// node of the range, only the nodes of the range are gone, and every edge that
/// neither enters a node of the range nor leaves one, and every default input edge
/// that does not enter one, stays.
proof fn lemma_detach_range_edges(g0: GraphModel, g: GraphModel, lo: int, next: int, end: int)
    requires
        g0.wf(),
        g.defaults == g0.defaults,
        0 <= lo <= next,
        g.nodes.len() == g0.nodes.len(),
        forall|m: int| 0 <= m < g.nodes.len() && !(lo <= m < next) ==> #[trigger] g.nodes[m] == g0.nodes[m],
        forall|t: int| 0 <= t < g.edges.len() ==> feeds_input_of(g0, (#[trigger] g.edges[t]).1),
        forall|t: int| 0 <= t < g.edges.len() ==> !(lo <= (#[trigger] g.edges[t]).1.inputNode < next),
        forall|t: int|
            0 <= t < g.edges.len() && (lo <= (#[trigger] g.edges[t]).1.outputNode < next || !has_node(
                g0.nodes,
                g.edges[t].1.outputNode as int,
            )) ==> is_default(g.edges[t].1),
    ensures
        forall|t: int|
            0 <= t < detach_range(g, next, end).edges.len() && (lo <= (#[trigger] detach_range(
                g,
                next,
                end,
            ).edges[t]).1.outputNode < end || !has_node(g0.nodes, detach_range(g, next, end).edges[t].1.outputNode as int))
                ==> is_default(detach_range(g, next, end).edges[t].1),
        forall|t: int|
            0 <= t < detach_range(g, next, end).edges.len() ==> feeds_input_of(g0, (#[trigger] detach_range(g, next, end).edges[t]).1),
        detach_range(g, next, end).defaults == g0.defaults,
        detach_range(g, next, end).nodes.len() == g.nodes.len(),
        forall|m: int|
            0 <= m < g.nodes.len() && !(next <= m < end) ==> #[trigger] detach_range(g, next, end).nodes[m] == g.nodes[m],
        forall|m: int| next <= m < end ==> !#[trigger] has_node(detach_range(g, next, end).nodes, m),
        forall|t: int|
            0 <= t < detach_range(g, next, end).edges.len() ==> !(lo <= (#[trigger] detach_range(g, next, end).edges[t]).1.inputNode < end),
        forall|e: Edge|
            has_edge(g.edges, e) && !(next <= e.inputNode < end) && (!(next <= e.outputNode < end) || e == default_edge(
                e.inputNode,
                e.inputIndex as int,
            )) ==> #[trigger] has_edge(detach_range(g, next, end).edges, e),
    decreases end - next,
{
    if next < end {
        let x = next as usize;
        let g1 = if has_node(g.nodes, next) { spec_detach(g, x) } else { g };
        if has_node(g.nodes, next) {
            lemma_detach_step(g0, g, x, lo);
            assert forall|t: int|
                0 <= t < g1.edges.len() && (lo <= (#[trigger] g1.edges[t]).1.outputNode < next + 1 || !has_node(
                    g0.nodes,
                    g1.edges[t].1.outputNode as int,
                )) implies is_default(g1.edges[t].1) by {
                if !is_default(g1.edges[t].1) {
                    let v = choose|v: int| 0 <= v < g.edges.len() && #[trigger] g.edges[v].1 == g1.edges[t].1;
                }
            }
        } else {
            assert forall|t: int|
                0 <= t < g1.edges.len() && (lo <= (#[trigger] g1.edges[t]).1.outputNode < next + 1 || !has_node(
                    g0.nodes,
                    g1.edges[t].1.outputNode as int,
                )) implies is_default(g1.edges[t].1) by {
                if g.edges[t].1.outputNode == next && next < g.nodes.len() {
                    assert(g.nodes[next] == g0.nodes[next]);
                }
            }
            assert forall|t: int| 0 <= t < g.edges.len() implies !(lo <= (#[trigger] g.edges[t]).1.inputNode < next + 1) by {
                assert(feeds_input_of(g0, g.edges[t].1));
                if g.edges[t].1.inputNode == next {
                    assert(g.nodes[next] == g0.nodes[next]);
                }
            }
        }
        assert forall|m: int| 0 <= m < g1.nodes.len() && !(lo <= m < next + 1) implies #[trigger] g1.nodes[m] == g0.nodes[m] by {
            assert(g.nodes[m] == g0.nodes[m]);
        }
        lemma_detach_range_edges(g0, g1, lo, next + 1, end);
        let h = detach_range(g, next, end);
        assert(h == detach_range(g1, next + 1, end));
        assert forall|m: int| 0 <= m < g.nodes.len() && !(next <= m < end) implies #[trigger] h.nodes[m] == g.nodes[m] by {
            assert(g1.nodes[m] == g.nodes[m]);
        }
        assert forall|m: int| next <= m < end implies !#[trigger] has_node(h.nodes, m) by {
            if m == next && m < g1.nodes.len() {
                assert(h.nodes[m] == g1.nodes[m]);
            }
        }
    }
}

/// Removing a node removes it and the literal nodes that supplied its inputs'
/// defaults, and keeps the command history.
pub proof fn law_remove_node(g: GraphModel, index: usize, recalculate: bool)
    requires
        g.wf(),
        has_node(g.nodes, index as int),
    ensures
        spec_remove_node(g, index, recalculate).1 == Ok::<(), GraphError>(()),
        !has_node(spec_remove_node(g, index, recalculate).0.nodes, index as int),
        forall|m: int|
            index < m <= index + input_kinds(kind_of(g.nodes, index as int)).len() ==> !#[trigger] has_node(
                spec_remove_node(g, index, recalculate).0.nodes,
                m,
            ),
        spec_remove_node(g, index, recalculate).0.history == g.history,
{
    let k = input_kinds(kind_of(g.nodes, index as int)).len();
    assert(crate::graph::defaults_ok(g, index as int));
    let g1 = spec_detach(g, index);
    assert(!has_node(g1.nodes, index as int));
    lemma_detach_range_nodes(g1, index + 1, index + k + 1);
}

/// Removing node `index` removes exactly it and the literal nodes that supplied its
/// inputs' defaults (the identifiers `index` to `index + k`, for its `k` inputs);
/// afterwards no edge enters one of them, every edge that neither entered nor left
/// one of them stays, and each input that node `index` fed is fed by its default
/// input edge again. When `index` is a node added with its literal nodes (not
/// itself such a literal node), no edge leaves one of the removed nodes either.
pub proof fn law_remove_node_edges(g: GraphModel, index: usize, recalculate: bool)
    requires
        g.wf(),
        has_node(g.nodes, index as int),
    ensures
        ({
            let k = input_kinds(kind_of(g.nodes, index as int)).len();
            let out = spec_remove_node(g, index, recalculate).0;
            &&& forall|m: int| #[trigger] has_node(out.nodes, m) <==> (has_node(g.nodes, m) && !(index <= m <= index + k))
            &&& forall|t: int| 0 <= t < out.edges.len() ==> !(index <= (#[trigger] out.edges[t]).1.inputNode <= index + k)
            &&& g.defaults[index as int] is Some ==> forall|t: int|
                0 <= t < out.edges.len() ==> !(index <= (#[trigger] out.edges[t]).1.outputNode <= index + k)
            &&& forall|e: Edge|
                has_edge(g.edges, e) && !(index <= e.inputNode <= index + k) && !(index <= e.outputNode <= index + k)
                    ==> #[trigger] has_edge(out.edges, e)
            &&& forall|e: Edge|
                #[trigger] has_edge(g.edges, e) && e.outputNode == index && !(index <= e.inputNode <= index + k)
                    ==> has_edge(out.edges, default_edge(e.inputNode, e.inputIndex as int))
        }),
{
    let k = input_kinds(kind_of(g.nodes, index as int)).len();
    let end = index + k + 1;
    assert(crate::graph::defaults_ok(g, index as int));
    assert forall|t: int| 0 <= t < g.edges.len() implies feeds_input_of(g, (#[trigger] g.edges[t]).1) by {
        assert(edge_ok(g, g.edges[t].1));
    }
    lemma_detach_step(g, g, index, index as int);
    let g1 = spec_detach(g, index);
    assert forall|m: int| 0 <= m < g1.nodes.len() && !(index <= m < index + 1) implies #[trigger] g1.nodes[m] == g.nodes[m] by {}
    lemma_detach_range_edges(g, g1, index as int, index + 1, end);
    let g2 = detach_range(g1, index + 1, end);
    let out = spec_remove_node(g, index, recalculate).0;
    assert(out.nodes == g2.nodes);
    assert(out.edges.len() == g2.edges.len());
    assert(forall|t: int| 0 <= t < out.edges.len() ==> (#[trigger] out.edges[t]).1 == g2.edges[t].1);
    assert forall|m: int| #[trigger] has_node(out.nodes, m) <==> (has_node(g.nodes, m) && !(index <= m <= index + k)) by {
        if 0 <= m < g.nodes.len() && !(index <= m <= index + k) {
            assert(g2.nodes[m] == g1.nodes[m]);
            assert(g1.nodes[m] == g.nodes[m]);
        }
        if m == index && m < g1.nodes.len() {
            assert(g2.nodes[m] == g1.nodes[m]);
        }
    }
    assert forall|t: int| 0 <= t < out.edges.len() implies !(index <= (#[trigger] out.edges[t]).1.inputNode <= index + k) by {
        assert(out.edges[t].1 == g2.edges[t].1);
    }
    if g.defaults[index as int] is Some {
        assert forall|t: int| 0 <= t < out.edges.len() implies !(index <= (#[trigger] out.edges[t]).1.outputNode <= index + k) by {
            let e = g2.edges[t].1;
            assert(out.edges[t].1 == e);
            if index <= e.outputNode <= index + k {
                assert(is_default(e));
                assert(feeds_input_of(g, e));
                let n = e.inputNode as int;
                lemma_default_of_input(g, e);
                assert(crate::graph::defaults_ok(g, n));
                if n < index {
                    assert(g.defaults[n] is Some);
                    if index <= n + g.defaults[n]->Some_0.len() {
                        assert(g.defaults[index as int] is None);
                    }
                } else {
                    assert(n > index + k);
                }
            }
        }
    }
    assert forall|e: Edge| #[trigger] has_edge(g2.edges, e) implies has_edge(out.edges, e) by {
        let t = choose|t: int| 0 <= t < g2.edges.len() && #[trigger] g2.edges[t].1 == e;
        lemma_edge_witness(out.edges, g2.edges, t, t);
    }
    assert forall|e: Edge|
        has_edge(g.edges, e) && !(index <= e.inputNode <= index + k) && !(index <= e.outputNode <= index + k)
            implies #[trigger] has_edge(out.edges, e) by {
        assert(has_edge(g1.edges, e));
        assert(has_edge(g2.edges, e));
    }
    assert forall|e: Edge|
        #[trigger] has_edge(g.edges, e) && e.outputNode == index && !(index <= e.inputNode <= index + k)
            implies has_edge(out.edges, default_edge(e.inputNode, e.inputIndex as int)) by {
        let d = default_edge(e.inputNode, e.inputIndex as int);
        assert(has_edge(g1.edges, d));
        assert(d == default_edge(d.inputNode, d.inputIndex as int));
        assert(has_edge(g2.edges, d));
    }
}

/// No edge of a graph enters a node that does not exist (such as a removed one).
pub proof fn law_no_edge_enters_missing_node(g: GraphModel, i: int)
    requires
        g.wf(),
        0 <= i < g.edges.len(),
    ensures
        has_node(g.nodes, g.edges[i].1.inputNode as int),
{
    assert(edge_ok(g, g.edges[i].1));
}

// ---------------------------------------------------------------------------
// Command history
// ---------------------------------------------------------------------------

/// No single command changes the history.
proof fn lemma_command_keeps_history(g: GraphModel, c: CommandView)
    requires
        g.nodes.len() == g.id_count,
        g.id_count <= usize::MAX,
    ensures
        match spec_command(g, c) {
            Some((g2, _)) => g2.history == g.history && g2.nodes.len() == g2.id_count && g2.id_count <= usize::MAX,
            None => true,
        },
{
    if c.name == "removeNode"@ {
        if c.args.len() > 0 {
            match crate::text::parse_unsigned(c.args[0], usize::MAX as nat) {
                Some(n) => {
                    if has_node(g.nodes, n as int) {
                        let k = input_kinds(kind_of(g.nodes, n as int)).len();
                        let g1 = spec_detach(g, n as usize);
                        assert(g1.nodes.len() == g1.id_count);
                        lemma_detach_range_nodes(g1, (n + 1) as int, (n + k + 1) as int);
                    }
                },
                None => {},
            }
        }
    }
}

/// A batch of commands that fails, or stops at a command that cannot be carried
/// out, leaves the history as it was; one that succeeds appends exactly its
/// commands to it.
pub proof fn law_history(g: GraphModel, cs: Seq<CommandView>)
    requires
        g.wf(),
    ensures
        spec_execute_commands(g, cs).1 == Some(Ok::<(), GraphError>(())) ==> spec_execute_commands(g, cs).0.history
            == g.history + cs,
        spec_execute_commands(g, cs).1 != Some(Ok::<(), GraphError>(())) ==> spec_execute_commands(g, cs).0.history
            == g.history,
{
    lemma_run_keeps_history(g, cs);
}

proof fn lemma_run_keeps_history(g: GraphModel, cs: Seq<CommandView>)
    requires
        g.nodes.len() == g.id_count,
        g.id_count <= usize::MAX,
    ensures
        spec_run(g, cs).0.history == g.history,
    decreases cs.len(),
{
    if cs.len() > 0 {
        lemma_command_keeps_history(g, cs[0]);
        match spec_command(g, cs[0]) {
            Some((g1, Ok(_))) => {
                lemma_run_keeps_history(g1, cs.drop_first());
            },
            _ => {},
        }
    }
}


/// The edge that `addEdge` and `removeEdge` name: the output node from the first
/// argument, the output index from the second, the input node from the third and
/// the input index from the fourth, each read as an unsigned number of its field's
/// type.
pub proof fn law_edge_args(args: Seq<Seq<char>>, e: Edge)
    ensures
        parse_edge_args(args) == Some(e) <==> (args.len() >= 4 && parse_unsigned(args[0], usize::MAX as nat) == Some(
            e.outputNode as nat,
        ) && parse_unsigned(args[1], u16::MAX as nat) == Some(e.outputIndex as nat) && parse_unsigned(
            args[2],
            usize::MAX as nat,
        ) == Some(e.inputNode as nat) && parse_unsigned(args[3], u16::MAX as nat) == Some(e.inputIndex as nat)),
{
}

/// A batch holding one `addEdge` command whose four arguments read as the output
/// node, output index, input node and input index of `e` does what `add_edge(e)`
/// does; when that succeeds, the command is appended to the history.
pub proof fn law_add_edge_command_args(g: GraphModel, c: CommandView, e: Edge)
    requires
        g.wf(),
        c.name == "addEdge"@,
        c.args.len() >= 4,
        parse_unsigned(c.args[0], usize::MAX as nat) == Some(e.outputNode as nat),
        parse_unsigned(c.args[1], u16::MAX as nat) == Some(e.outputIndex as nat),
        parse_unsigned(c.args[2], usize::MAX as nat) == Some(e.inputNode as nat),
        parse_unsigned(c.args[3], u16::MAX as nat) == Some(e.inputIndex as nat),
        !add_edge_panics(g, e),
    ensures
        spec_execute_commands(g, seq![c]).1 == Some(spec_add_edge(g, e).1),
        spec_execute_commands(g, seq![c]).0 == (if spec_add_edge(g, e).1 is Ok {
            GraphModel { history: g.history.push(c), ..spec_add_edge(g, e).0 }
        } else {
            spec_add_edge(g, e).0
        }),
{
    law_edge_args(c.args, e);
    law_add_edge_command(g, c, e);
}

/// A batch holding one `removeEdge` command whose four arguments read as the output
/// node, output index, input node and input index of `e` does what
/// `remove_edge_and_replace_with_default(e, true)` does; when that succeeds, the
/// command is appended to the history.
pub proof fn law_remove_edge_command_args(g: GraphModel, c: CommandView, e: Edge)
    requires
        c.name == "removeEdge"@,
        c.args.len() >= 4,
        parse_unsigned(c.args[0], usize::MAX as nat) == Some(e.outputNode as nat),
        parse_unsigned(c.args[1], u16::MAX as nat) == Some(e.outputIndex as nat),
        parse_unsigned(c.args[2], usize::MAX as nat) == Some(e.inputNode as nat),
        parse_unsigned(c.args[3], u16::MAX as nat) == Some(e.inputIndex as nat),
    ensures
        spec_execute_commands(g, seq![c]).1 == Some(spec_remove_edge(g, e, true).1),
        spec_execute_commands(g, seq![c]).0 == (if spec_remove_edge(g, e, true).1 is Ok {
            GraphModel { history: g.history.push(c), ..spec_remove_edge(g, e, true).0 }
        } else {
            spec_remove_edge(g, e, true).0
        }),
{
    law_edge_args(c.args, e);
    law_remove_edge_command(g, c, e);
}

/// A batch holding one `addEdge` command whose arguments name the edge `e` does
/// what `add_edge(e)` does; when that succeeds, the command is appended to the
/// history.
pub proof fn law_add_edge_command(g: GraphModel, c: CommandView, e: Edge)
    requires
        g.wf(),
        c.name == "addEdge"@,
        parse_edge_args(c.args) == Some(e),
        !add_edge_panics(g, e),
    ensures
        spec_execute_commands(g, seq![c]).1 == Some(spec_add_edge(g, e).1),
        spec_execute_commands(g, seq![c]).0 == (if spec_add_edge(g, e).1 is Ok {
            GraphModel { history: g.history.push(c), ..spec_add_edge(g, e).0 }
        } else {
            spec_add_edge(g, e).0
        }),
{
    reveal_strlit("addEdge");
    reveal_strlit("removeEdge");
    assert(c.name != "removeEdge"@) by {
        assert(c.name[0] != "removeEdge"@[0]);
    }
    let cs = seq![c];
    assert(spec_command(g, c) == Some(spec_add_edge(g, e)));
    assert(cs.drop_first() =~= Seq::<CommandView>::empty());
    assert(spec_run(spec_add_edge(g, e).0, Seq::<CommandView>::empty()) == (spec_add_edge(g, e).0, Some(Ok::<(), GraphError>(()))));
    assert(g.history + cs =~= g.history.push(c));
    assert(spec_run(g, cs) == (spec_add_edge(g, e).0, Some(spec_add_edge(g, e).1)));
}

/// A batch holding one `removeEdge` command whose arguments name the edge `e` does
/// what `remove_edge_and_replace_with_default(e, true)` does; when that succeeds,
/// the command is appended to the history.
pub proof fn law_remove_edge_command(g: GraphModel, c: CommandView, e: Edge)
    requires
        c.name == "removeEdge"@,
        parse_edge_args(c.args) == Some(e),
    ensures
        spec_execute_commands(g, seq![c]).1 == Some(spec_remove_edge(g, e, true).1),
        spec_execute_commands(g, seq![c]).0 == (if spec_remove_edge(g, e, true).1 is Ok {
            GraphModel { history: g.history.push(c), ..spec_remove_edge(g, e, true).0 }
        } else {
            spec_remove_edge(g, e, true).0
        }),
{
    let cs = seq![c];
    assert(spec_command(g, c) == Some(spec_remove_edge(g, e, true)));
    assert(cs.drop_first() =~= Seq::<CommandView>::empty());
    assert(spec_run(spec_remove_edge(g, e, true).0, Seq::<CommandView>::empty()) == (spec_remove_edge(g, e, true).0, Some(Ok::<(), GraphError>(()))));
    assert(g.history + cs =~= g.history.push(c));
    assert(spec_run(g, cs) == (spec_remove_edge(g, e, true).0, Some(spec_remove_edge(g, e, true).1)));
}


// ---------------------------------------------------------------------------
// Processing order
// ---------------------------------------------------------------------------

/// An edge leads to a node whose longest walk is longer than that of the node it
/// comes from.
proof fn lemma_arc_deeper(es: Seq<(usize, Edge)>, b: int)
    requires
        acyclic(es),
        0 <= b < es.len(),
    ensures
        depth(es, es[b].1.inputNode) > depth(es, es[b].1.outputNode),
{
    let q = es[b].1;
    lemma_depth_exists(es, q.outputNode);
    lemma_depth_exists(es, q.inputNode);
    let d = depth(es, q.outputNode);
    let w = choose|w: Seq<usize>| #[trigger] is_walk(es, w) && w.len() == d + 1 && w[w.len() - 1] == q.outputNode;
    assert(arc(es, q.outputNode, q.inputNode)) by {
        assert(es[b].1.outputNode == q.outputNode);
    }
    lemma_arc_walk(es, q.outputNode, q.inputNode);
    lemma_join(es, w, seq![q.outputNode, q.inputNode]);
    let w2 = w + seq![q.outputNode, q.inputNode].subrange(1, 2);
    assert(walk_between(es, w2, w[0], q.inputNode));
    assert(is_walk(es, w2) && w2.len() == (d + 1) + 1 && w2[w2.len() - 1] == q.inputNode);
    assert(walk_into(es, q.inputNode, d + 1));
}

/// Once layers are recomputed, the edges of layer `m` are edges of the list that
/// leave nodes whose longest walk has `m` edges.
proof fn lemma_at_layer_depths(es: Seq<(usize, Edge)>, m: int, p: int)
    requires
        acyclic(es),
        es.len() < usize::MAX,
        0 <= p < at_layer(relayer(es), m).len(),
    ensures
        depth(es, at_layer(relayer(es), m)[p].outputNode) == m,
        has_edge(es, at_layer(relayer(es), m)[p]),
{
    let rs = relayer(es);
    let f = rs.filter(on_layer(m));
    assert(at_layer(rs, m)[p] == f[p].1);
    rs.lemma_filter_pred(on_layer(m), p);
    assert(f.contains(f[p]));
    rs.lemma_filter_contains_rev(on_layer(m), f[p]);
    let t = choose|t: int| 0 <= t < rs.len() && rs[t] == f[p];
    lemma_depth_exists(es, es[t].1.outputNode);
    assert(rs[t].1 == es[t].1);
    lemma_edge_witness(es, es, t, t);
}

/// The processing order from layer `k` on holds edges of the list, leaving nodes
/// whose longest walks have at least `k` edges, with those lengths never
/// decreasing along the order.
proof fn lemma_layers_from_sorted(es: Seq<(usize, Edge)>, k: int, budget: nat)
    requires
        acyclic(es),
        es.len() < usize::MAX,
    ensures
        forall|p: int|
            0 <= p < layers_from(relayer(es), k, budget).len() ==> depth(
                es,
                (#[trigger] layers_from(relayer(es), k, budget)[p]).outputNode,
            ) >= k && has_edge(es, layers_from(relayer(es), k, budget)[p]),
        forall|p: int, q: int|
            0 <= p <= q < layers_from(relayer(es), k, budget).len() ==> depth(
                es,
                (#[trigger] layers_from(relayer(es), k, budget)[p]).outputNode,
            ) <= depth(es, (#[trigger] layers_from(relayer(es), k, budget)[q]).outputNode),
    decreases budget,
{
    let rs = relayer(es);
    let s = layers_from(rs, k, budget);
    if budget == 0 || at_layer(rs, k).len() == 0 {
    } else {
        let a = at_layer(rs, k);
        let rest = layers_from(rs, k + 1, (budget - 1) as nat);
        lemma_layers_from_sorted(es, k + 1, (budget - 1) as nat);
        assert(s == a + rest);
        assert forall|p: int| 0 <= p < s.len() implies depth(es, (#[trigger] s[p]).outputNode) >= k && has_edge(es, s[p]) by {
            if p < a.len() {
                lemma_at_layer_depths(es, k, p);
                assert(s[p] == a[p]);
            } else {
                assert(s[p] == rest[p - a.len()]);
            }
        }
        assert forall|p: int, q: int|
            0 <= p <= q < s.len() implies depth(es, (#[trigger] s[p]).outputNode) <= depth(es, (#[trigger] s[q]).outputNode) by {
            if q < a.len() {
                lemma_at_layer_depths(es, k, p);
                lemma_at_layer_depths(es, k, q);
                assert(s[p] == a[p] && s[q] == a[q]);
            } else if p < a.len() {
                lemma_at_layer_depths(es, k, p);
                assert(s[p] == a[p]);
                assert(s[q] == rest[q - a.len()]);
            } else {
                assert(s[p] == rest[p - a.len()]);
                assert(s[q] == rest[q - a.len()]);
            }
        }
    }
}

/// Once layers are recomputed, processing passes a value along an edge into a
/// node only before it passes any value along an edge out of that node: in the
/// processing order, an edge that feeds the node another edge leaves comes first.
pub proof fn law_schedule_respects_dependencies(es: Seq<(usize, Edge)>, p: int, q: int)
    requires
        acyclic(es),
        es.len() < usize::MAX,
        0 <= p < spec_schedule(relayer(es)).len(),
        0 <= q < spec_schedule(relayer(es)).len(),
        spec_schedule(relayer(es))[q].inputNode == spec_schedule(relayer(es))[p].outputNode,
    ensures
        q < p,
{
    let s = spec_schedule(relayer(es));
    lemma_layers_from_sorted(es, 0, (es.len() + 1) as nat);
    assert(s == layers_from(relayer(es), 0, (es.len() + 1) as nat));
    assert(has_edge(es, s[q]));
    let u = choose|u: int| 0 <= u < es.len() && #[trigger] es[u].1 == s[q];
    lemma_arc_deeper(es, u);
    if q >= p {
        assert(depth(es, s[p].outputNode) <= depth(es, s[q].outputNode));
    }
}

/// `x` occurs among the edges of layer `layer`.
proof fn lemma_at_layer_contains(es: Seq<(usize, Edge)>, t: int)
    requires
        0 <= t < es.len(),
    ensures
        at_layer(es, es[t].0 as int).contains(es[t].1),
        at_layer(es, es[t].0 as int).len() > 0,
{
    let layer = es[t].0 as int;
    es.lemma_filter_contains(on_layer(layer), t);
    let f = es.filter(on_layer(layer));
    let u = choose|u: int| 0 <= u < f.len() && f[u] == es[t];
    assert(at_layer(es, layer)[u] == es[t].1);
}

/// The layers from `k` to `last` are all held by some edge, so the processing
/// order from layer `k` on reaches every edge of layer `last`.
proof fn lemma_layers_from_contains(es: Seq<(usize, Edge)>, k: int, budget: nat, last: int, x: Edge)
    requires
        k <= last,
        budget > last - k,
        forall|m: int| k <= m <= last ==> #[trigger] at_layer(es, m).len() > 0,
        at_layer(es, last).contains(x),
    ensures
        layers_from(es, k, budget).contains(x),
    decreases last - k,
{
    let here = at_layer(es, k);
    if k == last {
        let u = choose|u: int| 0 <= u < here.len() && here[u] == x;
        assert((here + layers_from(es, k + 1, (budget - 1) as nat))[u] == x);
    } else {
        lemma_layers_from_contains(es, k + 1, (budget - 1) as nat, last, x);
        let rest = layers_from(es, k + 1, (budget - 1) as nat);
        let u = choose|u: int| 0 <= u < rest.len() && rest[u] == x;
        assert((here + rest)[here.len() + u] == x);
    }
}

/// Once layers are recomputed, processing reaches every edge: each edge appears in
/// the processing order.
pub proof fn law_schedule_covers_edges(es: Seq<(usize, Edge)>, a: int)
    requires
        acyclic(es),
        es.len() < usize::MAX,
        0 <= a < es.len(),
    ensures
        spec_schedule(relayer(es)).contains(es[a].1),
{
    let rs = relayer(es);
    let p = es[a].1;
    lemma_depth_exists(es, p.outputNode);
    let top = depth(es, p.outputNode) as int;
    let w = choose|w: Seq<usize>| #[trigger] is_walk(es, w) && w.len() == top + 1 && w[w.len() - 1] == p.outputNode;
    assert forall|m: int| 0 <= m <= top implies #[trigger] at_layer(rs, m).len() > 0 by {
        if m == top {
            lemma_at_layer_contains(rs, a);
        } else {
            assert(step_ok(es, w, m));
            let u = choose|u: int| 0 <= u < es.len() && #[trigger] es[u].1.outputNode == w[m] && es[u].1.inputNode == w[m + 1];
            lemma_depth_exists(es, w[m]);
            let dm = depth(es, w[m]);
            lemma_subwalk(es, w, 0, m);
            let pre = w.subrange(0, m + 1);
            assert(is_walk(es, pre) && pre.len() == m + 1 && pre[pre.len() - 1] == w[m]);
            assert(walk_into(es, w[m], m as nat));
            assert(dm >= m);
            if dm > m {
                let v = choose|v: Seq<usize>| #[trigger] is_walk(es, v) && v.len() == dm + 1 && v[v.len() - 1] == w[m];
                lemma_subwalk(es, w, m, top);
                let post = w.subrange(m, top + 1);
                lemma_join(es, v, post);
                let joined = v + post.subrange(1, post.len() as int);
                assert(is_walk(es, joined) && joined.len() == (dm + top - m) + 1 && joined[joined.len() - 1] == p.outputNode);
                assert(walk_into(es, p.outputNode, (dm + top - m) as nat));
            }
            assert(rs[u].0 == m);
            lemma_at_layer_contains(rs, u);
        }
    }
    lemma_at_layer_contains(rs, a);
    assert(rs[a].1 == p);
    lemma_layers_from_contains(rs, 0, (rs.len() + 1) as nat, top, p);
}

} // verus!
