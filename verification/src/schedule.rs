use vstd::prelude::*;
use vstd::set_lib::*;

use crate::edge::Edge;
use crate::graph::Graph;

verus! {

/// Holds of the edges whose layer is `layer`.
pub open spec fn on_layer(layer: int) -> spec_fn((usize, Edge)) -> bool {
    |p: (usize, Edge)| p.0 == layer
}

/// The edges of `es` whose layer is `layer`, in list order.
pub open spec fn at_layer(es: Seq<(usize, Edge)>, layer: int) -> Seq<Edge> {
    es.filter(on_layer(layer)).map_values(|p: (usize, Edge)| p.1)
}

/// The edges layer by layer from `layer` on, stopping at the first layer that no
/// edge has (or after `budget` layers).
pub open spec fn layers_from(es: Seq<(usize, Edge)>, layer: int, budget: nat) -> Seq<Edge>
    decreases budget,
{
    if budget == 0 || at_layer(es, layer).len() == 0 {
        Seq::empty()
    } else {
        at_layer(es, layer) + layers_from(es, layer + 1, (budget - 1) as nat)
    }
}

/// The order in which values are passed along the edges of a graph: all edges of
/// layer 0 in list order, then those of layer 1, and so on up to the first layer
/// that no edge has. (No list has more non-empty layers than edges.)
pub open spec fn spec_schedule(es: Seq<(usize, Edge)>) -> Seq<Edge> {
    layers_from(es, 0, es.len() + 1)
}

/// Some edge of `es` has layer `k`.
pub open spec fn layer_held(es: Seq<(usize, Edge)>, k: int) -> bool {
    exists|i: int| 0 <= i < es.len() && #[trigger] es[i].0 == k
}

/// Layers `0 .. m` each held by some edge are at most as many as the edges.
proof fn lemma_layers_bound(es: Seq<(usize, Edge)>, m: int)
    requires
        0 <= m,
        forall|k: int| 0 <= k < m ==> #[trigger] layer_held(es, k),
    ensures
        m <= es.len(),
{
    let idx = set_int_range(0, es.len() as int);
    let f = |i: int| es[i].0 as int;
    let layers = idx.map(f);
    lemma_int_range(0, es.len() as int);
    lemma_map_size_bound(idx, layers, f);
    let wanted = set_int_range(0, m);
    lemma_int_range(0, m);
    assert forall|k: int| wanted.contains(k) implies layers.contains(k) by {
        assert(layer_held(es, k));
        let i = choose|i: int| 0 <= i < es.len() && #[trigger] es[i].0 == k;
        assert(idx.contains(i));
        assert(f(i) == k);
    }
    assert(wanted.subset_of(layers));
    lemma_len_subset(wanted, layers);
}

/// The edges of layer `layer` among the first `i` edges.
fn collect_layer(es: &Vec<(usize, Edge)>, layer: usize, out: &mut Vec<Edge>) -> (found: bool)
    ensures
        final(out)@ == old(out)@ + at_layer(es@, layer as int),
        found == (at_layer(es@, layer as int).len() > 0),
        found ==> layer_held(es@, layer as int),
{
    let ghost start = out@;
    let mut found = false;
    let mut i: usize = 0;
    proof {
        reveal(Seq::filter);
        assert(es@.take(0) =~= Seq::<(usize, Edge)>::empty());
        assert(at_layer(es@.take(0), layer as int) =~= Seq::<Edge>::empty());
    }
    while i < es.len()
        invariant
            i <= es@.len(),
            out@ == start + at_layer(es@.take(i as int), layer as int),
            found == (at_layer(es@.take(i as int), layer as int).len() > 0),
            found ==> layer_held(es@, layer as int),
        decreases es@.len() - i,
    {
        let ghost pre = es@.take(i as int);
        proof {
            assert(es@.take(i + 1) =~= pre.push(es@[i as int]));
            pre.lemma_filter_push(es@[i as int], on_layer(layer as int));
        }
        if es[i].0 == layer {
            out.push(es[i].1);
            found = true;
            proof {
                assert(pre.push(es@[i as int]).filter(on_layer(layer as int)) == pre.filter(on_layer(layer as int)).push(es@[i as int]));
                assert(at_layer(es@.take(i + 1), layer as int) =~= at_layer(pre, layer as int).push(es@[i as int].1));
                assert(out@ =~= start + at_layer(es@.take(i + 1), layer as int));
            }
        } else {
            proof {
                assert(at_layer(es@.take(i + 1), layer as int) =~= at_layer(pre, layer as int));
            }
        }
        i += 1;
    }
    proof {
        assert(es@.take(es@.len() as int) =~= es@);
    }
    found
}

impl Graph {
    /// The edges in the order in which values are passed along them when the graph
    /// is processed: layer by layer, each layer in list order.
    pub fn process_order(&self) -> (r: Vec<Edge>)
        ensures
            r@ == spec_schedule(self@.edges),
    {
        let es = self.edges();
        let count = es.len();
        let ghost n = es@.len();
        let mut out: Vec<Edge> = Vec::new();
        let mut layer: usize = 0;
        let mut includes = true;
        while includes
            invariant
                es@ == self@.edges,
                n == es@.len(),
                n == count,
                layer <= n + 1,
                forall|k: int| 0 <= k < layer ==> #[trigger] layer_held(es@, k),
                includes ==> out@ + layers_from(es@, layer as int, (n + 1 - layer) as nat) == spec_schedule(es@),
                !includes ==> out@ == spec_schedule(es@),
            decreases n + 1 - layer + (if includes { 1int } else { 0int }),
        {
            proof {
                lemma_layers_bound(es@, layer as int);
            }
            let ghost before = out@;
            includes = collect_layer(es, layer, &mut out);
            proof {
                let rest = layers_from(es@, layer as int, (n + 1 - layer) as nat);
                if includes {
                    assert(n + 1 - layer > 0);
                    assert(rest == at_layer(es@, layer as int) + layers_from(es@, layer + 1, (n + 1 - (layer + 1)) as nat));
                    assert(out@ + layers_from(es@, layer + 1, (n + 1 - (layer + 1)) as nat) =~= before + rest);
                } else {
                    assert(rest =~= Seq::<Edge>::empty());
                    assert(out@ =~= before + rest);
                }
            }
            if includes {
                proof {
                    assert forall|k: int| 0 <= k < layer + 1 implies #[trigger] layer_held(es@, k) by {
                        if k < layer {
                            assert(layer_held(es@, k));
                        }
                    }
                    lemma_layers_bound(es@, layer + 1);
                }
                layer += 1;
            }
        }
        out
    }
}

} // verus!
