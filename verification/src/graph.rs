use vstd::prelude::*;

use crate::edge::{same_slot, Edge};
use crate::node::{input_kinds, io_kind, is_literal, output_kinds, spec_inputs, spec_outputs, IOValue, NodeIOType, NodeKind};
use crate::nodes::{literal_view, FinalNode, Node, NodeView};
use crate::walk::{
    edges_among, edges_from, has_edge, lemma_add_edge_acyclic, lemma_edges_among_acyclic,
    lemma_edges_among_arcs, lemma_unentered_source_acyclic,
    acyclic, arc, arcs_within, depth, is_depth, is_walk, lemma_depth_unique, lemma_never_entered,
    lemma_reach_within, longest_walk_into, reach, reaches, step_ok, walk_between,
};

verus! {

/// A command sent by the editor: its name and its arguments.
#[derive(Debug)]
pub struct Command {
    pub name: String,
    pub args: Vec<String>,
}

/// The mathematical value of a command.
pub struct CommandView {
    pub name: Seq<char>,
    pub args: Seq<Seq<char>>,
}

impl View for Command {
    type V = CommandView;

    open spec fn view(&self) -> CommandView {
        CommandView { name: self.name@, args: self.args@.map_values(|s: String| s@) }
    }
}

impl Command {
    pub fn duplicate(&self) -> (r: Command)
        ensures
            r@ == self@,
    {
        let mut args: Vec<String> = Vec::new();
        let mut i: usize = 0;
        while i < self.args.len()
            invariant
                i <= self.args@.len(),
                args@.len() == i,
                forall|j: int| 0 <= j < i ==> #[trigger] args@[j]@ == self.args@[j]@,
            decreases self.args@.len() - i,
        {
            args.push(self.args[i].clone());
            i += 1;
        }
        assert(args@.map_values(|s: String| s@) =~= self.args@.map_values(|s: String| s@));
        Command { name: self.name.clone(), args }
    }
}

/// The arguments of a command, each followed by a space.
pub open spec fn args_text(args: Seq<Seq<char>>) -> Seq<char>
    decreases args.len(),
{
    if args.len() == 0 {
        Seq::empty()
    } else {
        args_text(args.drop_last()) + args.last() + " "@
    }
}

impl Command {
    /// The command as a line of text: its name, then its arguments.
    pub fn describe(&self) -> (r: String)
        ensures
            r@ == "command: "@ + self@.name + "; arguments: "@ + args_text(self@.args),
    {
        let mut r = String::new();
        r.append("command: ");
        r.append(self.name.as_str());
        r.append("; arguments: ");
        let ghost head = r@;
        let mut i: usize = 0;
        while i < self.args.len()
            invariant
                i <= self.args@.len(),
                r@ == head + args_text(self@.args.take(i as int)),
            decreases self.args@.len() - i,
        {
            r.append(self.args[i].as_str());
            r.append(" ");
            proof {
                let a = self@.args.take(i + 1);
                assert(a.drop_last() =~= self@.args.take(i as int));
                assert(a.last() == self.args@[i as int]@);
            }
            i += 1;
            assert(r@ =~= head + args_text(self@.args.take(i as int)));
        }
        assert(self@.args.take(self.args@.len() as int) =~= self@.args);
        r
    }
}

/// The commands a graph has executed, and the graph's identifier.
#[derive(Debug)]
pub struct Commands {
    pub commands: Vec<Command>,
    pub graphID: u64,
}

pub open spec fn commands_view(cs: Seq<Command>) -> Seq<CommandView> {
    cs.map_values(|c: Command| c@)
}

impl Commands {
    pub fn new() -> (r: Commands)
        ensures
            r.commands@.len() == 0,
            r.graphID == 0,
    {
        Commands { commands: Vec::new(), graphID: 0 }
    }
}

/// Why a graph refused a request.
#[derive(Clone, Copy, PartialEq, Eq, Debug, Structural)]
pub enum GraphError {
    Cycle,
    EdgeNotFound,
    NodeNotFound,
    MismatchedNodes,
    UnknownCommand,
    IllFormedCommand,
}

pub type GraphResult<T> = Result<T, GraphError>;

/// A graph of image-processing nodes.
///
/// Node identifiers are handed out in increasing order and never reused; the node
/// with identifier `i` is `nodes[i]` (`None` once removed). Every input of every
/// node is fed by exactly one edge; when a node is added, a literal node is added
/// for each of its inputs, holding the input's default value, and connected to it
/// (these connections are the node's default input edges). Each edge carries a
/// layer: the number of edges on a longest chain of edges leading into the node
/// that feeds it.
pub struct Graph {
    nodes: Vec<Option<Node>>,
    edges: Vec<(usize, Edge)>,
    IDCount: usize,
    defaultInputEdges: Vec<Option<Vec<Edge>>>,
    pub commandHistory: Commands,
}

/// The mathematical value of a graph.
pub struct GraphModel {
    pub nodes: Seq<Option<NodeView>>,
    pub edges: Seq<(usize, Edge)>,
    pub id_count: nat,
    pub defaults: Seq<Option<Seq<Edge>>>,
    pub history: Seq<CommandView>,
    /// The identifier recorded with the command history.
    pub graph_id: u64,
}

pub open spec fn nodes_view(v: Seq<Option<Node>>) -> Seq<Option<NodeView>> {
    v.map_values(|o: Option<Node>| match o {
        Some(n) => Some(n@),
        None => None,
    })
}

pub open spec fn defaults_view(v: Seq<Option<Vec<Edge>>>) -> Seq<Option<Seq<Edge>>> {
    v.map_values(|o: Option<Vec<Edge>>| match o {
        Some(l) => Some(l@),
        None => None,
    })
}

impl View for Graph {
    type V = GraphModel;

    closed spec fn view(&self) -> GraphModel {
        GraphModel {
            nodes: nodes_view(self.nodes@),
            edges: self.edges@,
            id_count: self.IDCount as nat,
            defaults: defaults_view(self.defaultInputEdges@),
            history: commands_view(self.commandHistory.commands@),
            graph_id: self.commandHistory.graphID,
        }
    }
}

// ---------------------------------------------------------------------------
// The invariant of a graph
// ---------------------------------------------------------------------------

pub open spec fn has_node(nodes: Seq<Option<NodeView>>, id: int) -> bool {
    0 <= id < nodes.len() && nodes[id] is Some
}

pub open spec fn kind_of(nodes: Seq<Option<NodeView>>, id: int) -> NodeKind {
    nodes[id]->Some_0.kind
}

/// The default input edge of input `j` of the node added with identifier `id`:
/// it comes from the literal node with identifier `id + j + 1`.
pub open spec fn default_edge(id: usize, j: int) -> Edge {
    Edge { inputIndex: j as u16, outputIndex: 0, inputNode: id, outputNode: (id + j + 1) as usize }
}

/// An edge that ends at an input of an existing node and, when the node it starts
/// from exists, connects an output to an input of the same kind; when that node
/// no longer exists, the edge is the default input edge of the input it feeds.
pub open spec fn edge_ok(g: GraphModel, e: Edge) -> bool {
    &&& e.inputNode < g.id_count
    &&& e.outputNode < g.id_count
    &&& has_node(g.nodes, e.inputNode as int)
    &&& (e.inputIndex as int) < input_kinds(kind_of(g.nodes, e.inputNode as int)).len()
    &&& has_node(g.nodes, e.outputNode as int) ==> {
        &&& (e.outputIndex as int) < output_kinds(kind_of(g.nodes, e.outputNode as int)).len()
        &&& output_kinds(kind_of(g.nodes, e.outputNode as int))[e.outputIndex as int] == input_kinds(
            kind_of(g.nodes, e.inputNode as int),
        )[e.inputIndex as int]
    }
    &&& !has_node(g.nodes, e.outputNode as int) ==> e == default_edge(e.inputNode, e.inputIndex as int)
}

/// The default input edges recorded for identifier `id`: one per input of the node,
/// each from a literal node (while it exists) of the input's kind; the identifiers
/// of those literal nodes record no default input edges of their own.
pub open spec fn defaults_ok(g: GraphModel, id: int) -> bool {
    match g.defaults[id] {
        Some(list) => {
            &&& id + list.len() < g.id_count
            &&& forall|j: int| 0 <= j < list.len() ==> #[trigger] list[j] == default_edge(id as usize, j)
            &&& forall|m: int| id < m <= id + list.len() ==> #[trigger] g.defaults[m] is None
            &&& has_node(g.nodes, id) ==> list.len() == input_kinds(kind_of(g.nodes, id)).len()
            &&& forall|j: int|
                0 <= j < list.len() && #[trigger] has_node(g.nodes, id + j + 1) ==> {
                    &&& is_literal(kind_of(g.nodes, id + j + 1))
                    &&& has_node(g.nodes, id) ==> output_kinds(kind_of(g.nodes, id + j + 1))[0] == input_kinds(
                        kind_of(g.nodes, id),
                    )[j]
                }
        },
        None => has_node(g.nodes, id) ==> input_kinds(kind_of(g.nodes, id)).len() == 0,
    }
}

/// No two edges feed the same input.
pub open spec fn slots_unique(es: Seq<(usize, Edge)>) -> bool {
    forall|a: int, b: int|
        0 <= a < es.len() && 0 <= b < es.len() && a != b ==> !same_slot(#[trigger] es[a].1, #[trigger] es[b].1)
}

/// Some edge of `es` feeds input `j` of node `id`.
pub open spec fn fed(es: Seq<(usize, Edge)>, id: int, j: int) -> bool {
    exists|i: int| 0 <= i < es.len() && #[trigger] es[i].1.inputNode == id && es[i].1.inputIndex == j
}

/// Every input of every node is fed by an edge.
pub open spec fn inputs_fed(g: GraphModel) -> bool {
    forall|id: int, j: int|
        has_node(g.nodes, id) && 0 <= j < input_kinds(kind_of(g.nodes, id)).len() ==> #[trigger] fed(g.edges, id, j)
}

impl GraphModel {
    /// The invariant every graph keeps: every edge ends at an input of an existing
    /// node and joins sockets of the same kind; every input is fed by exactly one
    /// edge; the default input edges of each node come from literal nodes of the
    /// inputs' kinds; and no edge lies on a cycle.
    pub open spec fn wf(self) -> bool {
        &&& self.nodes.len() == self.id_count
        &&& self.defaults.len() == self.id_count
        &&& self.id_count <= usize::MAX
        &&& forall|i: int| 0 <= i < self.edges.len() ==> edge_ok(self, #[trigger] self.edges[i].1)
        &&& forall|id: int| 0 <= id < self.id_count ==> #[trigger] defaults_ok(self, id)
        &&& acyclic(self.edges)
        &&& slots_unique(self.edges)
        &&& inputs_fed(self)
    }
}

// ---------------------------------------------------------------------------
// Adding nodes
// ---------------------------------------------------------------------------

/// The graph after adding a node `n`: `n` takes the next identifier and each of its
/// inputs gets a literal node holding the input's default value, connected by a
/// default input edge.
pub open spec fn spec_add_node(g: GraphModel, n: NodeView) -> GraphModel {
    let id = g.id_count as usize;
    let ins = spec_inputs(n.kind);
    let k = ins.len();
    GraphModel {
        nodes: g.nodes.push(Some(n)) + Seq::new(k, |j: int| Some(literal_view(ins[j].io))),
        edges: g.edges + Seq::new(k, |j: int| (0usize, default_edge(id, j))),
        id_count: g.id_count + k + 1,
        defaults: g.defaults.push(Some(Seq::new(k, |j: int| default_edge(id, j)))) + Seq::new(
            k,
            |j: int| None,
        ),
        history: g.history,
        graph_id: g.graph_id,
    }
}

pub proof fn lemma_literal_view_kinds(v: IOValue)
    ensures
        is_literal(literal_view(v).kind),
        input_kinds(literal_view(v).kind).len() == 0,
        output_kinds(literal_view(v).kind).len() == 1,
        output_kinds(literal_view(v).kind)[0] == io_kind(v),
{
}

/// Walks that start below `b` stay below `b` when no edge leads from below `b`
/// to `b` or above.
proof fn lemma_walk_stays_below(es: Seq<(usize, Edge)>, w: Seq<usize>, b: usize, k: int)
    requires
        is_walk(es, w),
        w[0] < b,
        forall|i: int| 0 <= i < es.len() && #[trigger] es[i].1.outputNode < b ==> es[i].1.inputNode < b,
        0 <= k < w.len(),
    ensures
        w[k] < b,
    decreases k,
{
    if k > 0 {
        lemma_walk_stays_below(es, w, b, k - 1);
        assert(step_ok(es, w, k - 1));
        let i = choose|i: int|
            0 <= i < es.len() && #[trigger] es[i].1.outputNode == w[k - 1] && es[i].1.inputNode == w[k];
    }
}

/// Appending edges out of fresh nodes into a fresh node keeps a graph acyclic.
proof fn lemma_add_node_acyclic(es: Seq<(usize, Edge)>, id: usize, k: int)
    requires
        acyclic(es),
        forall|i: int| 0 <= i < es.len() ==> (#[trigger] es[i].1).inputNode < id && es[i].1.outputNode < id,
        0 <= k,
        id + k + 1 <= usize::MAX,
    ensures
        acyclic(es + Seq::new(k as nat, |j: int| (0usize, default_edge(id, j)))),
{
    let es2 = es + Seq::new(k as nat, |j: int| (0usize, default_edge(id, j)));
    assert forall|i: int| 0 <= i < es2.len() implies !reach(es2, #[trigger] es2[i].1.inputNode, es2[i].1.outputNode) by {
        if reach(es2, es2[i].1.inputNode, es2[i].1.outputNode) {
            let w = choose|w: Seq<usize>| #[trigger] walk_between(es2, w, es2[i].1.inputNode, es2[i].1.outputNode);
            if i < es.len() {
                assert(es2[i] == es[i]);
                assert forall|t: int| 0 <= t < es2.len() && #[trigger] es2[t].1.outputNode < id implies es2[t].1.inputNode < id by {
                    if t < es.len() {
                        assert(es2[t] == es[t]);
                    }
                }
                assert forall|m: int| 0 <= m < w.len() - 1 implies #[trigger] step_ok(es, w, m) by {
                    lemma_walk_stays_below(es2, w, id, m);
                    assert(step_ok(es2, w, m));
                    let t = choose|t: int|
                        0 <= t < es2.len() && #[trigger] es2[t].1.outputNode == w[m] && es2[t].1.inputNode == w[m + 1];
                    assert(t < es.len());
                    assert(es2[t] == es[t]);
                }
                assert(walk_between(es, w, es[i].1.inputNode, es[i].1.outputNode));
            } else {
                let j = i - es.len();
                assert(es2[i].1 == default_edge(id, j));
                assert(w[0] == id);
                assert(w.len() > 1);
                assert(step_ok(es2, w, 0));
                let t = choose|t: int|
                    0 <= t < es2.len() && #[trigger] es2[t].1.outputNode == w[0] && es2[t].1.inputNode == w[1];
                if t < es.len() {
                    assert(es2[t] == es[t]);
                } else {
                    assert(es2[t].1 == default_edge(id, t - es.len()));
                }
            }
        }
    }
}

impl Graph {
    /// The graph's edges, each with its layer.
    pub fn edges(&self) -> (r: &Vec<(usize, Edge)>)
        ensures
            r@ == self@.edges,
    {
        &self.edges
    }

    /// The node with identifier `id`, if there is one.
    pub fn node(&self, id: usize) -> (r: Option<&Node>)
        ensures
            match r {
                Some(n) => has_node(self@.nodes, id as int) && self@.nodes[id as int] == Some(n@),
                None => !has_node(self@.nodes, id as int),
            },
    {
        if id < self.nodes.len() {
            match &self.nodes[id] {
                Some(n) => Some(n),
                None => None,
            }
        } else {
            None
        }
    }

    /// The executed commands and the graph's identifier, as the graph's model
    /// records them.
    pub fn history(&self) -> (r: &Commands)
        ensures
            commands_view(r.commands@) == self@.history,
            r.graphID == self@.graph_id,
    {
        &self.commandHistory
    }

    /// The identifier the next added node will get.
    pub fn id_count(&self) -> (r: usize)
        ensures
            r == self@.id_count,
    {
        self.IDCount
    }

    /// Adds a node and, for each of its inputs, a literal node with the input's
    /// default value connected to that input.
    pub fn add_node(&mut self, node: Node)
        requires
            old(self)@.wf(),
            old(self)@.id_count + spec_inputs(node@.kind).len() + 1 <= usize::MAX,
        ensures
            final(self)@.wf(),
            final(self)@ == spec_add_node(old(self)@, node@),
    {
        let ghost g0 = self@;
        let ghost n = node@;
        let inputs = node.get_inputs();
        let ghost ins = spec_inputs(n.kind);
        assert(inputs@.len() == ins.len()) by {
            assert(crate::catalog::inputs_view(inputs@).len() == inputs@.len());
        }
        let id = self.IDCount;
        self.nodes.push(Some(node));
        let mut defs: Vec<Edge> = Vec::new();
        let mut index: usize = 0;
        while index < inputs.len()
            invariant
                index <= inputs@.len(),
                inputs@.len() == ins.len(),
                ins == spec_inputs(n.kind),
                crate::catalog::inputs_view(inputs@) == ins,
                id == g0.id_count,
                id + ins.len() + 1 <= usize::MAX,
                self.IDCount == id,
                self.defaultInputEdges@ == old(self).defaultInputEdges@,
                self.commandHistory == old(self).commandHistory,
                nodes_view(self.nodes@) == g0.nodes.push(Some(n)) + Seq::new(
                    index as nat,
                    |j: int| Some(literal_view(ins[j].io)),
                ),
                self.edges@ == g0.edges + Seq::new(index as nat, |j: int| (0usize, default_edge(id, j))),
                defs@ == Seq::new(index as nat, |j: int| default_edge(id, j)),
            decreases inputs@.len() - index,
        {
            assert(inputs@[index as int]@ == ins[index as int]) by {
                assert(crate::catalog::inputs_view(inputs@)[index as int] == inputs@[index as int]@);
            }
            let literal = Node::literal(inputs[index].IOType.clone());
            assert(literal@ == literal_view(ins[index as int].io));
            let ghost prev_nodes = self.nodes@;
            self.nodes.push(Some(literal));
            proof {
                assert(self.nodes@ == prev_nodes.push(Some(literal)));
                assert(nodes_view(self.nodes@) =~= nodes_view(prev_nodes).push(Some(literal@)));
            }
            let edge = Edge {
                inputIndex: index as u16,
                outputIndex: 0,
                inputNode: id,
                outputNode: id + index + 1,
            };
            self.edges.push((0, edge));
            defs.push(edge);
            index += 1;
            proof {
                assert(nodes_view(self.nodes@) =~= g0.nodes.push(Some(n)) + Seq::new(
                    index as nat,
                    |j: int| Some(literal_view(ins[j].io)),
                ));
                assert(self.edges@ =~= g0.edges + Seq::new(index as nat, |j: int| (0usize, default_edge(id, j))));
                assert(defs@ =~= Seq::new(index as nat, |j: int| default_edge(id, j)));
            }
        }
        let ghost prev_defaults = self.defaultInputEdges@;
        let ghost defs_view = defs@;
        self.defaultInputEdges.push(Some(defs));
        assert(defaults_view(self.defaultInputEdges@) =~= defaults_view(prev_defaults).push(Some(defs_view)));
        assert(defaults_view(self.defaultInputEdges@) =~= g0.defaults.push(
            Some(Seq::new(index as nat, |j: int| default_edge(id, j))),
        ) + Seq::new(0 as nat, |j: int| None));
        let mut c: usize = 0;
        while c < index
            invariant
                c <= index,
                index == ins.len(),
                id + ins.len() + 1 <= usize::MAX,
                id == g0.id_count,
                self.IDCount == id,
                self.commandHistory == old(self).commandHistory,
                nodes_view(self.nodes@) == g0.nodes.push(Some(n)) + Seq::new(
                    index as nat,
                    |j: int| Some(literal_view(ins[j].io)),
                ),
                self.edges@ == g0.edges + Seq::new(index as nat, |j: int| (0usize, default_edge(id, j))),
                defaults_view(self.defaultInputEdges@) == g0.defaults.push(
                    Some(Seq::new(index as nat, |j: int| default_edge(id, j))),
                ) + Seq::new(c as nat, |j: int| None),
            decreases index - c,
        {
            let ghost prev = self.defaultInputEdges@;
            self.defaultInputEdges.push(None);
            c += 1;
            assert(defaults_view(self.defaultInputEdges@) =~= defaults_view(prev).push(None));
            proof {
                assert(defaults_view(self.defaultInputEdges@) =~= g0.defaults.push(
                    Some(Seq::new(index as nat, |j: int| default_edge(id, j))),
                ) + Seq::new(c as nat, |j: int| None));
            }
        }
        self.IDCount = id + index + 1;
        proof {
            let g = self@;
            assert(g == spec_add_node(g0, n));
            lemma_add_node_wf(g0, n);
        }
    }

    /// The graph holding only the final node and the literal feeding its input.
    pub open spec fn spec_new() -> GraphModel {
        spec_add_node(
            GraphModel {
                nodes: Seq::empty(),
                edges: Seq::empty(),
                id_count: 0,
                defaults: Seq::empty(),
                history: Seq::empty(),
                graph_id: 0,
            },
            Node::Final(FinalNode {  })@,
        )
    }

    /// A graph holding only the final node (and the literal feeding its input).
    pub fn new() -> (r: Self)
        ensures
            r@.wf(),
            r@ == Graph::spec_new(),
    {
        let mut graph = Graph {
            nodes: Vec::new(),
            edges: Vec::new(),
            defaultInputEdges: Vec::new(),
            commandHistory: Commands::new(),
            IDCount: 0,
        };
        proof {
            assert(graph@.nodes =~= Seq::empty());
            assert(graph@.defaults =~= Seq::empty());
            assert(graph@.history =~= Seq::empty());
        }
        graph.add_node(Node::Final(FinalNode::new()));
        graph
    }
}

/// A new graph keeps the invariant.
pub proof fn lemma_new_wf()
    ensures
        Graph::spec_new().wf(),
{
    let g0 = GraphModel {
        nodes: Seq::empty(),
        edges: Seq::empty(),
        id_count: 0,
        defaults: Seq::empty(),
        history: Seq::empty(),
        graph_id: 0,
    };
    lemma_add_node_wf(g0, Node::Final(FinalNode {  })@);
}

/// Adding a node keeps the invariant.
proof fn lemma_add_node_wf(g0: GraphModel, n: NodeView)
    requires
        g0.wf(),
        g0.id_count + spec_inputs(n.kind).len() + 1 <= usize::MAX,
    ensures
        spec_add_node(g0, n).wf(),
{
    let g = spec_add_node(g0, n);
    let id = g0.id_count as usize;
    let ins = spec_inputs(n.kind);
    let k = ins.len() as int;
    assert(input_kinds(n.kind).len() == k);
    assert forall|x: int| 0 <= x < g0.id_count implies has_node(g.nodes, x) == has_node(g0.nodes, x) && (has_node(g0.nodes, x) ==> kind_of(g.nodes, x) == kind_of(g0.nodes, x)) by {
        assert(g.nodes[x] == g0.nodes[x]);
    }
    assert(has_node(g.nodes, id as int) && kind_of(g.nodes, id as int) == n.kind) by {
        assert(g.nodes[id as int] == Some(n));
    }
    assert forall|j: int| 0 <= j < k implies has_node(g.nodes, id + 1 + j) && kind_of(g.nodes, id + 1 + j) == literal_view(#[trigger] ins[j].io).kind by {
        assert(g.nodes[id + 1 + j] == Some(literal_view(ins[j].io)));
    }
    // edges
    assert forall|i: int| 0 <= i < g.edges.len() implies edge_ok(g, #[trigger] g.edges[i].1) by {
        if i < g0.edges.len() {
            assert(g.edges[i] == g0.edges[i]);
            assert(edge_ok(g0, g0.edges[i].1));
        } else {
            let j = i - g0.edges.len();
            assert(g.edges[i].1 == default_edge(id, j));
            lemma_literal_view_kinds(ins[j].io);
            assert(input_kinds(n.kind)[j] == io_kind(ins[j].io));
            assert(has_node(g.nodes, id + 1 + j));
        }
    }
    // defaults
    assert forall|x: int| 0 <= x < g.id_count implies #[trigger] defaults_ok(g, x) by {
        if x < id {
            assert(g.defaults[x] == g0.defaults[x]);
            assert(defaults_ok(g0, x));
            match g0.defaults[x] {
                Some(list) => {
                    assert forall|j: int|
                        0 <= j < list.len() && #[trigger] has_node(g.nodes, x + j + 1) implies {
                            &&& is_literal(kind_of(g.nodes, x + j + 1))
                            &&& has_node(g.nodes, x) ==> output_kinds(kind_of(g.nodes, x + j + 1))[0] == input_kinds(kind_of(g.nodes, x))[j]
                        } by {
                        assert(has_node(g0.nodes, x + j + 1));
                    }
                },
                None => {},
            }
        } else if x == id {
            let list = Seq::new(k as nat, |j: int| default_edge(id, j));
            assert(g.defaults[x] == Some(list));
            assert forall|j: int|
                0 <= j < list.len() && #[trigger] has_node(g.nodes, x + j + 1) implies {
                    &&& is_literal(kind_of(g.nodes, x + j + 1))
                    &&& has_node(g.nodes, x) ==> output_kinds(kind_of(g.nodes, x + j + 1))[0] == input_kinds(kind_of(g.nodes, x))[j]
                } by {
                lemma_literal_view_kinds(ins[j].io);
                assert(has_node(g.nodes, id + 1 + j));
            }
        } else {
            let j = x - id - 1;
            assert(g.defaults[x] == None::<Seq<Edge>>);
            lemma_literal_view_kinds(ins[j].io);
            assert(has_node(g.nodes, id + 1 + j));
        }
    }
    // acyclic
    assert forall|i: int| 0 <= i < g0.edges.len() implies (#[trigger] g0.edges[i].1).inputNode < id && g0.edges[i].1.outputNode < id by {
        assert(edge_ok(g0, g0.edges[i].1));
    }
    lemma_add_node_acyclic(g0.edges, id, k);
    // inputs
    assert forall|x: int, j: int|
        has_node(g.nodes, x) && 0 <= j < input_kinds(kind_of(g.nodes, x)).len() implies #[trigger] fed(g.edges, x, j) by {
        if x < id {
            assert(fed(g0.edges, x, j));
            let i = choose|i: int| 0 <= i < g0.edges.len() && #[trigger] g0.edges[i].1.inputNode == x && g0.edges[i].1.inputIndex == j;
            assert(g.edges[i] == g0.edges[i]);
        } else if x == id {
            let i = g0.edges.len() + j;
            assert(g.edges[i].1 == default_edge(id, j));
            assert(g.edges[i].1.inputNode == x);
        } else {
            lemma_literal_view_kinds(ins[x - id - 1].io);
            assert(g.nodes[x] == Some(literal_view(ins[x - id - 1].io)));
        }
    }
    // slots
    assert forall|a: int, b: int|
        0 <= a < g.edges.len() && 0 <= b < g.edges.len() && a != b implies !same_slot(#[trigger] g.edges[a].1, #[trigger] g.edges[b].1) by {
        if a < g0.edges.len() && b < g0.edges.len() {
            assert(g.edges[a] == g0.edges[a] && g.edges[b] == g0.edges[b]);
        } else if a < g0.edges.len() {
            assert(g.edges[a] == g0.edges[a]);
            assert(edge_ok(g0, g0.edges[a].1));
        } else if b < g0.edges.len() {
            assert(g.edges[b] == g0.edges[b]);
            assert(edge_ok(g0, g0.edges[b].1));
        } else {
        }
    }
}


// ---------------------------------------------------------------------------
// Layers
// ---------------------------------------------------------------------------

/// The edges with each layer recomputed: the layer of an edge is the number of
/// edges on a longest walk ending at the node the edge comes from.
pub open spec fn relayer(es: Seq<(usize, Edge)>) -> Seq<(usize, Edge)> {
    Seq::new(es.len(), |i: int| (depth(es, es[i].1.outputNode) as usize, es[i].1))
}

/// Two edge lists that differ at most in their layers.
pub open spec fn same_edges(es1: Seq<(usize, Edge)>, es2: Seq<(usize, Edge)>) -> bool {
    es1.len() == es2.len() && forall|i: int| 0 <= i < es1.len() ==> (#[trigger] es1[i]).1 == es2[i].1
}

pub proof fn lemma_same_edges(es1: Seq<(usize, Edge)>, es2: Seq<(usize, Edge)>)
    requires
        same_edges(es1, es2),
    ensures
        arcs_within(es1, es2),
        arcs_within(es2, es1),
        acyclic(es1) ==> acyclic(es2),
        slots_unique(es1) ==> slots_unique(es2),
{
    assert forall|a: usize, b: usize| #[trigger] arc(es1, a, b) implies arc(es2, a, b) by {
        let i = choose|i: int| 0 <= i < es1.len() && #[trigger] es1[i].1.outputNode == a && es1[i].1.inputNode == b;
        assert(es2[i].1 == es1[i].1);
    }
    assert forall|a: usize, b: usize| #[trigger] arc(es2, a, b) implies arc(es1, a, b) by {
        let i = choose|i: int| 0 <= i < es2.len() && #[trigger] es2[i].1.outputNode == a && es2[i].1.inputNode == b;
        assert(es1[i].1 == es2[i].1);
    }
    if acyclic(es1) {
        assert forall|i: int| 0 <= i < es2.len() implies !reach(es2, #[trigger] es2[i].1.inputNode, es2[i].1.outputNode) by {
            assert(es1[i].1 == es2[i].1);
            if reach(es2, es2[i].1.inputNode, es2[i].1.outputNode) {
                lemma_reach_within(es2, es1, es2[i].1.inputNode, es2[i].1.outputNode);
            }
        }
    }
    if slots_unique(es1) {
        assert forall|a: int, b: int|
            0 <= a < es2.len() && 0 <= b < es2.len() && a != b implies !same_slot(#[trigger] es2[a].1, #[trigger] es2[b].1) by {
            assert(es1[a].1 == es2[a].1 && es1[b].1 == es2[b].1);
        }
    }
}

/// Recomputing layers keeps the invariant.
pub proof fn lemma_relayer_wf(g: GraphModel)
    requires
        g.wf(),
    ensures
        (GraphModel { edges: relayer(g.edges), ..g }).wf(),
{
    let g2 = GraphModel { edges: relayer(g.edges), ..g };
    assert(same_edges(g.edges, g2.edges));
    lemma_same_edges(g.edges, g2.edges);
    assert forall|i: int| 0 <= i < g2.edges.len() implies edge_ok(g2, #[trigger] g2.edges[i].1) by {
        assert(g2.edges[i].1 == g.edges[i].1);
        assert(edge_ok(g, g.edges[i].1));
    }
    assert forall|id: int| 0 <= id < g2.id_count implies #[trigger] defaults_ok(g2, id) by {
        assert(defaults_ok(g, id));
    }
    assert forall|x: int, j: int|
        has_node(g2.nodes, x) && 0 <= j < input_kinds(kind_of(g2.nodes, x)).len() implies #[trigger] fed(g2.edges, x, j) by {
        assert(fed(g.edges, x, j));
        let i = choose|i: int| 0 <= i < g.edges.len() && #[trigger] g.edges[i].1.inputNode == x && g.edges[i].1.inputIndex == j;
        assert(g2.edges[i].1 == g.edges[i].1);
    }
}

impl Graph {
    /// Recomputes the layer of every edge.
    fn recalculate_layers(&mut self)
        requires
            acyclic(old(self)@.edges),
        ensures
            final(self)@ == (GraphModel { edges: relayer(old(self)@.edges), ..old(self)@ }),
    {
        let ghost es = self.edges@;
        let n = self.edges.len();
        let mut distances: Vec<usize> = Vec::new();
        let mut i: usize = 0;
        while i < n
            invariant
                i <= n,
                n == es.len(),
                self.edges@ == es,
                acyclic(es),
                distances@.len() == i,
                forall|j: int| 0 <= j < i ==> #[trigger] distances@[j] == depth(es, es[j].1.outputNode),
            decreases n - i,
        {
            let d = longest_walk_into(&self.edges, self.edges[i].1.outputNode);
            proof {
                lemma_depth_unique(es, es[i as int].1.outputNode, d as nat);
            }
            distances.push(d);
            i += 1;
        }
        let mut i: usize = 0;
        while i < n
            invariant
                i <= n,
                n == es.len(),
                self.edges@.len() == n,
                distances@.len() == n,
                forall|j: int| 0 <= j < n ==> #[trigger] distances@[j] == depth(es, es[j].1.outputNode),
                forall|j: int| 0 <= j < i ==> #[trigger] self.edges@[j] == relayer(es)[j],
                forall|j: int| i <= j < n ==> #[trigger] self.edges@[j] == es[j],
                self.nodes == old(self).nodes,
                self.IDCount == old(self).IDCount,
                self.defaultInputEdges == old(self).defaultInputEdges,
                self.commandHistory == old(self).commandHistory,
            decreases n - i,
        {
            let e = self.edges[i].1;
            self.edges.set(i, (distances[i], e));
            i += 1;
        }
        assert(self.edges@ =~= relayer(es));
    }

    /// Whether the output node of `edge` can be reached from its input node, that
    /// is, whether `edge` closes a cycle.
    pub fn check_for_cycle(&self, edge: &Edge) -> (r: bool)
        ensures
            r == reach(self@.edges, edge.inputNode, edge.outputNode),
    {
        if edge.inputNode == edge.outputNode {
            proof {
                crate::walk::lemma_single_node_walk(self@.edges, edge.inputNode);
            }
            return true;
        }
        reaches(&self.edges, edge.inputNode, edge.outputNode)
    }
}

// ---------------------------------------------------------------------------
// Removing edges
// ---------------------------------------------------------------------------

/// The index of the first edge equal to `e`.
pub open spec fn first_equal(es: Seq<(usize, Edge)>, e: Edge) -> Option<int> {
    if exists|i: int| 0 <= i < es.len() && #[trigger] es[i].1 == e {
        Some(choose|i: int| 0 <= i < es.len() && #[trigger] es[i].1 == e && forall|j: int| 0 <= j < i ==> #[trigger] es[j].1 != e)
    } else {
        None
    }
}

/// The last edge of `list` feeding the same input index as `e`, or `e` if there is none.
pub open spec fn pick_default(list: Seq<Edge>, e: Edge) -> Edge
    decreases list.len(),
{
    if list.len() == 0 {
        e
    } else if list.last().inputIndex == e.inputIndex {
        list.last()
    } else {
        pick_default(list.drop_last(), e)
    }
}

/// The default input edge that replaces `e`.
pub open spec fn default_for(g: GraphModel, e: Edge) -> Edge {
    pick_default(g.defaults[e.inputNode as int]->Some_0, e)
}

/// Replacing the first edge equal to `e` by the default input edge of the input it
/// feeds, and recomputing layers if asked; fails when no edge equals `e`.
pub open spec fn spec_remove_edge(g: GraphModel, e: Edge, recalculate: bool) -> (GraphModel, GraphResult<()>) {
    match first_equal(g.edges, e) {
        None => (g, Err(GraphError::EdgeNotFound)),
        Some(i) => {
            let es = g.edges.update(i, (g.edges[i].0, default_for(g, e)));
            (GraphModel { edges: if recalculate { relayer(es) } else { es }, ..g }, Ok(()))
        },
    }
}

/// `remove_edge_and_replace_with_default` finds the default input edges it needs.
pub open spec fn remove_edge_ok(g: GraphModel, e: Edge) -> bool {
    first_equal(g.edges, e) is Some ==> (e.inputNode < g.defaults.len() && g.defaults[e.inputNode as int] is Some)
}

pub proof fn lemma_inputs_small(k: NodeKind)
    ensures
        spec_inputs(k).len() <= 4,
        input_kinds(k).len() <= 4,
{
}

proof fn lemma_pick_default(list: Seq<Edge>, e: Edge, id: usize)
    requires
        forall|j: int| 0 <= j < list.len() ==> #[trigger] list[j] == default_edge(id, j),
        (e.inputIndex as int) < list.len(),
        list.len() <= 4,
    ensures
        pick_default(list, e) == default_edge(id, e.inputIndex as int),
    decreases list.len(),
{
    let last = list.len() - 1;
    assert(list.last() == default_edge(id, last));
    if e.inputIndex as int == last {
    } else {
        assert((last as u16) != e.inputIndex);
        lemma_pick_default(list.drop_last(), e, id);
    }
}

/// No edge enters a literal node recorded as the source of a default input edge.
proof fn lemma_default_source(g: GraphModel, id: int, j: int)
    requires
        g.wf(),
        0 <= id < g.id_count,
        g.defaults[id] is Some,
        0 <= j < g.defaults[id]->Some_0.len(),
    ensures
        forall|i: int| 0 <= i < g.edges.len() ==> (#[trigger] g.edges[i]).1.inputNode != (id + j + 1) as usize,
        forall|a: usize| !#[trigger] arc(g.edges, a, (id + j + 1) as usize),
{
    assert(defaults_ok(g, id));
    assert forall|i: int| 0 <= i < g.edges.len() implies (#[trigger] g.edges[i]).1.inputNode != (id + j + 1) as usize by {
        assert(edge_ok(g, g.edges[i].1));
        if g.edges[i].1.inputNode == (id + j + 1) as usize {
            assert(has_node(g.nodes, id + j + 1));
            crate::node::lemma_literal_has_no_inputs(kind_of(g.nodes, id + j + 1));
        }
    }
}

/// Replacing an edge by one that leaves a node no edge enters keeps a graph acyclic.
proof fn lemma_replace_acyclic(es: Seq<(usize, Edge)>, i: int, x: usize, d: Edge)
    requires
        acyclic(es),
        0 <= i < es.len(),
        forall|t: int| 0 <= t < es.len() ==> (#[trigger] es[t]).1.inputNode != d.outputNode,
        d.inputNode != d.outputNode,
    ensures
        acyclic(es.update(i, (x, d))),
{
    let es2 = es.update(i, (x, d));
    let l = d.outputNode;
    assert forall|a: usize| !#[trigger] arc(es2, a, l) by {
        if arc(es2, a, l) {
            let t = choose|t: int| 0 <= t < es2.len() && #[trigger] es2[t].1.outputNode == a && es2[t].1.inputNode == l;
            if t != i {
                assert(es2[t] == es[t]);
            }
        }
    }
    assert forall|t: int| 0 <= t < es2.len() implies !reach(es2, #[trigger] es2[t].1.inputNode, es2[t].1.outputNode) by {
        let f = es2[t].1;
        if reach(es2, f.inputNode, f.outputNode) {
            let w = choose|w: Seq<usize>| #[trigger] walk_between(es2, w, f.inputNode, f.outputNode);
            assert(f.inputNode != l) by {
                if t != i {
                    assert(es2[t] == es[t]);
                }
            }
            assert forall|m: int| 0 <= m < w.len() - 1 implies #[trigger] step_ok(es, w, m) by {
                lemma_never_entered(es2, w, l, m);
                assert(step_ok(es2, w, m));
                let u = choose|u: int| 0 <= u < es2.len() && #[trigger] es2[u].1.outputNode == w[m] && es2[u].1.inputNode == w[m + 1];
                assert(u != i);
                assert(es2[u] == es[u]);
            }
            if t == i {
                lemma_never_entered(es2, w, l, w.len() - 1);
            } else {
                assert(es2[t] == es[t]);
                assert(walk_between(es, w, es[t].1.inputNode, es[t].1.outputNode));
            }
        }
    }
}

/// Replacing an edge by the default input edge of the input it feeds keeps the invariant.
proof fn lemma_replace_default_wf(g: GraphModel, i: int, x: usize)
    requires
        g.wf(),
        0 <= i < g.edges.len(),
    ensures
        default_for(g, g.edges[i].1) == default_edge(g.edges[i].1.inputNode, g.edges[i].1.inputIndex as int),
        (GraphModel { edges: g.edges.update(i, (x, default_for(g, g.edges[i].1))), ..g }).wf(),
{
    let e = g.edges[i].1;
    let id = e.inputNode as int;
    assert(edge_ok(g, e));
    assert(defaults_ok(g, id));
    let list = g.defaults[id]->Some_0;
    lemma_inputs_small(kind_of(g.nodes, id));
    assert(g.defaults[id] is Some);
    lemma_pick_default(list, e, e.inputNode);
    let d = default_for(g, e);
    let j = e.inputIndex as int;
    let g2 = GraphModel { edges: g.edges.update(i, (x, d)), ..g };
    lemma_default_source(g, id, j);
    assert(d.inputNode != d.outputNode);
    lemma_replace_acyclic(g.edges, i, x, d);
    assert forall|t: int| 0 <= t < g2.edges.len() implies edge_ok(g2, #[trigger] g2.edges[t].1) by {
        if t != i {
            assert(g2.edges[t] == g.edges[t]);
            assert(edge_ok(g, g.edges[t].1));
        } else {
            assert(g2.edges[t].1 == d);
            if has_node(g.nodes, id + j + 1) {
                crate::node::lemma_literal_has_no_inputs(kind_of(g.nodes, id + j + 1));
                assert(output_kinds(kind_of(g.nodes, id + j + 1))[0] == input_kinds(kind_of(g.nodes, id))[j]);
                assert(output_kinds(kind_of(g.nodes, id + j + 1)).len() >= 1);
            }
        }
    }
    assert forall|y: int| 0 <= y < g2.id_count implies #[trigger] defaults_ok(g2, y) by {
        assert(defaults_ok(g, y));
    }
    assert forall|a: int, b: int|
        0 <= a < g2.edges.len() && 0 <= b < g2.edges.len() && a != b implies !same_slot(#[trigger] g2.edges[a].1, #[trigger] g2.edges[b].1) by {
        assert(!same_slot(g.edges[a].1, g.edges[b].1));
    }
    assert forall|y: int, k: int|
        has_node(g2.nodes, y) && 0 <= k < input_kinds(kind_of(g2.nodes, y)).len() implies #[trigger] fed(g2.edges, y, k) by {
        assert(fed(g.edges, y, k));
        let t = choose|t: int| 0 <= t < g.edges.len() && #[trigger] g.edges[t].1.inputNode == y && g.edges[t].1.inputIndex == k;
        assert(g2.edges[t].1.inputNode == y && g2.edges[t].1.inputIndex == k);
    }
}

impl Graph {
    /// Replaces the first edge equal to `edge` by the default input edge of the
    /// input it feeds; recomputes the layers if `recalculate` is set.
    pub fn remove_edge_and_replace_with_default(&mut self, edge: &Edge, recalculate: bool) -> (r: GraphResult<()>)
        requires
            remove_edge_ok(old(self)@, *edge),
            recalculate ==> old(self)@.wf(),
        ensures
            (final(self)@, r) == spec_remove_edge(old(self)@, *edge, recalculate),
            old(self)@.wf() ==> final(self)@.wf(),
    {
        let ghost g0 = self@;
        let n = self.edges.len();
        let mut i: usize = 0;
        while i < n
            invariant
                i <= n,
                n == self.edges@.len(),
                self@ == g0,
                g0 == old(self)@,
                remove_edge_ok(g0, *edge),
                recalculate ==> g0.wf(),
                forall|j: int| 0 <= j < i ==> #[trigger] self.edges@[j].1 != *edge,
            decreases n - i,
        {
            if self.edges[i].1 == *edge {
                proof {
                    assert(first_equal(g0.edges, *edge) == Some(i as int));
                }
                let mut replacement = self.edges[i].1;
                assert(self.defaultInputEdges@[edge.inputNode as int] is Some) by {
                    assert(defaults_view(self.defaultInputEdges@)[edge.inputNode as int] is Some);
                }
                match &self.defaultInputEdges[edge.inputNode] {
                    Some(list) => {
                        let ghost l = list@;
                        assert(l == g0.defaults[edge.inputNode as int]->Some_0) by {
                            assert(defaults_view(self.defaultInputEdges@)[edge.inputNode as int] == Some(l));
                        }
                        let mut k: usize = 0;
                        while k < list.len()
                            invariant
                                k <= l.len(),
                                l == list@,
                                replacement == pick_default(l.subrange(0, k as int), *edge),
                            decreases l.len() - k,
                        {
                            assert(l.subrange(0, k + 1).drop_last() =~= l.subrange(0, k as int));
                            if list[k].inputIndex == edge.inputIndex {
                                replacement = list[k];
                            }
                            k += 1;
                        }
                        assert(l.subrange(0, l.len() as int) =~= l);
                    },
                    None => {},
                }
                assert(replacement == default_for(g0, *edge));
                let layer = self.edges[i].0;
                self.edges.set(i, (layer, replacement));
                assert(self@ == GraphModel { edges: g0.edges.update(i as int, (layer, replacement)), ..g0 });
                proof {
                    if g0.wf() {
                        lemma_replace_default_wf(g0, i as int, layer);
                    }
                }
                if recalculate {
                    self.recalculate_layers();
                    proof {
                        lemma_relayer_wf(GraphModel { edges: g0.edges.update(i as int, (layer, replacement)), ..g0 });
                    }
                }
                proof {
                    let es = g0.edges.update(i as int, (g0.edges[i as int].0, default_for(g0, *edge)));
                    assert(es == g0.edges.update(i as int, (layer, replacement)));
                    let expect = GraphModel { edges: if recalculate { relayer(es) } else { es }, ..g0 };
                    assert(self@ == expect);
                    assert(spec_remove_edge(g0, *edge, recalculate) == (expect, Ok::<(), GraphError>(())));
                }
                return Ok(());
            }
            i += 1;
        }
        Err(GraphError::EdgeNotFound)
    }
}


// ---------------------------------------------------------------------------
// Adding edges
// ---------------------------------------------------------------------------

/// The index of the first edge feeding the same input as `e`.
pub open spec fn first_slot(es: Seq<(usize, Edge)>, e: Edge) -> Option<int> {
    if exists|i: int| 0 <= i < es.len() && same_slot(#[trigger] es[i].1, e) {
        Some(choose|i: int| 0 <= i < es.len() && same_slot(#[trigger] es[i].1, e) && forall|j: int| 0 <= j < i ==> !same_slot(#[trigger] es[j].1, e))
    } else {
        None
    }
}

/// The edges without the first one feeding the same input as `e`.
pub open spec fn take_slot(es: Seq<(usize, Edge)>, e: Edge) -> Seq<(usize, Edge)> {
    match first_slot(es, e) {
        Some(i) => es.remove(i),
        None => es,
    }
}

/// The sockets that `e` names do not exist, or hold values of different kinds.
pub open spec fn mismatched(g: GraphModel, e: Edge) -> bool {
    let ik = input_kinds(kind_of(g.nodes, e.inputNode as int));
    let ok = output_kinds(kind_of(g.nodes, e.outputNode as int));
    ik.len() <= e.inputIndex || ok.len() <= e.outputIndex || ik[e.inputIndex as int] != ok[e.outputIndex as int]
}

/// Putting `e` in place of the edge that feeds its input would close a cycle.
pub open spec fn creates_cycle(g: GraphModel, e: Edge) -> bool {
    reach(take_slot(g.edges, e).push((0usize, e)), e.inputNode, e.outputNode)
}

/// The inputs on which `add_edge` cannot proceed: a node it looks up does not
/// exist (the output node is looked up only once the input index is known to
/// exist); or the edge closes a cycle and the edge it displaced, which it then
/// restores, comes from a node that no longer exists.
pub open spec fn add_edge_panics(g: GraphModel, e: Edge) -> bool {
    let ilen = input_kinds(kind_of(g.nodes, e.inputNode as int)).len();
    ||| !has_node(g.nodes, e.inputNode as int)
    ||| (ilen > e.inputIndex && !has_node(g.nodes, e.outputNode as int))
    ||| (!mismatched(g, e) && creates_cycle(g, e) && match first_slot(g.edges, e) {
        Some(i) => !has_node(g.nodes, g.edges[i].1.outputNode as int),
        None => false,
    })
}

/// Connecting output `e.outputIndex` of node `e.outputNode` to input `e.inputIndex` of
/// node `e.inputNode`: the edge feeding that input is replaced by `e`, and layers are
/// recomputed. An edge between sockets of different kinds is refused; an edge that
/// closes a cycle is refused and the displaced edge is put back, at the end of the list.
pub open spec fn spec_add_edge(g: GraphModel, e: Edge) -> (GraphModel, GraphResult<()>) {
    if mismatched(g, e) {
        (g, Err(GraphError::MismatchedNodes))
    } else if !creates_cycle(g, e) {
        (GraphModel { edges: relayer(take_slot(g.edges, e).push((0usize, e))), ..g }, Ok(()))
    } else {
        match first_slot(g.edges, e) {
            Some(i) => (
                GraphModel { edges: relayer(take_slot(g.edges, e).push((0usize, g.edges[i].1))), ..g },
                Err(GraphError::Cycle),
            ),
            None => (
                GraphModel { edges: relayer(take_slot(g.edges, e).push((0usize, default_for(g, e)))), ..g },
                Err(GraphError::Cycle),
            ),
        }
    }
}

/// Some index satisfying `p` below `n` means a least such index.
proof fn lemma_least_index(p: spec_fn(int) -> bool, n: int, i: int)
    requires
        0 <= i < n,
        p(i),
    ensures
        exists|m: int| 0 <= m < n && #[trigger] p(m) && forall|j: int| 0 <= j < m ==> !#[trigger] p(j),
    decreases i,
{
    if exists|j: int| 0 <= j < i && #[trigger] p(j) {
        let j = choose|j: int| 0 <= j < i && #[trigger] p(j);
        lemma_least_index(p, n, j);
    } else {
        assert(forall|j: int| 0 <= j < i ==> !#[trigger] p(j));
    }
}

pub proof fn lemma_first_slot(es: Seq<(usize, Edge)>, e: Edge)
    ensures
        match first_slot(es, e) {
            Some(i) => 0 <= i < es.len() && same_slot(es[i].1, e) && forall|j: int| 0 <= j < i ==> !same_slot(#[trigger] es[j].1, e),
            None => forall|j: int| 0 <= j < es.len() ==> !same_slot(#[trigger] es[j].1, e),
        },
{
    if exists|i: int| 0 <= i < es.len() && same_slot(#[trigger] es[i].1, e) {
        let i = choose|i: int| 0 <= i < es.len() && same_slot(#[trigger] es[i].1, e);
        let p = |j: int| 0 <= j < es.len() && same_slot(es[j].1, e);
        lemma_least_index(p, es.len() as int, i);
        let m = choose|m: int| 0 <= m < es.len() && #[trigger] p(m) && forall|j: int| 0 <= j < m ==> !#[trigger] p(j);
        assert(forall|j: int| 0 <= j < m ==> !same_slot(#[trigger] es[j].1, e)) by {
            assert forall|j: int| 0 <= j < m implies !same_slot(#[trigger] es[j].1, e) by {
                assert(!p(j));
            }
        }
    }
}

pub proof fn lemma_first_equal(es: Seq<(usize, Edge)>, e: Edge)
    ensures
        match first_equal(es, e) {
            Some(i) => 0 <= i < es.len() && es[i].1 == e && forall|j: int| 0 <= j < i ==> #[trigger] es[j].1 != e,
            None => forall|j: int| 0 <= j < es.len() ==> #[trigger] es[j].1 != e,
        },
{
    if exists|i: int| 0 <= i < es.len() && #[trigger] es[i].1 == e {
        let i = choose|i: int| 0 <= i < es.len() && #[trigger] es[i].1 == e;
        let p = |j: int| 0 <= j < es.len() && es[j].1 == e;
        lemma_least_index(p, es.len() as int, i);
        let m = choose|m: int| 0 <= m < es.len() && #[trigger] p(m) && forall|j: int| 0 <= j < m ==> !#[trigger] p(j);
        assert forall|j: int| 0 <= j < m implies #[trigger] es[j].1 != e by {
            assert(!p(j));
        }
    }
}

proof fn lemma_take_slot_among(es: Seq<(usize, Edge)>, e: Edge)
    ensures
        edges_among(take_slot(es, e), es),
        take_slot(es, e).len() <= es.len(),
{
    lemma_first_slot(es, e);
    match first_slot(es, e) {
        Some(i) => {
            es.remove_ensures(i);
            assert forall|t: int| 0 <= t < es.remove(i).len() implies exists|u: int| 0 <= u < es.len() && #[trigger] es[u].1 == (#[trigger] es.remove(i)[t]).1 by {
                if t < i {
                    assert(es[t].1 == es.remove(i)[t].1);
                } else {
                    assert(es[t + 1].1 == es.remove(i)[t].1);
                }
            }
            assert(take_slot(es, e) == es.remove(i));
            assert(edges_among(es.remove(i), es));
            assert(edges_among(take_slot(es, e), es));
            assert(take_slot(es, e).len() <= es.len());
        },
        None => {
            crate::walk::lemma_edges_among_refl(es);
            assert(take_slot(es, e) == es);
        },
    }
}

/// With unique slots, taking the slot of `e` leaves no edge feeding that input.
pub proof fn lemma_take_slot_clears(es: Seq<(usize, Edge)>, e: Edge)
    requires
        slots_unique(es),
    ensures
        forall|t: int| 0 <= t < take_slot(es, e).len() ==> !same_slot(#[trigger] take_slot(es, e)[t].1, e),
        slots_unique(take_slot(es, e)),
{
    lemma_first_slot(es, e);
    match first_slot(es, e) {
        Some(i) => {
            es.remove_ensures(i);
            let r = es.remove(i);
            assert forall|t: int| 0 <= t < r.len() implies !same_slot(#[trigger] r[t].1, e) by {
                if t < i {
                    assert(r[t] == es[t]);
                    assert(!same_slot(es[t].1, es[i].1));
                } else {
                    assert(r[t] == es[t + 1]);
                    assert(!same_slot(es[t + 1].1, es[i].1));
                }
            }
            assert forall|a: int, b: int| 0 <= a < r.len() && 0 <= b < r.len() && a != b implies !same_slot(#[trigger] r[a].1, #[trigger] r[b].1) by {
                let a2 = if a < i { a } else { a + 1 };
                let b2 = if b < i { b } else { b + 1 };
                assert(r[a] == es[a2] && r[b] == es[b2]);
                assert(!same_slot(es[a2].1, es[b2].1));
            }
        },
        None => {
            assert forall|t: int| 0 <= t < es.len() implies !same_slot(#[trigger] es[t].1, e) by {
                if same_slot(es[t].1, e) {
                    assert(exists|i: int| 0 <= i < es.len() && same_slot(#[trigger] es[i].1, e));
                }
            }
        },
    }
}

/// An input fed before `e`'s slot is taken and an edge `x` of that slot is pushed
/// is still fed afterwards.
proof fn lemma_fed_after_take_push(es: Seq<(usize, Edge)>, e: Edge, l: usize, x: Edge, id: int, j: int)
    requires
        fed(es, id, j),
        same_slot(x, e),
    ensures
        fed(take_slot(es, e).push((l, x)), id, j),
{
    let es2 = take_slot(es, e).push((l, x));
    let t = choose|t: int| 0 <= t < es.len() && #[trigger] es[t].1.inputNode == id && es[t].1.inputIndex == j;
    lemma_first_slot(es, e);
    if same_slot(es[t].1, e) {
        let last = es2.len() - 1;
        assert(es2[last].1 == x);
        assert(es2[last].1.inputNode == id);
    } else {
        match first_slot(es, e) {
            Some(i) => {
                es.remove_ensures(i);
                let u = if t < i { t } else { t - 1 };
                assert(t != i);
                assert(es.remove(i)[u] == es[t]);
                assert(es2[u] == es[t]);
                assert(es2[u].1.inputNode == id);
            },
            None => {
                assert(es2[t] == es[t]);
                assert(es2[t].1.inputNode == id);
            },
        }
    }
}

/// The result of a successful `add_edge` keeps the invariant.
pub proof fn lemma_add_edge_wf(g: GraphModel, e: Edge)
    requires
        g.wf(),
        !add_edge_panics(g, e),
        !mismatched(g, e),
        !creates_cycle(g, e),
    ensures
        (GraphModel { edges: take_slot(g.edges, e).push((0usize, e)), ..g }).wf(),
{
    let es1 = take_slot(g.edges, e);
    let es2 = es1.push((0usize, e));
    let g2 = GraphModel { edges: es2, ..g };
    lemma_take_slot_among(g.edges, e);
    lemma_take_slot_clears(g.edges, e);
    lemma_add_edge_acyclic(g.edges, es1, 0usize, e);
    assert forall|t: int| 0 <= t < es2.len() implies edge_ok(g2, #[trigger] es2[t].1) by {
        if t < es1.len() {
            assert(es2[t] == es1[t]);
            let u = choose|u: int| 0 <= u < g.edges.len() && #[trigger] g.edges[u].1 == (#[trigger] es1[t]).1;
            assert(edge_ok(g, g.edges[u].1));
        } else {
            assert(es2[t].1 == e);
        }
    }
    assert forall|id: int| 0 <= id < g2.id_count implies #[trigger] defaults_ok(g2, id) by {
        assert(defaults_ok(g, id));
    }
    assert forall|a: int, b: int| 0 <= a < es2.len() && 0 <= b < es2.len() && a != b implies !same_slot(#[trigger] es2[a].1, #[trigger] es2[b].1) by {
        if a < es1.len() && b < es1.len() {
            assert(es2[a] == es1[a] && es2[b] == es1[b]);
        } else if a < es1.len() {
            assert(es2[a] == es1[a]);
        } else {
            assert(es2[b] == es1[b]);
        }
    }
    assert forall|x: int, j: int|
        has_node(g2.nodes, x) && 0 <= j < input_kinds(kind_of(g2.nodes, x)).len() implies #[trigger] fed(g2.edges, x, j) by {
        assert(fed(g.edges, x, j));
        lemma_fed_after_take_push(g.edges, e, 0usize, e, x, j);
    }
}

impl Graph {
    fn get_node(&self, id: usize) -> (r: &Node)
        requires
            has_node(self@.nodes, id as int),
        ensures
            self@.nodes[id as int] == Some(r@),
    {
        assert(self.nodes@[id as int] is Some) by {
            assert(nodes_view(self.nodes@)[id as int] is Some);
        }
        self.nodes[id].as_ref().unwrap()
    }
}


/// The least index satisfying the slot test is the one `first_slot` names.
proof fn lemma_first_slot_is(es: Seq<(usize, Edge)>, e: Edge, i: int)
    requires
        0 <= i < es.len(),
        same_slot(es[i].1, e),
        forall|j: int| 0 <= j < i ==> !same_slot(#[trigger] es[j].1, e),
    ensures
        first_slot(es, e) == Some(i),
{
    lemma_first_slot(es, e);
    let m = first_slot(es, e)->Some_0;
    if m < i {
        assert(!same_slot(es[m].1, e));
    } else if m > i {
        assert(!same_slot(es[i].1, e));
    }
}

/// The least index holding `e` is the one `first_equal` names.
pub proof fn lemma_first_equal_is(es: Seq<(usize, Edge)>, e: Edge, i: int)
    requires
        0 <= i < es.len(),
        es[i].1 == e,
        forall|j: int| 0 <= j < i ==> #[trigger] es[j].1 != e,
    ensures
        first_equal(es, e) == Some(i),
{
    lemma_first_equal(es, e);
    let m = first_equal(es, e)->Some_0;
    if m < i {
        assert(es[m].1 != e);
    } else if m > i {
        assert(es[i].1 != e);
    }
}

/// An input that has sockets has a recorded list of default input edges, and the
/// default edge of one of its sockets comes from a node no edge enters.
pub proof fn lemma_default_of_input(g: GraphModel, e: Edge)
    requires
        g.wf(),
        has_node(g.nodes, e.inputNode as int),
        (e.inputIndex as int) < input_kinds(kind_of(g.nodes, e.inputNode as int)).len(),
    ensures
        g.defaults[e.inputNode as int] is Some,
        default_for(g, e) == default_edge(e.inputNode, e.inputIndex as int),
        e.inputNode + e.inputIndex + 1 < g.id_count,
        forall|i: int| 0 <= i < g.edges.len() ==> (#[trigger] g.edges[i]).1.inputNode != default_for(g, e).outputNode,
        edge_ok(g, default_for(g, e)),
{
    let id = e.inputNode as int;
    assert(defaults_ok(g, id));
    let list = g.defaults[id]->Some_0;
    lemma_inputs_small(kind_of(g.nodes, id));
    lemma_pick_default(list, e, e.inputNode);
    let j = e.inputIndex as int;
    lemma_default_source(g, id, j);
    let d = default_for(g, e);
    if has_node(g.nodes, id + j + 1) {
        crate::node::lemma_literal_has_no_inputs(kind_of(g.nodes, id + j + 1));
        assert(output_kinds(kind_of(g.nodes, id + j + 1))[0] == input_kinds(kind_of(g.nodes, id))[j]);
    }
}

/// With `e`'s slot taken out, pushing the default input edge of that slot keeps the
/// invariant.
proof fn lemma_push_default_wf(g: GraphModel, e: Edge)
    requires
        g.wf(),
        has_node(g.nodes, e.inputNode as int),
        (e.inputIndex as int) < input_kinds(kind_of(g.nodes, e.inputNode as int)).len(),
    ensures
        (GraphModel { edges: take_slot(g.edges, e).push((0usize, default_for(g, e))), ..g }).wf(),
{
    let es1 = take_slot(g.edges, e);
    let d = default_for(g, e);
    let es2 = es1.push((0usize, d));
    let g2 = GraphModel { edges: es2, ..g };
    let l = d.outputNode;
    lemma_default_of_input(g, e);
    lemma_take_slot_among(g.edges, e);
    lemma_take_slot_clears(g.edges, e);
    assert forall|t: int| 0 <= t < es2.len() implies edge_ok(g2, #[trigger] es2[t].1) by {
        if t < es1.len() {
            assert(es2[t] == es1[t]);
            assert(has_edge(g.edges, es1[t].1));
            let u = choose|u: int| 0 <= u < g.edges.len() && #[trigger] g.edges[u].1 == es1[t].1;
            assert(edge_ok(g, g.edges[u].1));
        }
    }
    assert forall|id: int| 0 <= id < g2.id_count implies #[trigger] defaults_ok(g2, id) by {
        assert(defaults_ok(g, id));
    }
    assert forall|t: int| 0 <= t < es2.len() && (#[trigger] es2[t]).1.outputNode != l implies has_edge(g.edges, es2[t].1) by {
        assert(t < es1.len());
        assert(es2[t] == es1[t]);
    }
    assert forall|t: int| 0 <= t < es2.len() implies (#[trigger] es2[t]).1.inputNode != l by {
        if t < es1.len() {
            assert(es2[t] == es1[t]);
            assert(has_edge(g.edges, es1[t].1));
            let u = choose|u: int| 0 <= u < g.edges.len() && #[trigger] g.edges[u].1 == es1[t].1;
            assert(g.edges[u].1.inputNode != l);
        }
    }
    lemma_unentered_source_acyclic(g.edges, es2, l);
    assert forall|a: int, b: int| 0 <= a < es2.len() && 0 <= b < es2.len() && a != b implies !same_slot(#[trigger] es2[a].1, #[trigger] es2[b].1) by {
        if a < es1.len() && b < es1.len() {
            assert(es2[a] == es1[a] && es2[b] == es1[b]);
        } else if a < es1.len() {
            assert(es2[a] == es1[a]);
        } else {
            assert(es2[b] == es1[b]);
        }
    }
    assert forall|x: int, j: int|
        has_node(g2.nodes, x) && 0 <= j < input_kinds(kind_of(g2.nodes, x)).len() implies #[trigger] fed(g2.edges, x, j) by {
        assert(fed(g.edges, x, j));
        lemma_fed_after_take_push(g.edges, e, 0usize, d, x, j);
    }
}

/// Putting back the edge that `e` displaced closes no cycle.
proof fn lemma_restore_no_cycle(g: GraphModel, e: Edge, i: int)
    requires
        g.wf(),
        first_slot(g.edges, e) == Some(i),
    ensures
        !reach(take_slot(g.edges, e).push((0usize, g.edges[i].1)), g.edges[i].1.inputNode, g.edges[i].1.outputNode),
{
    let es1 = take_slot(g.edges, e);
    let r = g.edges[i].1;
    let es2 = es1.push((0usize, r));
    lemma_take_slot_among(g.edges, e);
    lemma_first_slot(g.edges, e);
    assert forall|t: int| 0 <= t < es2.len() implies has_edge(g.edges, (#[trigger] es2[t]).1) by {
        if t < es1.len() {
            assert(es2[t] == es1[t]);
        } else {
            crate::walk::lemma_edge_witness(g.edges, es2, i, t);
        }
    }
    lemma_edges_among_arcs(es2, g.edges);
    if reach(es2, r.inputNode, r.outputNode) {
        lemma_reach_within(es2, g.edges, r.inputNode, r.outputNode);
    }
}

/// After the displaced edge `r` of `e`'s slot is replaced by the default edge, taking
/// `r`'s slot again removes exactly that default edge.
proof fn lemma_take_pushed_slot(es1: Seq<(usize, Edge)>, d: Edge, r: Edge)
    requires
        forall|t: int| 0 <= t < es1.len() ==> !same_slot(#[trigger] es1[t].1, r),
        same_slot(d, r),
    ensures
        take_slot(es1.push((0usize, d)), r) == es1,
{
    let es2 = es1.push((0usize, d));
    assert forall|j: int| 0 <= j < es1.len() implies !same_slot(#[trigger] es2[j].1, r) by {
        assert(es2[j] == es1[j]);
    }
    lemma_first_slot_is(es2, r, es1.len() as int);
    assert(es2.remove(es1.len() as int) =~= es1);
}

impl Graph {
    /// The index of the first edge feeding the same input as `edge`.
    fn find_slot(&self, edge: &Edge) -> (r: Option<usize>)
        ensures
            match r {
                Some(i) => first_slot(self@.edges, *edge) == Some(i as int),
                None => first_slot(self@.edges, *edge) is None,
            },
    {
        let n = self.edges.len();
        let mut i: usize = 0;
        while i < n
            invariant
                i <= n,
                n == self@.edges.len(),
                forall|j: int| 0 <= j < i ==> !same_slot(#[trigger] self@.edges[j].1, *edge),
            decreases n - i,
        {
            if self.edges[i].1.inputNode == edge.inputNode && self.edges[i].1.inputIndex == edge.inputIndex {
                proof {
                    lemma_first_slot_is(self@.edges, *edge, i as int);
                }
                return Some(i);
            }
            i += 1;
        }
        proof {
            lemma_first_slot(self@.edges, *edge);
            if first_slot(self@.edges, *edge) is Some {
                let m = first_slot(self@.edges, *edge)->Some_0;
                assert(!same_slot(self@.edges[m].1, *edge));
            }
        }
        None
    }
}


impl Graph {
    /// Connects output `edge.outputIndex` of node `edge.outputNode` to input
    /// `edge.inputIndex` of node `edge.inputNode`, in place of the edge that fed that
    /// input, and recomputes the layers.
    ///
    /// Refuses an edge between sockets that do not exist or hold different kinds of
    /// values (`MismatchedNodes`), and an edge that would close a cycle (`Cycle`); in
    /// the latter case the displaced edge is put back.
    pub fn add_edge(&mut self, edge: Edge) -> (r: GraphResult<()>)
        requires
            old(self)@.wf(),
            !add_edge_panics(old(self)@, edge),
        ensures
            final(self)@.wf(),
            (final(self)@, r) == spec_add_edge(old(self)@, edge),
    {
        self.add_edge_inner(edge, true)
    }

    fn add_edge_inner(&mut self, edge: Edge, may_restore: bool) -> (r: GraphResult<()>)
        requires
            old(self)@.wf(),
            !add_edge_panics(old(self)@, edge),
            !may_restore ==> (mismatched(old(self)@, edge) || !creates_cycle(old(self)@, edge)),
        ensures
            final(self)@.wf(),
            (final(self)@, r) == spec_add_edge(old(self)@, edge),
        decreases (if may_restore { 1int } else { 0int }),
    {
        let ghost g = self@;
        let inputs = self.get_node(edge.inputNode).get_inputs();
        let ghost ik = input_kinds(kind_of(g.nodes, edge.inputNode as int));
        proof {
            assert(inputs@.len() == ik.len()) by {
                assert(crate::catalog::inputs_view(inputs@).len() == inputs@.len());
            }
        }
        if inputs.len() <= edge.inputIndex as usize {
            return Err(GraphError::MismatchedNodes);
        }
        let outputs = self.get_node(edge.outputNode).get_outputs();
        let ghost ok = output_kinds(kind_of(g.nodes, edge.outputNode as int));
        proof {
            assert(outputs@.len() == ok.len()) by {
                assert(crate::catalog::outputs_view(outputs@).len() == outputs@.len());
            }
        }
        if outputs.len() <= edge.outputIndex as usize {
            return Err(GraphError::MismatchedNodes);
        }
        proof {
            assert(inputs@[edge.inputIndex as int].IOType@ == spec_inputs(kind_of(g.nodes, edge.inputNode as int))[edge.inputIndex as int].io) by {
                assert(crate::catalog::inputs_view(inputs@)[edge.inputIndex as int] == inputs@[edge.inputIndex as int]@);
            }
            assert(outputs@[edge.outputIndex as int].IOType@ == spec_outputs(kind_of(g.nodes, edge.outputNode as int))[edge.outputIndex as int].io) by {
                assert(crate::catalog::outputs_view(outputs@)[edge.outputIndex as int] == outputs@[edge.outputIndex as int]@);
            }
        }
        if inputs[edge.inputIndex as usize].IOType.kind() != outputs[edge.outputIndex as usize].IOType.kind() {
            return Err(GraphError::MismatchedNodes);
        }
        assert(!mismatched(g, edge));
        let slot = self.find_slot(&edge);
        let removed = match slot {
            Some(i) => {
                let (_, displaced) = self.edges.remove(i);
                Some(displaced)
            },
            None => None,
        };
        self.edges.push((0, edge));
        let ghost es1 = take_slot(g.edges, edge);
        proof {
            assert(self@.edges == es1.push((0usize, edge)));
            lemma_take_slot_among(g.edges, edge);
            lemma_take_slot_clears(g.edges, edge);
            lemma_default_of_input(g, edge);
        }
        if !self.check_for_cycle(&edge) {
            proof {
                lemma_add_edge_wf(g, edge);
            }
            self.recalculate_layers();
            proof {
                lemma_relayer_wf(GraphModel { edges: es1.push((0usize, edge)), ..g });
            }
            return Ok(());
        }
        proof {
            let es2 = es1.push((0usize, edge));
            assert forall|j: int| 0 <= j < es1.len() implies #[trigger] es2[j].1 != edge by {
                assert(es2[j] == es1[j]);
                assert(!same_slot(es1[j].1, edge));
            }
            lemma_first_equal_is(es2, edge, es1.len() as int);
            assert(es2.update(es1.len() as int, (0usize, default_for(g, edge))) =~= es1.push((0usize, default_for(g, edge))));
        }
        self.remove_edge_and_replace_with_default(&edge, false)?;
        let ghost d = default_for(g, edge);
        proof {
            assert(self@ == GraphModel { edges: es1.push((0usize, d)), ..g });
            lemma_push_default_wf(g, edge);
        }
        match removed {
            Some(displaced) => {
                proof {
                    let i = first_slot(g.edges, edge)->Some_0;
                    assert(displaced == g.edges[i].1);
                    lemma_first_slot(g.edges, edge);
                    let s2 = self@;
                    assert(edge_ok(g, displaced));
                    lemma_take_pushed_slot(es1, d, displaced);
                    lemma_restore_no_cycle(g, edge, i);
                    assert(take_slot(s2.edges, displaced) == es1);
                    assert(!creates_cycle(s2, displaced));
                    assert(!mismatched(s2, displaced));
                }
                self.add_edge_inner(displaced, false)?;
            },
            None => {
                self.recalculate_layers();
                proof {
                    lemma_relayer_wf(GraphModel { edges: es1.push((0usize, d)), ..g });
                }
            },
        }
        Err(GraphError::Cycle)
    }
}


// ---------------------------------------------------------------------------
// Removing nodes
// ---------------------------------------------------------------------------

/// The edges of `g` with each edge leaving node `x` replaced by the default input
/// edge of the input it feeds (keeping its layer).
pub open spec fn rewire_from(g: GraphModel, x: usize) -> Seq<(usize, Edge)> {
    Seq::new(
        g.edges.len(),
        |i: int|
            if g.edges[i].1.outputNode == x {
                (g.edges[i].0, default_for(g, g.edges[i].1))
            } else {
                g.edges[i]
            },
    )
}

/// Holds of the edges that do not enter node `x`.
pub open spec fn not_into(x: usize) -> spec_fn((usize, Edge)) -> bool {
    |p: (usize, Edge)| p.1.inputNode != x
}

/// The graph without node `x`: edges leaving `x` are replaced by default input edges
/// and edges entering `x` are dropped, the others keeping their order.
pub open spec fn spec_detach(g: GraphModel, x: usize) -> GraphModel {
    GraphModel { nodes: g.nodes.update(x as int, None), edges: rewire_from(g, x).filter(not_into(x)), ..g }
}

/// Detaching in turn each node from `next` up to (not including) `end` that exists.
pub open spec fn detach_range(g: GraphModel, next: int, end: int) -> GraphModel
    decreases end - next,
{
    if next >= end {
        g
    } else {
        detach_range(
            if has_node(g.nodes, next) { spec_detach(g, next as usize) } else { g },
            next + 1,
            end,
        )
    }
}

/// Removing node `index`, then the literal nodes that supplied its inputs' defaults,
/// and recomputing layers if asked; fails when there is no such node.
pub open spec fn spec_remove_node(g: GraphModel, index: usize, recalculate: bool) -> (GraphModel, GraphResult<()>) {
    if !has_node(g.nodes, index as int) {
        (g, Err(GraphError::NodeNotFound))
    } else {
        let k = input_kinds(kind_of(g.nodes, index as int)).len();
        let g2 = detach_range(spec_detach(g, index), index + 1, index + k + 1);
        (if recalculate { GraphModel { edges: relayer(g2.edges), ..g2 } } else { g2 }, Ok(()))
    }
}

/// An edge that is fine in `g`, does not enter `x` and, if it leaves `x`, is the
/// default input edge of the input it feeds, is fine once `x` is gone.
proof fn lemma_detach_edge_ok(g: GraphModel, x: usize, p: Edge)
    requires
        edge_ok(g, p),
        p.inputNode != x,
        p.outputNode == x ==> p == default_edge(p.inputNode, p.inputIndex as int),
        x < g.nodes.len(),
        g.nodes.len() == g.id_count,
    ensures
        edge_ok(GraphModel { nodes: g.nodes.update(x as int, None), ..g }, p),
{
    let g2 = GraphModel { nodes: g.nodes.update(x as int, None), ..g };
    assert(g2.nodes[p.inputNode as int] == g.nodes[p.inputNode as int]);
    if p.outputNode != x {
        assert(g2.nodes[p.outputNode as int] == g.nodes[p.outputNode as int]);
    }
}

/// Removing a node keeps every recorded list of default input edges fine.
proof fn lemma_detach_defaults_ok(g: GraphModel, x: usize, es: Seq<(usize, Edge)>)
    requires
        g.wf(),
        0 <= x < g.id_count,
    ensures
        forall|id: int| 0 <= id < g.id_count ==> #[trigger] defaults_ok(
            GraphModel { nodes: g.nodes.update(x as int, None), edges: es, ..g },
            id,
        ),
{
    let g2 = GraphModel { nodes: g.nodes.update(x as int, None), edges: es, ..g };
    assert forall|id: int| 0 <= id < g.id_count implies #[trigger] defaults_ok(g2, id) by {
        assert(defaults_ok(g, id));
        assert forall|y: int| #[trigger] has_node(g2.nodes, y) implies has_node(g.nodes, y) && kind_of(g2.nodes, y) == kind_of(g.nodes, y) by {
            assert(g2.nodes[y] == g.nodes[y]);
        }
        match g.defaults[id] {
            Some(list) => {
                assert forall|j: int|
                    0 <= j < list.len() && #[trigger] has_node(g2.nodes, id + j + 1) implies {
                        &&& is_literal(kind_of(g2.nodes, id + j + 1))
                        &&& has_node(g2.nodes, id) ==> output_kinds(kind_of(g2.nodes, id + j + 1))[0] == input_kinds(kind_of(g2.nodes, id))[j]
                    } by {
                    assert(has_node(g.nodes, id + j + 1));
                }
            },
            None => {},
        }
    }
}

impl Graph {
    /// The default input edge of the input `edge` feeds.
    fn default_input_edge(&self, edge: &Edge) -> (d: Edge)
        requires
            edge.inputNode < self@.defaults.len(),
            self@.defaults[edge.inputNode as int] is Some,
        ensures
            d == default_for(self@, *edge),
    {
        let mut replacement = *edge;
        assert(self.defaultInputEdges@[edge.inputNode as int] is Some) by {
            assert(defaults_view(self.defaultInputEdges@)[edge.inputNode as int] is Some);
        }
        match &self.defaultInputEdges[edge.inputNode] {
            Some(list) => {
                let ghost l = list@;
                assert(l == self@.defaults[edge.inputNode as int]->Some_0) by {
                    assert(defaults_view(self.defaultInputEdges@)[edge.inputNode as int] == Some(l));
                }
                let mut k: usize = 0;
                while k < list.len()
                    invariant
                        k <= l.len(),
                        l == list@,
                        replacement == pick_default(l.subrange(0, k as int), *edge),
                    decreases l.len() - k,
                {
                    assert(l.subrange(0, k + 1).drop_last() =~= l.subrange(0, k as int));
                    if list[k].inputIndex == edge.inputIndex {
                        replacement = list[k];
                    }
                    k += 1;
                }
                assert(l.subrange(0, l.len() as int) =~= l);
            },
            None => {},
        }
        replacement
    }

    /// Removes node `x`: edges leaving it are replaced by default input edges and
    /// edges entering it are dropped.
    fn detach(&mut self, x: usize)
        requires
            old(self)@.wf(),
            has_node(old(self)@.nodes, x as int),
        ensures
            final(self)@ == spec_detach(old(self)@, x),
            final(self)@.wf(),
    {
        let ghost g = self@;
        let ghost rw = rewire_from(g, x);
        let ghost gn = GraphModel { nodes: g.nodes.update(x as int, None), ..g };
        let n = self.edges.len();
        let mut kept: Vec<(usize, Edge)> = Vec::new();
        let mut i: usize = 0;
        proof {
            assert(rw.take(0) =~= Seq::<(usize, Edge)>::empty());
            reveal(Seq::filter);
        }
        while i < n
            invariant
                i <= n,
                n == g.edges.len(),
                self@ == g,
                g.wf(),
                has_node(g.nodes, x as int),
                rw == rewire_from(g, x),
                gn == (GraphModel { nodes: g.nodes.update(x as int, None), ..g }),
                kept@ == rw.take(i as int).filter(not_into(x)),
                forall|k: int| 0 <= k < kept@.len() ==> edge_ok(gn, (#[trigger] kept@[k]).1),
                forall|k: int|
                    0 <= k < kept@.len() ==> has_edge(g.edges, (#[trigger] kept@[k]).1) || !crate::walk::entered(
                        g.edges,
                        kept@[k].1.outputNode,
                    ),
                forall|k: int| 0 <= k < kept@.len() ==> crate::walk::entered(g.edges, (#[trigger] kept@[k]).1.inputNode),
                slots_unique(kept@),
                forall|k: int, j: int|
                    0 <= k < kept@.len() && i <= j < n ==> !same_slot(#[trigger] kept@[k].1, #[trigger] g.edges[j].1),
            decreases n - i,
        {
            let e = self.edges[i];
            let ghost before = kept@;
            proof {
                assert(edge_ok(g, e.1));
                assert(crate::walk::entered(g.edges, e.1.inputNode)) by {
                    assert(g.edges[i as int].1.inputNode == e.1.inputNode);
                }
            }
            if e.1.inputNode != x {
                if e.1.outputNode == x {
                    proof {
                        lemma_default_of_input(g, e.1);
                    }
                    let d = self.default_input_edge(&e.1);
                    kept.push((e.0, d));
                    proof {
                        lemma_detach_edge_ok(g, x, d);
                        assert(!crate::walk::entered(g.edges, d.outputNode));
                    }
                } else {
                    kept.push(e);
                    proof {
                        lemma_detach_edge_ok(g, x, e.1);
                        crate::walk::lemma_edge_witness(g.edges, g.edges, i as int, i as int);
                    }
                }
                proof {
                    let last = kept@.len() - 1;
                    assert(same_slot(kept@[last].1, g.edges[i as int].1));
                    assert forall|a: int, b: int|
                        0 <= a < kept@.len() && 0 <= b < kept@.len() && a != b implies !same_slot(#[trigger] kept@[a].1, #[trigger] kept@[b].1) by {
                        if a < last && b < last {
                            assert(kept@[a] == before[a] && kept@[b] == before[b]);
                        } else if a < last {
                            assert(kept@[a] == before[a]);
                            assert(!same_slot(before[a].1, g.edges[i as int].1));
                        } else if b < last {
                            assert(kept@[b] == before[b]);
                            assert(!same_slot(before[b].1, g.edges[i as int].1));
                        }
                    }
                    assert forall|k: int, j: int|
                        0 <= k < kept@.len() && i + 1 <= j < n implies !same_slot(#[trigger] kept@[k].1, #[trigger] g.edges[j].1) by {
                        if k < last {
                            assert(kept@[k] == before[k]);
                        } else {
                            assert(!same_slot(g.edges[i as int].1, g.edges[j].1));
                        }
                    }
                }
            }
            proof {
                if e.1.inputNode == x && e.1.outputNode == x {
                    crate::walk::lemma_single_node_walk(g.edges, x);
                    assert(!reach(g.edges, g.edges[i as int].1.inputNode, g.edges[i as int].1.outputNode));
                }
                if e.1.inputNode != x && e.1.outputNode == x {
                    lemma_default_of_input(g, e.1);
                }
                assert(rw[i as int] == kept@.last() || rw[i as int].1.inputNode == x);
                assert(not_into(x)(rw[i as int]) <==> e.1.inputNode != x);
                assert(e.1.inputNode != x ==> kept@ == before.push(rw[i as int]));
                assert(e.1.inputNode == x ==> kept@ == before);
                assert(rw.take(i + 1) =~= rw.take(i as int).push(rw[i as int]));
                rw.take(i as int).lemma_filter_push(rw[i as int], not_into(x));
            }
            i += 1;
        }
        proof {
            assert(rw.take(n as int) =~= rw);
            crate::walk::lemma_rewired_acyclic(g.edges, kept@);
            lemma_detach_defaults_ok(g, x, kept@);
            assert forall|y: int, j: int|
                has_node(gn.nodes, y) && 0 <= j < input_kinds(kind_of(gn.nodes, y)).len() implies #[trigger] fed(kept@, y, j) by {
                assert(gn.nodes[y] == g.nodes[y]);
                assert(fed(g.edges, y, j));
                let t = choose|t: int| 0 <= t < g.edges.len() && #[trigger] g.edges[t].1.inputNode == y && g.edges[t].1.inputIndex == j;
                assert(edge_ok(g, g.edges[t].1));
                if g.edges[t].1.outputNode == x {
                    lemma_default_of_input(g, g.edges[t].1);
                }
                assert(rw[t].1.inputNode == y && rw[t].1.inputIndex == j);
                rw.lemma_filter_contains(not_into(x), t);
                let u = choose|u: int| 0 <= u < kept@.len() && kept@[u] == rw[t];
                assert(kept@[u].1.inputNode == y);
            }
        }
        self.edges = kept;
        let ghost prev_nodes = self.nodes@;
        self.nodes.set(x, None);
        proof {
            assert(nodes_view(self.nodes@) =~= nodes_view(prev_nodes).update(x as int, None));
            assert(self@ == spec_detach(g, x));
        }
    }

    /// Removes node `index` and the literal nodes that supply its inputs' defaults:
    /// edges leaving a removed node are replaced by default input edges, edges
    /// entering it are dropped. Recomputes the layers if `recalculate` is set.
    pub fn remove_node(&mut self, index: usize, recalculate: bool) -> (r: GraphResult<()>)
        requires
            old(self)@.wf(),
        ensures
            final(self)@.wf(),
            (final(self)@, r) == spec_remove_node(old(self)@, index, recalculate),
    {
        let ghost g = self@;
        if self.node(index).is_none() {
            return Err(GraphError::NodeNotFound);
        }
        let inputs = self.get_node(index).get_inputs();
        let k = inputs.len();
        proof {
            assert(inputs@.len() == spec_inputs(kind_of(g.nodes, index as int)).len()) by {
                assert(crate::catalog::inputs_view(inputs@).len() == inputs@.len());
            }
            assert(defaults_ok(g, index as int));
        }
        self.detach(index);
        let ghost g1 = self@;
        let end = index + k + 1;
        let mut i = index + 1;
        while i < end
            invariant
                index + 1 <= i <= end,
                end <= g.id_count,
                end == index + k + 1,
                self@.wf(),
                self@.id_count == g.id_count,
                detach_range(self@, i as int, end as int) == detach_range(g1, index + 1, end as int),
            decreases end - i,
        {
            if self.node(i).is_some() {
                self.detach(i);
            }
            i += 1;
        }
        if recalculate {
            self.recalculate_layers();
            proof {
                lemma_relayer_wf(detach_range(g1, index + 1, end as int));
            }
        }
        Ok(())
    }
}


// ---------------------------------------------------------------------------
// Literal values, the command history, and checks made before a request
// ---------------------------------------------------------------------------

/// The graph with node `id` replaced by the literal node that supplies `v`.
pub open spec fn spec_set_literal(g: GraphModel, id: int, v: IOValue) -> GraphModel {
    GraphModel { nodes: g.nodes.update(id, Some(literal_view(v))), ..g }
}

/// Replacing a literal node by another literal node of the same kind keeps the invariant.
proof fn lemma_set_literal_wf(g: GraphModel, id: int, v: IOValue)
    requires
        g.wf(),
        has_node(g.nodes, id),
        kind_of(g.nodes, id) == literal_view(v).kind,
    ensures
        spec_set_literal(g, id, v).wf(),
{
    let g2 = spec_set_literal(g, id, v);
    assert forall|y: int| 0 <= y < g.nodes.len() implies has_node(g2.nodes, y) == has_node(g.nodes, y) && kind_of(g2.nodes, y) == kind_of(g.nodes, y) by {
        if y != id {
            assert(g2.nodes[y] == g.nodes[y]);
        }
    }
    assert forall|i: int| 0 <= i < g2.edges.len() implies edge_ok(g2, #[trigger] g2.edges[i].1) by {
        assert(edge_ok(g, g.edges[i].1));
    }
    assert forall|x: int| 0 <= x < g2.id_count implies #[trigger] defaults_ok(g2, x) by {
        assert(defaults_ok(g, x));
        match g.defaults[x] {
            Some(list) => {
                assert forall|j: int|
                    0 <= j < list.len() && #[trigger] has_node(g2.nodes, x + j + 1) implies {
                        &&& is_literal(kind_of(g2.nodes, x + j + 1))
                        &&& has_node(g2.nodes, x) ==> output_kinds(kind_of(g2.nodes, x + j + 1))[0] == input_kinds(kind_of(g2.nodes, x))[j]
                    } by {
                    assert(has_node(g.nodes, x + j + 1));
                }
            },
            None => {},
        }
    }
}

/// The invariant does not look at the command history.
pub proof fn lemma_wf_any_history(g: GraphModel, h: Seq<CommandView>)
    requires
        g.wf(),
    ensures
        (GraphModel { history: h, ..g }).wf(),
{
    let g2 = GraphModel { history: h, ..g };
    assert forall|i: int| 0 <= i < g2.edges.len() implies edge_ok(g2, #[trigger] g2.edges[i].1) by {
        assert(edge_ok(g, g.edges[i].1));
    }
    assert forall|x: int| 0 <= x < g2.id_count implies #[trigger] defaults_ok(g2, x) by {
        assert(defaults_ok(g, x));
    }
}

/// In a graph that keeps the invariant, `remove_edge_and_replace_with_default` always
/// finds the default input edges it needs.
pub proof fn lemma_remove_edge_ok(g: GraphModel, e: Edge)
    requires
        g.wf(),
    ensures
        remove_edge_ok(g, e),
{
    lemma_first_equal(g.edges, e);
    if first_equal(g.edges, e) is Some {
        let i = first_equal(g.edges, e)->Some_0;
        assert(edge_ok(g, g.edges[i].1));
        lemma_default_of_input(g, e);
    }
}

impl Graph {
    /// Replaces the literal node `id` by the literal node that supplies `value`.
    pub(crate) fn replace_literal(&mut self, id: usize, value: NodeIOType)
        requires
            old(self)@.wf(),
            has_node(old(self)@.nodes, id as int),
            kind_of(old(self)@.nodes, id as int) == literal_view(value@).kind,
        ensures
            final(self)@ == spec_set_literal(old(self)@, id as int, value@),
            final(self)@.wf(),
    {
        let ghost g = self@;
        let ghost v = value@;
        let node = Node::literal(value);
        let ghost prev = self.nodes@;
        self.nodes.set(id, Some(node));
        proof {
            assert(nodes_view(self.nodes@) =~= nodes_view(prev).update(id as int, Some(literal_view(v))));
            lemma_set_literal_wf(g, id as int, v);
        }
    }

    /// Appends executed commands to the history.
    pub(crate) fn record_commands(&mut self, commands: Vec<Command>)
        ensures
            final(self)@ == (GraphModel { history: old(self)@.history + commands_view(commands@), ..old(self)@ }),
            old(self)@.wf() ==> final(self)@.wf(),
    {
        let mut commands = commands;
        let ghost added = commands@;
        let ghost prev = self.commandHistory.commands@;
        self.commandHistory.commands.append(&mut commands);
        assert(commands_view(self.commandHistory.commands@) =~= commands_view(prev) + commands_view(added));
        proof {
            if old(self)@.wf() {
                lemma_wf_any_history(old(self)@, self@.history);
            }
        }
    }

    /// Whether `add_edge` cannot proceed with `edge` (see `add_edge_panics`).
    pub fn add_edge_would_panic(&self, edge: &Edge) -> (r: bool)
        requires
            self@.wf(),
        ensures
            r == add_edge_panics(self@, *edge),
    {
        let ghost g = self@;
        if self.node(edge.inputNode).is_none() {
            return true;
        }
        let inputs = self.get_node(edge.inputNode).get_inputs();
        proof {
            assert(inputs@.len() == input_kinds(kind_of(g.nodes, edge.inputNode as int)).len()) by {
                assert(crate::catalog::inputs_view(inputs@).len() == inputs@.len());
            }
        }
        if inputs.len() <= edge.inputIndex as usize {
            return false;
        }
        if self.node(edge.outputNode).is_none() {
            return true;
        }
        let outputs = self.get_node(edge.outputNode).get_outputs();
        proof {
            assert(outputs@.len() == output_kinds(kind_of(g.nodes, edge.outputNode as int)).len()) by {
                assert(crate::catalog::outputs_view(outputs@).len() == outputs@.len());
            }
        }
        if outputs.len() <= edge.outputIndex as usize {
            return false;
        }
        proof {
            assert(inputs@[edge.inputIndex as int].IOType@ == spec_inputs(kind_of(g.nodes, edge.inputNode as int))[edge.inputIndex as int].io) by {
                assert(crate::catalog::inputs_view(inputs@)[edge.inputIndex as int] == inputs@[edge.inputIndex as int]@);
            }
            assert(outputs@[edge.outputIndex as int].IOType@ == spec_outputs(kind_of(g.nodes, edge.outputNode as int))[edge.outputIndex as int].io) by {
                assert(crate::catalog::outputs_view(outputs@)[edge.outputIndex as int] == outputs@[edge.outputIndex as int]@);
            }
        }
        if inputs[edge.inputIndex as usize].IOType.kind() != outputs[edge.outputIndex as usize].IOType.kind() {
            return false;
        }
        match self.find_slot(edge) {
            None => false,
            Some(i) => {
                if self.node(self.edges[i].1.outputNode).is_some() {
                    return false;
                }
                let n = self.edges.len();
                let mut trial: Vec<(usize, Edge)> = Vec::new();
                let mut j: usize = 0;
                while j < n
                    invariant
                        j <= n,
                        n == self.edges@.len(),
                        trial@ == self.edges@.take(j as int),
                    decreases n - j,
                {
                    trial.push(self.edges[j]);
                    j += 1;
                    assert(trial@ =~= self.edges@.take(j as int));
                }
                assert(trial@ =~= self.edges@);
                trial.remove(i);
                trial.push((0, *edge));
                reaches(&trial, edge.inputNode, edge.outputNode)
            },
        }
    }
}

} // verus!
