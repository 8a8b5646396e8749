use vstd::prelude::*;

use crate::edge::Edge;
use crate::graph::{
    add_edge_panics, commands_view, has_node, kind_of, lemma_remove_edge_ok, spec_add_edge,
    spec_add_node, spec_remove_edge, spec_remove_node, spec_set_literal, Command, CommandView,
    Commands, Graph, GraphError, GraphModel, GraphResult,
};
use crate::node::{spec_inputs, spec_name, IOValue, NodeIOType, NodeKind};
use crate::nodes::{ColorToImageNode, ImageInputNode, MathNode, Node, NodeView};
use crate::text::{
    is_float_literal, is_float_text, parse_i64, parse_i64_str, parse_u16, parse_u8, parse_unsigned,
    parse_usize, str_eq,
};

verus! {

// ---------------------------------------------------------------------------
// What each command does
// ---------------------------------------------------------------------------

/// The edge named by the first four arguments of `removeEdge` and `addEdge`:
/// output node, output index, input node, input index. `None` when an argument is
/// missing or is not a number of the field's type.
pub open spec fn parse_edge_args(args: Seq<Seq<char>>) -> Option<Edge> {
    if args.len() >= 4 && parse_unsigned(args[0], usize::MAX as nat) is Some && parse_unsigned(
        args[1],
        u16::MAX as nat,
    ) is Some && parse_unsigned(args[2], usize::MAX as nat) is Some && parse_unsigned(
        args[3],
        u16::MAX as nat,
    ) is Some {
        Some(
            Edge {
                outputNode: parse_unsigned(args[0], usize::MAX as nat)->Some_0 as usize,
                outputIndex: parse_unsigned(args[1], u16::MAX as nat)->Some_0 as u16,
                inputNode: parse_unsigned(args[2], usize::MAX as nat)->Some_0 as usize,
                inputIndex: parse_unsigned(args[3], u16::MAX as nat)->Some_0 as u16,
            },
        )
    } else {
        None
    }
}

/// The node kinds that `addNode` adds, by display name; other names add nothing.
pub open spec fn addable_kind(name: Seq<char>) -> Option<NodeKind> {
    if name == spec_name(NodeKind::ImageInput) {
        Some(NodeKind::ImageInput)
    } else if name == spec_name(NodeKind::ColorToImage) {
        Some(NodeKind::ColorToImage)
    } else if name == spec_name(NodeKind::Math) {
        Some(NodeKind::Math)
    } else {
        None
    }
}

/// Color channel `i` of `modifyDefault`, read from argument `i + 2`.
pub open spec fn channel(args: Seq<Seq<char>>, i: int) -> Option<nat> {
    if i + 2 < args.len() {
        parse_unsigned(args[i + 2], u8::MAX as nat)
    } else {
        None
    }
}

/// The first color channel that is missing or malformed; 4 when all four are fine.
pub open spec fn first_bad_channel(args: Seq<Seq<char>>) -> int {
    if channel(args, 0) is None {
        0
    } else if channel(args, 1) is None {
        1
    } else if channel(args, 2) is None {
        2
    } else if channel(args, 3) is None {
        3
    } else {
        4
    }
}

/// The color the four channels of `modifyDefault` denote.
pub open spec fn channels_color(args: Seq<Seq<char>>) -> [u8; 4] {
    [
        channel(args, 0)->Some_0 as u8,
        channel(args, 1)->Some_0 as u8,
        channel(args, 2)->Some_0 as u8,
        channel(args, 3)->Some_0 as u8,
    ]
}

/// `modifyDefault id _ value...`: the literal node `id` gets a new value, read from
/// the third argument (from the third to the sixth for a color). `None` when the
/// command cannot be carried out: an argument it reads is missing, or `id` is not a
/// number.
pub open spec fn spec_modify_default(g: GraphModel, args: Seq<Seq<char>>) -> Option<(GraphModel, GraphResult<()>)> {
    if args.len() == 0 {
        None
    } else {
        match parse_unsigned(args[0], usize::MAX as nat) {
            None => None,
            Some(n) => {
                let id = n as int;
                if !has_node(g.nodes, id) {
                    Some((g, Err(GraphError::NodeNotFound)))
                } else {
                    match kind_of(g.nodes, id) {
                        NodeKind::FloatLiteral => if args.len() < 3 {
                            None
                        } else if is_float_literal(args[2]) {
                            Some((spec_set_literal(g, id, IOValue::Float(args[2])), Ok(())))
                        } else {
                            Some((g, Err(GraphError::IllFormedCommand)))
                        },
                        NodeKind::IntLiteral => if args.len() < 3 {
                            None
                        } else {
                            match parse_i64(args[2]) {
                                Some(v) => Some((spec_set_literal(g, id, IOValue::Int(v as i64)), Ok(()))),
                                None => Some((g, Err(GraphError::IllFormedCommand))),
                            }
                        },
                        NodeKind::StringLiteral => if args.len() < 3 {
                            None
                        } else {
                            Some((spec_set_literal(g, id, IOValue::Str(args[2])), Ok(())))
                        },
                        NodeKind::ColorLiteral => if first_bad_channel(args) == 4 {
                            Some((spec_set_literal(g, id, IOValue::Color(channels_color(args))), Ok(())))
                        } else if first_bad_channel(args) + 2 >= args.len() {
                            None
                        } else {
                            Some((g, Err(GraphError::IllFormedCommand)))
                        },
                        _ => Some((g, Ok(()))),
                    }
                }
            },
        }
    }
}

/// The effect of one command: the next graph and the command's result, or `None`
/// when the command cannot be carried out (a missing or malformed argument that is
/// not reported as an error, an edge `add_edge` cannot handle, or no identifier
/// left for a new node).
pub open spec fn spec_command(g: GraphModel, c: CommandView) -> Option<(GraphModel, GraphResult<()>)> {
    if c.name == "removeEdge"@ {
        match parse_edge_args(c.args) {
            None => None,
            Some(e) => Some(spec_remove_edge(g, e, true)),
        }
    } else if c.name == "addEdge"@ {
        match parse_edge_args(c.args) {
            None => None,
            Some(e) => if add_edge_panics(g, e) {
                None
            } else {
                Some(spec_add_edge(g, e))
            },
        }
    } else if c.name == "addNode"@ {
        if c.args.len() == 0 {
            None
        } else {
            match addable_kind(c.args[0]) {
                None => Some((g, Ok(()))),
                Some(k) => if g.id_count + spec_inputs(k).len() + 1 > usize::MAX {
                    None
                } else {
                    Some((spec_add_node(g, NodeView { kind: k, value: None }), Ok(())))
                },
            }
        }
    } else if c.name == "removeNode"@ {
        if c.args.len() == 0 {
            None
        } else {
            match parse_unsigned(c.args[0], usize::MAX as nat) {
                None => None,
                Some(i) => Some(spec_remove_node(g, i as usize, true)),
            }
        }
    } else if c.name == "moveNode"@ {
        Some((g, Ok(())))
    } else if c.name == "modifyDefault"@ {
        spec_modify_default(g, c.args)
    } else {
        Some((g, Err(GraphError::UnknownCommand)))
    }
}

/// Running commands in order until one fails or cannot be carried out: the graph
/// then, and the outcome: the first error (`Ok` when all succeeded), or `None` when
/// the run stopped at a command that cannot be carried out.
pub open spec fn spec_run(g: GraphModel, cs: Seq<CommandView>) -> (GraphModel, Option<GraphResult<()>>)
    decreases cs.len(),
{
    if cs.len() == 0 {
        (g, Some(Ok(())))
    } else {
        match spec_command(g, cs[0]) {
            None => (g, None),
            Some((g1, Err(e))) => (g1, Some(Err(e))),
            Some((g1, Ok(_))) => spec_run(g1, cs.drop_first()),
        }
    }
}

/// Executing a batch of commands: they run in order until one fails; when all
/// succeed they are appended to the history.
pub open spec fn spec_execute_commands(g: GraphModel, cs: Seq<CommandView>) -> (GraphModel, Option<GraphResult<()>>) {
    let (g1, r) = spec_run(g, cs);
    if r == Some(Ok::<(), GraphError>(())) {
        (GraphModel { history: g1.history + cs, ..g1 }, r)
    } else {
        (g1, r)
    }
}

// ---------------------------------------------------------------------------
// Executing commands
// ---------------------------------------------------------------------------

/// Reads the edge named by the first four arguments of `cmd`.
fn parse_edge(cmd: &Command) -> (r: Option<Edge>)
    ensures
        r == parse_edge_args(cmd@.args),
{
    if cmd.args.len() < 4 {
        return None;
    }
    proof {
        assert(cmd@.args[0] == cmd.args@[0]@);
        assert(cmd@.args[1] == cmd.args@[1]@);
        assert(cmd@.args[2] == cmd.args@[2]@);
        assert(cmd@.args[3] == cmd.args@[3]@);
    }
    let outputNode = parse_usize(cmd.args[0].as_str());
    let outputIndex = parse_u16(cmd.args[1].as_str());
    let inputNode = parse_usize(cmd.args[2].as_str());
    let inputIndex = parse_u16(cmd.args[3].as_str());
    match (outputNode, outputIndex, inputNode, inputIndex) {
        (Some(outputNode), Some(outputIndex), Some(inputNode), Some(inputIndex)) => {
            Some(Edge { outputNode, outputIndex, inputNode, inputIndex })
        },
        _ => None,
    }
}

/// The argument `i` of `cmd` as a view.
proof fn lemma_arg_view(cmd: &Command, i: int)
    requires
        0 <= i < cmd.args@.len(),
    ensures
        cmd@.args[i] == cmd.args@[i]@,
        cmd@.args.len() == cmd.args@.len(),
{
}

impl Graph {
    /// Carries out `modifyDefault`; `None` when it cannot be carried out.
    fn modify_default(&mut self, cmd: &Command) -> (r: Option<GraphResult<()>>)
        requires
            old(self)@.wf(),
        ensures
            final(self)@.wf(),
            match spec_modify_default(old(self)@, cmd@.args) {
                None => r is None && final(self)@ == old(self)@,
                Some((g2, r2)) => r == Some(r2) && final(self)@ == g2,
            },
    {
        let ghost g = self@;
        let ghost args = cmd@.args;
        if cmd.args.len() == 0 {
            return None;
        }
        proof {
            lemma_arg_view(cmd, 0);
        }
        let id = match parse_usize(cmd.args[0].as_str()) {
            Some(id) => id,
            None => return None,
        };
        let kind = match self.node(id) {
            Some(node) => node.kind(),
            None => return Some(Err(GraphError::NodeNotFound)),
        };
        match kind {
            NodeKind::FloatLiteral => {
                if cmd.args.len() < 3 {
                    return None;
                }
                proof {
                    lemma_arg_view(cmd, 2);
                }
                if !is_float_text(cmd.args[2].as_str()) {
                    return Some(Err(GraphError::IllFormedCommand));
                }
                self.replace_literal(id, NodeIOType::FloatType(cmd.args[2].clone()));
                Some(Ok(()))
            },
            NodeKind::IntLiteral => {
                if cmd.args.len() < 3 {
                    return None;
                }
                proof {
                    lemma_arg_view(cmd, 2);
                }
                match parse_i64_str(cmd.args[2].as_str()) {
                    Some(v) => {
                        self.replace_literal(id, NodeIOType::IntType(v));
                        Some(Ok(()))
                    },
                    None => Some(Err(GraphError::IllFormedCommand)),
                }
            },
            NodeKind::StringLiteral => {
                if cmd.args.len() < 3 {
                    return None;
                }
                proof {
                    lemma_arg_view(cmd, 2);
                }
                self.replace_literal(id, NodeIOType::StringType(cmd.args[2].clone()));
                Some(Ok(()))
            },
            NodeKind::ColorLiteral => {
                let mut channels: [u8; 4] = [0u8; 4];
                let mut i: usize = 0;
                while i < 4
                    invariant
                        i <= 4,
                        args == cmd@.args,
                        args.len() == cmd.args@.len(),
                        self@ == g,
                        g.wf(),
                        has_node(g.nodes, id as int),
                        kind_of(g.nodes, id as int) == NodeKind::ColorLiteral,
                        parse_unsigned(args[0], usize::MAX as nat) == Some(id as nat),
                        forall|j: int| 0 <= j < i ==> #[trigger] channel(args, j) == Some(channels@[j] as nat),
                    decreases 4 - i,
                {
                    if i + 2 >= cmd.args.len() {
                        proof {
                            assert(first_bad_channel(args) == i);
                        }
                        return None;
                    }
                    proof {
                        lemma_arg_view(cmd, i + 2);
                    }
                    match parse_u8(cmd.args[i + 2].as_str()) {
                        Some(v) => {
                            channels[i] = v;
                        },
                        None => {
                            proof {
                                assert(first_bad_channel(args) == i);
                            }
                            return Some(Err(GraphError::IllFormedCommand));
                        },
                    }
                    i += 1;
                }
                proof {
                    assert(first_bad_channel(args) == 4);
                    assert(channels == channels_color(args)) by {
                        assert(channels@[0] == channels_color(args)@[0]);
                        assert(channels@[1] == channels_color(args)@[1]);
                        assert(channels@[2] == channels_color(args)@[2]);
                        assert(channels@[3] == channels_color(args)@[3]);
                        assert(channels@ =~= channels_color(args)@);
                    }
                }
                self.replace_literal(id, NodeIOType::ColorType(channels));
                Some(Ok(()))
            },
            _ => Some(Ok(())),
        }
    }

    /// Carries out one command; `None`, with the graph unchanged, when it cannot be
    /// carried out.
    pub fn run_command(&mut self, cmd: &Command) -> (r: Option<GraphResult<()>>)
        requires
            old(self)@.wf(),
        ensures
            final(self)@.wf(),
            match spec_command(old(self)@, cmd@) {
                None => r is None && final(self)@ == old(self)@,
                Some((g2, r2)) => r == Some(r2) && final(self)@ == g2,
            },
    {
        let ghost g = self@;
        let name = cmd.name.as_str();
        if str_eq(name, "removeEdge") {
            match parse_edge(cmd) {
                None => None,
                Some(edge) => {
                    proof {
                        lemma_remove_edge_ok(g, edge);
                    }
                    Some(self.remove_edge_and_replace_with_default(&edge, true))
                },
            }
        } else if str_eq(name, "addEdge") {
            match parse_edge(cmd) {
                None => None,
                Some(edge) => {
                    if self.add_edge_would_panic(&edge) {
                        None
                    } else {
                        Some(self.add_edge(edge))
                    }
                },
            }
        } else if str_eq(name, "addNode") {
            if cmd.args.len() == 0 {
                return None;
            }
            proof {
                lemma_arg_view(cmd, 0);
            }
            let arg = cmd.args[0].as_str();
            let node = if str_eq(arg, NodeKind::ImageInput.get_node_name_static().as_str()) {
                Node::ImageInput(ImageInputNode::new())
            } else if str_eq(arg, NodeKind::ColorToImage.get_node_name_static().as_str()) {
                Node::ColorToImage(ColorToImageNode::new())
            } else if str_eq(arg, NodeKind::Math.get_node_name_static().as_str()) {
                Node::Math(MathNode::new())
            } else {
                return Some(Ok(()));
            };
            let inputs = node.get_inputs();
            let count = inputs.len();
            proof {
                assert(count == spec_inputs(node@.kind).len()) by {
                    assert(crate::catalog::inputs_view(inputs@).len() == inputs@.len());
                }
            }
            let next = self.id_count();
            if next > usize::MAX - count - 1 {
                return None;
            }
            self.add_node(node);
            Some(Ok(()))
        } else if str_eq(name, "removeNode") {
            if cmd.args.len() == 0 {
                return None;
            }
            proof {
                lemma_arg_view(cmd, 0);
            }
            match parse_usize(cmd.args[0].as_str()) {
                None => None,
                Some(index) => Some(self.remove_node(index, true)),
            }
        } else if str_eq(name, "moveNode") {
            Some(Ok(()))
        } else if str_eq(name, "modifyDefault") {
            self.modify_default(cmd)
        } else {
            Some(Err(GraphError::UnknownCommand))
        }
    }
}


impl Graph {
    /// Executes the commands in order until one fails, and returns the first error;
    /// when all succeed they are appended to the command history.
    pub fn execute_commands(&mut self, commands: Commands) -> (r: GraphResult<()>)
        requires
            old(self)@.wf(),
            spec_execute_commands(old(self)@, commands_view(commands.commands@)).1 is Some,
        ensures
            final(self)@.wf(),
            spec_execute_commands(old(self)@, commands_view(commands.commands@)) == (final(self)@, Some(r)),
    {
        match self.try_execute_commands(commands) {
            Some(r) => r,
            None => Err(GraphError::UnknownCommand),
        }
    }

    /// Executes the commands like `execute_commands`, but stops before a command that
    /// cannot be carried out (a missing or malformed argument that is not reported as
    /// an error, an edge `add_edge` cannot handle, or no identifier left for a new
    /// node) and then returns `None`.
    pub fn try_execute_commands(&mut self, commands: Commands) -> (r: Option<GraphResult<()>>)
        requires
            old(self)@.wf(),
        ensures
            final(self)@.wf(),
            spec_execute_commands(old(self)@, commands_view(commands.commands@)) == (final(self)@, r),
    {
        let ghost g0 = self@;
        let ghost cs = commands_view(commands.commands@);
        let n = commands.commands.len();
        let mut i: usize = 0;
        assert(cs.skip(0) =~= cs);
        while i < n
            invariant
                i <= n,
                n == commands.commands@.len(),
                cs == commands_view(commands.commands@),
                g0 == old(self)@,
                self@.wf(),
                spec_run(self@, cs.skip(i as int)) == spec_run(g0, cs),
            decreases n - i,
        {
            let ghost g = self@;
            proof {
                assert(cs.skip(i as int)[0] == commands.commands@[i as int]@);
                assert(cs.skip(i as int).drop_first() =~= cs.skip(i + 1));
            }
            let outcome = self.run_command(&commands.commands[i]);
            proof {
                assert(spec_run(g, cs.skip(i as int)) == match spec_command(g, cs.skip(i as int)[0]) {
                    None => (g, None),
                    Some((g1, Err(e))) => (g1, Some(Err(e))),
                    Some((g1, Ok(_))) => spec_run(g1, cs.skip(i as int).drop_first()),
                });
            }
            match outcome {
                None => {
                    assert(spec_run(g0, cs) == (g, None::<GraphResult<()>>));
                    return None;
                },
                Some(Err(e)) => {
                    assert(spec_run(g0, cs) == (self@, Some(Err::<(), GraphError>(e))));
                    return Some(Err(e));
                },
                Some(Ok(())) => {},
            }
            i += 1;
        }
        proof {
            assert(cs.skip(n as int) =~= Seq::<CommandView>::empty());
        }
        self.record_commands(commands.commands);
        proof {
            crate::graph::lemma_wf_any_history(g0, g0.history);
        }
        Some(Ok(()))
    }
}

} // verus!
