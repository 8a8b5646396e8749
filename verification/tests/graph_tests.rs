use photo_graph::edge::Edge;
use photo_graph::graph::{Command, Commands, Graph, GraphError};
use photo_graph::node::NodeKind;
use photo_graph::nodes::{ColorToImageNode, ImageInputNode, MathNode, Node, RotationNode};

fn edge(inputIndex: u16, outputIndex: u16, inputNode: usize, outputNode: usize) -> Edge {
    Edge { inputIndex, outputIndex, inputNode, outputNode }
}

fn position(graph: &Graph, e: Edge) -> usize {
    graph.edges().iter().position(|elem| elem.1 == e).unwrap()
}

#[test]
fn add_node_test() {
    let mut graph = Graph::new();
    graph.add_node(Node::ImageInput(ImageInputNode::new()));
    assert_eq!(graph.edges()[1].1, Edge { inputIndex: 0, outputIndex: 0, inputNode: 2, outputNode: 3 });
}

#[test]
fn simple_add_edge_test() {
    let mut graph = Graph::new();
    graph.add_node(Node::ImageInput(ImageInputNode::new()));
    graph.add_edge(Edge { inputIndex: 0, outputIndex: 0, inputNode: 0, outputNode: 2 }).unwrap();
    assert_eq!(graph.edges()[1].1, Edge { inputIndex: 0, outputIndex: 0, inputNode: 0, outputNode: 2 });
    assert_eq!(graph.edges()[1].0, 1);
}

#[test]
fn remove_edge_test() {
    let mut graph = Graph::new();
    graph.add_node(Node::ImageInput(ImageInputNode::new()));
    graph.add_edge(Edge { inputIndex: 0, outputIndex: 0, inputNode: 0, outputNode: 2 }).unwrap();
    graph
        .remove_edge_and_replace_with_default(&Edge { inputIndex: 0, outputIndex: 0, inputNode: 0, outputNode: 2 }, true)
        .unwrap();
    assert_eq!(graph.edges()[1].1, Edge { inputIndex: 0, outputIndex: 0, inputNode: 0, outputNode: 1 });
    assert_eq!(graph.edges()[1].0, 0);
}

#[test]
fn simple_loop_check_test() {
    let mut graph = Graph::new();
    let res = graph.add_edge(Edge { inputIndex: 0, outputIndex: 0, inputNode: 0, outputNode: 0 });
    assert_eq!(res, Err(GraphError::Cycle));
}

#[test]
fn loop_check_test() {
    let mut graph = Graph::new();
    graph.add_node(Node::Rotation(RotationNode::new()));
    graph.add_node(Node::Rotation(RotationNode::new()));
    graph.add_node(Node::Rotation(RotationNode::new()));
    graph.add_edge(Edge { inputIndex: 0, outputIndex: 0, inputNode: 2, outputNode: 5 }).unwrap();
    graph.add_edge(Edge { inputIndex: 0, outputIndex: 0, inputNode: 5, outputNode: 8 }).unwrap();

    let res = graph.add_edge(Edge { inputIndex: 0, outputIndex: 0, inputNode: 8, outputNode: 2 });
    assert_eq!(res, Err(GraphError::Cycle));

    let mut graph = Graph::new();
    //2
    graph.add_node(Node::ColorToImage(ColorToImageNode::new()));
    //6
    graph.add_node(Node::Math(MathNode::new()));
    //10
    graph.add_node(Node::Math(MathNode::new()));
    //14
    graph.add_node(Node::Math(MathNode::new()));
    //18
    graph.add_node(Node::Math(MathNode::new()));
    //22
    graph.add_node(Node::Math(MathNode::new()));

    graph.add_edge(Edge { inputIndex: 1, outputIndex: 0, inputNode: 2, outputNode: 6 }).unwrap();
    graph.add_edge(Edge { inputIndex: 1, outputIndex: 0, inputNode: 6, outputNode: 10 }).unwrap();
    graph.add_edge(Edge { inputIndex: 2, outputIndex: 0, inputNode: 6, outputNode: 14 }).unwrap();
    graph.add_edge(Edge { inputIndex: 1, outputIndex: 0, inputNode: 10, outputNode: 22 }).unwrap();
    graph.add_edge(Edge { inputIndex: 1, outputIndex: 0, inputNode: 14, outputNode: 18 }).unwrap();
    graph.add_edge(Edge { inputIndex: 1, outputIndex: 0, inputNode: 18, outputNode: 22 }).unwrap();

    let res = graph.add_edge(Edge { inputIndex: 0, outputIndex: 0, inputNode: 0, outputNode: 2 });
    assert_eq!(res, Ok(()));
}

#[test]
fn add_remove_edge_test() {
    let mut graph = Graph::new();
    //2
    graph.add_node(Node::Rotation(RotationNode::new()));
    //5
    graph.add_node(Node::Rotation(RotationNode::new()));
    //8
    graph.add_node(Node::Rotation(RotationNode::new()));

    graph.add_edge(Edge { inputIndex: 0, outputIndex: 0, inputNode: 2, outputNode: 5 }).unwrap();
    graph.add_edge(Edge { inputIndex: 0, outputIndex: 0, inputNode: 5, outputNode: 8 }).unwrap();

    //11
    graph.add_node(Node::ImageInput(ImageInputNode::new()));
    graph.add_edge(Edge { inputIndex: 0, outputIndex: 0, inputNode: 8, outputNode: 11 }).unwrap();

    //13
    graph.add_node(Node::Math(MathNode::new()));
    graph.add_edge(Edge { inputIndex: 1, outputIndex: 0, inputNode: 8, outputNode: 13 }).unwrap();

    //17
    graph.add_node(Node::Math(MathNode::new()));
    graph.add_edge(Edge { inputIndex: 1, outputIndex: 0, inputNode: 5, outputNode: 17 }).unwrap();

    //21
    graph.add_node(Node::Math(MathNode::new()));
    graph.add_edge(Edge { inputIndex: 1, outputIndex: 0, inputNode: 17, outputNode: 21 }).unwrap();

    //25
    graph.add_node(Node::Math(MathNode::new()));
    graph.add_edge(Edge { inputIndex: 1, outputIndex: 0, inputNode: 21, outputNode: 25 }).unwrap();

    graph.add_edge(Edge { inputIndex: 0, outputIndex: 0, inputNode: 0, outputNode: 2 }).unwrap();
    assert_eq!(graph.edges().last().unwrap().1, Edge { inputIndex: 0, outputIndex: 0, inputNode: 0, outputNode: 2 });
    assert_eq!(graph.edges().last().unwrap().0, 5);
    assert_eq!(
        graph.edges()[graph
            .edges()
            .iter()
            .position(|elem| elem.1 == Edge { inputIndex: 0, outputIndex: 0, inputNode: 5, outputNode: 8 })
            .unwrap()]
            .0,
        2
    );
    assert_eq!(
        graph.edges()[graph
            .edges()
            .iter()
            .position(|elem| elem.1 == Edge { inputIndex: 1, outputIndex: 0, inputNode: 5, outputNode: 17 })
            .unwrap()]
            .0,
        3
    );

    graph
        .remove_edge_and_replace_with_default(&Edge { inputIndex: 1, outputIndex: 0, inputNode: 5, outputNode: 17 }, true)
        .unwrap();
    assert_eq!(graph.edges().last().unwrap().0, 4);
}

// ---------------------------------------------------------------------------

#[test]
fn new_graph_holds_final_node_and_bitmap_literal() {
    let graph = Graph::new();
    assert_eq!(graph.id_count(), 2);
    assert_eq!(graph.node(0).unwrap().kind(), NodeKind::Final);
    assert_eq!(graph.node(1).unwrap().kind(), NodeKind::BitmapLiteral);
    assert!(graph.node(2).is_none());
    assert_eq!(graph.edges().len(), 1);
    assert_eq!(graph.edges()[0], (0, edge(0, 0, 0, 1)));
    assert_eq!(graph.commandHistory.commands.len(), 0);
    assert_eq!(graph.commandHistory.graphID, 0);
    assert_eq!(graph.history().graphID, 0);
    assert!(graph.history().commands.is_empty());
}

#[test]
fn add_node_gives_each_input_a_literal() {
    let mut graph = Graph::new();
    graph.add_node(Node::Math(MathNode::new()));
    assert_eq!(graph.id_count(), 6);
    assert_eq!(graph.node(2).unwrap().kind(), NodeKind::Math);
    assert_eq!(graph.node(3).unwrap().kind(), NodeKind::IntLiteral);
    assert_eq!(graph.node(4).unwrap().kind(), NodeKind::FloatLiteral);
    assert_eq!(graph.node(5).unwrap().kind(), NodeKind::FloatLiteral);
    assert_eq!(graph.edges()[1].1, edge(0, 0, 2, 3));
    assert_eq!(graph.edges()[2].1, edge(1, 0, 2, 4));
    assert_eq!(graph.edges()[3].1, edge(2, 0, 2, 5));
}

#[test]
fn add_edge_refuses_mismatched_sockets() {
    let mut graph = Graph::new();
    graph.add_node(Node::Math(MathNode::new()));
    let before: Vec<(usize, Edge)> = graph.edges().clone();
    // index beyond the inputs of the final node
    assert_eq!(graph.add_edge(edge(2, 0, 0, 2)), Err(GraphError::MismatchedNodes));
    // index equal to the number of inputs of the final node
    assert_eq!(graph.add_edge(edge(1, 0, 0, 2)), Err(GraphError::MismatchedNodes));
    // index equal to the number of outputs of the math node
    assert_eq!(graph.add_edge(edge(0, 1, 0, 2)), Err(GraphError::MismatchedNodes));
    // a float output into a bitmap input
    assert_eq!(graph.add_edge(edge(0, 0, 0, 2)), Err(GraphError::MismatchedNodes));
    assert_eq!(graph.edges(), &before);
}

#[test]
fn refused_cycle_keeps_the_edges() {
    let mut graph = Graph::new();
    graph.add_node(Node::Rotation(RotationNode::new()));
    graph.add_node(Node::Rotation(RotationNode::new()));
    graph.add_edge(edge(0, 0, 2, 5)).unwrap();
    let mut before: Vec<Edge> = graph.edges().iter().map(|p| p.1).collect();
    assert_eq!(graph.add_edge(edge(0, 0, 5, 2)), Err(GraphError::Cycle));
    let mut after: Vec<Edge> = graph.edges().iter().map(|p| p.1).collect();
    before.sort_by_key(|e| (e.inputNode, e.inputIndex));
    after.sort_by_key(|e| (e.inputNode, e.inputIndex));
    assert_eq!(before, after);
    // the displaced edge went back at the end of the list
    assert_eq!(graph.edges().last().unwrap().1, edge(0, 0, 5, 6));
}

#[test]
fn remove_missing_edge_is_refused() {
    let mut graph = Graph::new();
    assert_eq!(
        graph.remove_edge_and_replace_with_default(&edge(0, 0, 0, 7), true),
        Err(GraphError::EdgeNotFound)
    );
    assert_eq!(graph.edges().len(), 1);
}

#[test]
fn remove_node_drops_it_and_its_literals() {
    let mut graph = Graph::new();
    graph.add_node(Node::Rotation(RotationNode::new()));
    graph.add_edge(edge(0, 0, 0, 2)).unwrap();
    graph.remove_node(2, true).unwrap();
    assert!(graph.node(2).is_none());
    assert!(graph.node(3).is_none());
    assert!(graph.node(4).is_none());
    // the final node is fed by its default literal again
    assert_eq!(graph.edges().len(), 1);
    assert_eq!(graph.edges()[0], (0, edge(0, 0, 0, 1)));
    assert_eq!(graph.remove_node(2, true), Err(GraphError::NodeNotFound));
    assert_eq!(graph.remove_node(40, false), Err(GraphError::NodeNotFound));
}

#[test]
fn layers_follow_dependencies() {
    let mut graph = Graph::new();
    graph.add_node(Node::Rotation(RotationNode::new()));
    graph.add_node(Node::Rotation(RotationNode::new()));
    graph.add_edge(edge(0, 0, 2, 5)).unwrap();
    graph.add_edge(edge(0, 0, 0, 2)).unwrap();
    let es = graph.edges();
    for p in es.iter() {
        for q in es.iter() {
            if q.1.inputNode == p.1.outputNode {
                assert!(q.0 < p.0);
            }
        }
    }
    assert_eq!(es[position(&graph, edge(0, 0, 0, 2))].0, 2);
    assert_eq!(es[position(&graph, edge(0, 0, 2, 5))].0, 1);
}

#[test]
fn process_order_goes_layer_by_layer() {
    let mut graph = Graph::new();
    graph.add_node(Node::Rotation(RotationNode::new()));
    graph.add_edge(edge(0, 0, 0, 2)).unwrap();
    let order = graph.process_order();
    assert_eq!(order.len(), graph.edges().len());
    assert_eq!(order, vec![edge(0, 0, 2, 3), edge(1, 0, 2, 4), edge(0, 0, 0, 2)]);
}

#[test]
fn check_for_cycle_sees_reachability() {
    let mut graph = Graph::new();
    graph.add_node(Node::Rotation(RotationNode::new()));
    graph.add_edge(edge(0, 0, 0, 2)).unwrap();
    assert!(graph.check_for_cycle(&edge(0, 0, 2, 0)));
    assert!(!graph.check_for_cycle(&edge(0, 0, 0, 2)));
    assert!(graph.check_for_cycle(&edge(0, 0, 3, 3)));
}

fn command(name: &str, args: &[&str]) -> Command {
    Command { name: name.to_string(), args: args.iter().map(|a| a.to_string()).collect() }
}

fn batch(commands: Vec<Command>) -> Commands {
    Commands { commands, graphID: 0 }
}

#[test]
fn commands_edit_the_graph_and_are_recorded() {
    let mut graph = Graph::new();
    let r = graph.execute_commands(batch(vec![
        command("addNode", &["Image input"]),
        command("addEdge", &["2", "0", "0", "0"]),
        command("moveNode", &["2", "10", "10"]),
        command("modifyDefault", &["3", "0", "other.png"]),
    ]));
    assert_eq!(r, Ok(()));
    assert_eq!(graph.node(2).unwrap().kind(), NodeKind::ImageInput);
    assert_eq!(graph.edges().last().unwrap().1, edge(0, 0, 0, 2));
    match graph.node(3).unwrap() {
        Node::StringLiteral(n) => assert_eq!(n.stringLiteral, "other.png"),
        _ => panic!("not a string literal"),
    }
    assert_eq!(graph.commandHistory.commands.len(), 4);
    assert_eq!(graph.commandHistory.commands[0].name, "addNode");
}

#[test]
fn failed_commands_are_not_recorded() {
    let mut graph = Graph::new();
    let r = graph.execute_commands(batch(vec![command("addNode", &["Math"]), command("paint", &[])]));
    assert_eq!(r, Err(GraphError::UnknownCommand));
    // the first command took effect, the history is unchanged
    assert_eq!(graph.node(2).unwrap().kind(), NodeKind::Math);
    assert_eq!(graph.commandHistory.commands.len(), 0);
}

#[test]
fn modify_default_errors() {
    let mut graph = Graph::new();
    graph.execute_commands(batch(vec![command("addNode", &["Math"])])).unwrap();
    assert_eq!(
        graph.execute_commands(batch(vec![command("modifyDefault", &["4", "0", "1.5.2"])])),
        Err(GraphError::IllFormedCommand)
    );
    assert_eq!(
        graph.execute_commands(batch(vec![command("modifyDefault", &["3", "0", "seven"])])),
        Err(GraphError::IllFormedCommand)
    );
    assert_eq!(
        graph.execute_commands(batch(vec![command("modifyDefault", &["99", "0", "1"])])),
        Err(GraphError::NodeNotFound)
    );
    graph.execute_commands(batch(vec![command("modifyDefault", &["4", "0", "-2.5e3"])])).unwrap();
    match graph.node(4).unwrap() {
        Node::FloatLiteral(n) => assert_eq!(n.floatLiteral, "-2.5e3"),
        _ => panic!("not a float literal"),
    }
    graph.execute_commands(batch(vec![command("modifyDefault", &["3", "0", "-12"])])).unwrap();
    match graph.node(3).unwrap() {
        Node::IntLiteral(n) => assert_eq!(n.intLiteral, -12),
        _ => panic!("not an integer literal"),
    }
}

#[test]
fn modify_default_color() {
    let mut graph = Graph::new();
    graph.execute_commands(batch(vec![command("addNode", &["Color to image"])])).unwrap();
    assert_eq!(
        graph.execute_commands(batch(vec![command("modifyDefault", &["3", "0", "1", "300", "3", "4"])])),
        Err(GraphError::IllFormedCommand)
    );
    graph.execute_commands(batch(vec![command("modifyDefault", &["3", "0", "1", "2", "3", "4"])])).unwrap();
    match graph.node(3).unwrap() {
        Node::ColorLiteral(n) => assert_eq!(n.color, [1, 2, 3, 4]),
        _ => panic!("not a color literal"),
    }
    // a missing channel cannot be carried out
    assert_eq!(graph.try_execute_commands(batch(vec![command("modifyDefault", &["3", "0", "1", "2"])])), None);
}

#[test]
fn commands_that_cannot_be_carried_out() {
    let mut graph = Graph::new();
    assert_eq!(graph.try_execute_commands(batch(vec![command("addEdge", &["2", "0"])])), None);
    assert_eq!(graph.try_execute_commands(batch(vec![command("removeNode", &["x"])])), None);
    assert_eq!(graph.try_execute_commands(batch(vec![command("addNode", &[])])), None);
    // an edge from a node that does not exist
    assert_eq!(graph.try_execute_commands(batch(vec![command("addEdge", &["9", "0", "0", "0"])])), None);
    assert_eq!(
        graph.try_execute_commands(batch(vec![command("removeEdge", &["1", "0", "0", "0"])])),
        Some(Ok(()))
    );
    assert_eq!(graph.edges().len(), 1);
}

#[test]
fn remove_node_command() {
    let mut graph = Graph::new();
    let r = graph.execute_commands(batch(vec![
        command("addNode", &["Color to image"]),
        command("addEdge", &["2", "0", "0", "0"]),
        command("removeNode", &["2"]),
    ]));
    assert_eq!(r, Ok(()));
    assert!(graph.node(2).is_none());
    assert_eq!(graph.edges().len(), 1);
    assert_eq!(graph.edges()[0], (0, edge(0, 0, 0, 1)));
    assert_eq!(
        graph.execute_commands(batch(vec![command("removeNode", &["2"])])),
        Err(GraphError::NodeNotFound)
    );
}

#[test]
fn add_edge_would_panic_on_missing_nodes() {
    let graph = Graph::new();
    assert!(graph.add_edge_would_panic(&edge(0, 0, 7, 0)));
    assert!(graph.add_edge_would_panic(&edge(0, 0, 0, 7)));
    assert!(!graph.add_edge_would_panic(&edge(3, 0, 0, 7)));
    assert!(!graph.add_edge_would_panic(&edge(1, 0, 0, 7)));
    assert!(!graph.add_edge_would_panic(&edge(0, 1, 0, 1)));
    assert!(!graph.add_edge_would_panic(&edge(0, 0, 0, 1)));
}

#[test]
fn command_duplicate_copies() {
    let c = command("addEdge", &["1", "2"]);
    let d = c.duplicate();
    assert_eq!(d.name, "addEdge");
    assert_eq!(d.args, vec!["1".to_string(), "2".to_string()]);
}

fn sorted_pairs(graph: &Graph) -> Vec<(usize, usize, u16, usize, u16)> {
    let mut v: Vec<(usize, usize, u16, usize, u16)> =
        graph.edges().iter().map(|(l, e)| (*l, e.inputNode, e.inputIndex, e.outputNode, e.outputIndex)).collect();
    v.sort();
    v
}

#[test]
fn removing_an_added_edge_restores_the_layered_edges() {
    let mut graph = Graph::new();
    graph.add_node(Node::Rotation(RotationNode::new()));
    graph.add_node(Node::Rotation(RotationNode::new()));
    graph.add_edge(edge(0, 0, 0, 2)).unwrap();
    let before = sorted_pairs(&graph);
    let e = edge(0, 0, 2, 5);
    graph.add_edge(e).unwrap();
    assert_ne!(sorted_pairs(&graph), before);
    graph.remove_edge_and_replace_with_default(&e, true).unwrap();
    assert_eq!(sorted_pairs(&graph), before);
}

#[test]
fn accepted_edge_layers_are_depths() {
    let mut graph = Graph::new();
    graph.add_node(Node::Rotation(RotationNode::new()));
    graph.add_node(Node::Rotation(RotationNode::new()));
    graph.add_edge(edge(0, 0, 0, 2)).unwrap();
    graph.add_edge(edge(0, 0, 2, 5)).unwrap();
    // literal 6 -> rotation 5 -> rotation 2 -> final 0
    let layer_of = |i: usize, n: u16| graph.edges().iter().find(|p| p.1.inputNode == i && p.1.inputIndex == n).unwrap().0;
    assert_eq!(layer_of(5, 0), 0);
    assert_eq!(layer_of(2, 0), 1);
    assert_eq!(layer_of(0, 0), 2);
}

#[test]
fn edge_commands_match_the_direct_calls() {
    let mut g1 = Graph::new();
    let mut g2 = Graph::new();
    g1.add_node(Node::Rotation(RotationNode::new()));
    g2.add_node(Node::Rotation(RotationNode::new()));
    let e = edge(0, 0, 0, 2);
    assert_eq!(g1.execute_commands(batch(vec![command("addEdge", &["2", "0", "0", "0"])])), g2.add_edge(e));
    assert_eq!(g1.edges(), g2.edges());
    assert_eq!(g1.commandHistory.commands.len(), 1);
    let bad = edge(0, 0, 2, 0);
    assert_eq!(g1.execute_commands(batch(vec![command("addEdge", &["0", "0", "2", "0"])])), g2.add_edge(bad));
    assert_eq!(g1.edges(), g2.edges());
    assert_eq!(g1.commandHistory.commands.len(), 1);
    assert_eq!(
        g1.execute_commands(batch(vec![command("removeEdge", &["2", "0", "0", "0"])])),
        g2.remove_edge_and_replace_with_default(&e, true)
    );
    assert_eq!(g1.edges(), g2.edges());
    assert_eq!(g1.commandHistory.commands.len(), 2);
}

#[test]
fn removed_nodes_keep_no_edges() {
    let mut graph = Graph::new();
    graph.add_node(Node::Rotation(RotationNode::new()));
    graph.add_node(Node::Rotation(RotationNode::new()));
    // rotation 5 feeds rotation 2, which feeds the final node; a literal of 5 also feeds 2's second input
    graph.add_edge(edge(0, 0, 2, 5)).unwrap();
    graph.add_edge(edge(0, 0, 0, 2)).unwrap();
    graph.add_edge(edge(1, 0, 2, 7)).unwrap();
    let kept = edge(0, 0, 0, 2);
    graph.remove_node(5, true).unwrap();
    for (_, e) in graph.edges() {
        assert!(!(5..=7).contains(&e.inputNode));
        assert!(!(5..=7).contains(&e.outputNode));
    }
    assert!(graph.edges().iter().any(|p| p.1 == kept));
    assert!(graph.edges().iter().any(|p| p.1 == edge(0, 0, 2, 3)));
    assert!(graph.edges().iter().any(|p| p.1 == edge(1, 0, 2, 4)));
}
