use vstd::prelude::*;

verus! {

/// A connection from output `outputIndex` of node `outputNode` to input
/// `inputIndex` of node `inputNode`; values flow from the output to the input.
#[derive(Clone, Copy, PartialEq, Eq, Debug, Structural)]
pub struct Edge {
    pub inputIndex: u16,
    pub outputIndex: u16,
    pub inputNode: usize,
    pub outputNode: usize,
}

/// Two edges feed the same input socket.
pub open spec fn same_slot(a: Edge, b: Edge) -> bool {
    a.inputNode == b.inputNode && a.inputIndex == b.inputIndex
}

} // verus!
