use vstd::prelude::*;

use crate::config::Config;

verus! {

/// The three zones of the node index space: sensor inputs occupy the lowest
/// indices, hidden neurons the middle band, outputs the highest band.
#[derive(Copy, Clone, PartialEq, Eq, Structural, Debug)]
pub enum NodeType {
    INPUT,
    HIDDEN,
    OUTPUT,
}

/// One endpoint of a gene: an index into the dense node-state vector together
/// with the zone it belongs to.
#[derive(Copy, Clone, PartialEq, Eq, Structural, Debug)]
pub struct Node {
    pub idx: usize,
    pub node_type: NodeType,
}

impl Node {
    /// The index lies inside the zone that the node's type names.
    pub open spec fn wf(self, cfg: Config) -> bool {
        match self.node_type {
            NodeType::INPUT => self.idx < cfg.inputs@.len(),
            NodeType::HIDDEN => cfg.inputs@.len() <= self.idx
                && self.idx < cfg.inputs@.len() + cfg.neurons,
            NodeType::OUTPUT => cfg.inputs@.len() + cfg.neurons <= self.idx
                && self.idx < cfg.node_count_spec(),
        }
    }

    pub fn is_hidden(&self) -> (r: bool)
        ensures
            r == (self.node_type == NodeType::HIDDEN),
    {
        matches!(self.node_type, NodeType::HIDDEN)
    }

    pub fn is_input(&self) -> (r: bool)
        ensures
            r == (self.node_type == NodeType::INPUT),
    {
        matches!(self.node_type, NodeType::INPUT)
    }

    pub fn is_output(&self) -> (r: bool)
        ensures
            r == (self.node_type == NodeType::OUTPUT),
    {
        matches!(self.node_type, NodeType::OUTPUT)
    }

    /// The symbolic channel name the configuration assigns to this node:
    /// the input name for the input zone, the output name for the output
    /// zone, and a placeholder for hidden neurons, which have no name.
    pub fn get_name(&self, cfg: &Config) -> (r: String)
        requires
            cfg.wf(),
            self.idx < cfg.node_count_spec(),
        ensures
            r@ == cfg.node_name_spec(self.idx as int),
    {
        cfg.node_name(self)
    }
}

} // verus!
