use vstd::prelude::*;

verus! {

/// Role of a node in the phenotype network.
#[derive(Clone, Copy, PartialEq, Eq, Structural, Debug)]
pub enum NodeType {
    BIAS,
    INPUT,
    HIDDEN,
    OUTPUT,
}

/// An incoming edge: the source node and the edge's weight (in millionths).
#[derive(Clone, Copy, PartialEq, Eq, Structural, Debug)]
pub struct LinkFrom {
    pub from: u32,
    pub weight: i32,
}

/// An outgoing edge: the target node.
#[derive(Clone, Copy, PartialEq, Eq, Structural, Debug)]
pub struct LinkTo {
    pub to: u32,
}

/// A node of the phenotype network.
///
/// `layer` is `None` while no layer has been assigned: a node that neither is
/// the bias or an input nor is fed by a node that has a layer.
pub struct Node {
    pub node_type: NodeType,
    pub succ: Vec<LinkTo>,
    pub pred: Vec<LinkFrom>,
    pub layer: Option<usize>,
}

pub ghost struct NodeView {
    pub node_type: NodeType,
    pub succ: Seq<LinkTo>,
    pub pred: Seq<LinkFrom>,
    pub layer: Option<usize>,
}

impl View for Node {
    type V = NodeView;

    open spec fn view(&self) -> NodeView {
        NodeView { node_type: self.node_type, succ: self.succ@, pred: self.pred@, layer: self.layer }
    }
}

impl Node {
    pub open spec fn new_spec_hidden() -> NodeView {
        NodeView { node_type: NodeType::HIDDEN, succ: Seq::empty(), pred: Seq::empty(), layer: None }
    }

    pub fn new(node_type: NodeType, layer: Option<usize>) -> (r: Self)
        ensures
            r@ == (NodeView { node_type, succ: Seq::empty(), pred: Seq::empty(), layer }),
    {
        Node { node_type, succ: Vec::new(), pred: Vec::new(), layer }
    }

    /// Registers `node_id` as a successor.
    pub fn add_link_to(&mut self, node_id: u32)
        ensures
            final(self)@ == (NodeView { succ: old(self)@.succ.push(LinkTo { to: node_id }), ..old(self)@ }),
    {
        self.succ.push(LinkTo { to: node_id });
    }

    /// Registers `node_id` as a predecessor, through an edge of weight `weight`.
    pub fn add_link_from(&mut self, node_id: u32, weight: i32)
        ensures
            final(self)@ == (NodeView {
                pred: old(self)@.pred.push(LinkFrom { from: node_id, weight }),
                ..old(self)@
            }),
    {
        self.pred.push(LinkFrom { from: node_id, weight });
    }
}

} // verus!
