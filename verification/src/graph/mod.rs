use std::collections::HashMap;
use vstd::prelude::*;

pub mod eval;
pub mod graphviz;
pub mod stimulus;

verus! {

const INVERSION_MASK: u32 = 1;

const NODE_ID_MASK: u32 = 0xFFFF_FFFE;

/// The largest graph index that still has a `NodeId` below the marker value.
pub const MAX_GRAPH_INDEX: usize = 0x7FFF_FFFD;

/// A reference to a signal: the low bit says whether the signal is inverted,
/// the remaining bits name a constant or a node of the graph.
///
/// `NodeId(0)` is false, `NodeId(1)` is true, `NodeId(2 * (i + 1))` is the
/// node stored at graph index `i`, and the odd value just above is its
/// inversion.  The value `NODE_ID_MASK` is reserved as the marker that
/// classifies input and latch nodes.
#[derive(Debug, Clone, Copy, PartialEq, Eq, Hash, PartialOrd, Ord, Structural)]
pub struct NodeId(u32);

impl NodeId {
    /// The raw encoding of the signal.
    pub closed spec fn val(self) -> u32 {
        self.0
    }

    /// The signal whose raw encoding is `v`.
    pub closed spec fn from_val(v: u32) -> NodeId {
        NodeId(v)
    }

    pub broadcast proof fn lemma_from_val(v: u32)
        ensures
            #[trigger] NodeId::from_val(v).val() == v,
    {
    }

    pub broadcast proof fn lemma_val_injective(a: NodeId, b: NodeId)
        ensures
            #[trigger] a.val() == #[trigger] b.val() ==> a == b,
    {
    }

    pub open spec fn spec_is_inverted(self) -> bool {
        self.val() % 2 == 1
    }

    pub open spec fn spec_regular(self) -> NodeId {
        NodeId::from_val((self.val() - self.val() % 2) as u32)
    }

    pub open spec fn spec_invert(self) -> NodeId {
        NodeId::from_val(
            if self.val() % 2 == 0 {
                (self.val() + 1) as u32
            } else {
                (self.val() - 1) as u32
            },
        )
    }

    pub open spec fn spec_is_const(self) -> bool {
        self.val() < 2
    }

    pub open spec fn spec_is_marker(self) -> bool {
        self.val() >= 0xFFFF_FFFEu32
    }

    pub open spec fn spec_is_false(self) -> bool {
        self.val() == 0
    }

    pub open spec fn spec_is_true(self) -> bool {
        self.val() == 1
    }

    /// The graph index of the node that the signal refers to, for a signal
    /// that is neither a constant nor the marker.
    pub open spec fn spec_index(self) -> int {
        self.val() / 2 - 1
    }

    /// The regular signal of the node stored at graph index `index`.
    pub open spec fn spec_from_index(index: int) -> NodeId {
        NodeId::from_val((2 * (index + 1)) as u32)
    }

    /// The constant false signal.
    pub fn false_id() -> (r: NodeId)
        ensures
            r.val() == 0,
            r == NodeId::from_val(0),
    {
        NodeId(0)
    }

    /// The constant true signal (the inversion of false).
    pub fn true_id() -> (r: NodeId)
        ensures
            r.val() == 1,
            r == NodeId::from_val(1),
    {
        NodeId(1)
    }

    /// inversion is specified by the LSB of a NodeId being `1`.
    #[verifier::when_used_as_spec(spec_is_inverted)]
    pub fn is_inverted(self) -> (b: bool)
        ensures
            b == self.spec_is_inverted(),
    {
        let v = self.0;
        let r = (v & INVERSION_MASK) != 0;
        assert(r == (v % 2 == 1)) by (bit_vector)
            requires
                r == ((v & 1u32) != 0),
        ;
        r
    }

    /// Since the LSB defines inversion, the
    /// rest of the NodeId (i.e., the "regular" part) is its unique identifier
    #[verifier::when_used_as_spec(spec_regular)]
    pub fn regular(self) -> (r: Self)
        ensures
            r == self.spec_regular(),
    {
        let v = self.0;
        let w = v & NODE_ID_MASK;
        assert(w == v - v % 2) by (bit_vector)
            requires
                w == v & 0xFFFF_FFFEu32,
        ;
        NodeId(w)
    }

    /// To invert a Node, simply flip its LSB
    #[verifier::when_used_as_spec(spec_invert)]
    pub fn invert(self) -> (r: Self)
        ensures
            r == self.spec_invert(),
    {
        let v = self.0;
        let w = v ^ INVERSION_MASK;
        assert(w == if v % 2 == 0 {
            (v + 1) as u32
        } else {
            (v - 1) as u32
        }) by (bit_vector)
            requires
                w == v ^ 1u32,
        ;
        NodeId(w)
    }

    /// True or False is represented by a NodeId having a "regular" value of all zeros
    #[verifier::when_used_as_spec(spec_is_const)]
    pub fn is_const(self) -> (b: bool)
        ensures
            b == self.spec_is_const(),
    {
        self.regular().0 == 0
    }

    /// Marker values are reserved for classifying input and latch nodes.
    #[verifier::when_used_as_spec(spec_is_marker)]
    pub fn is_marker(self) -> (b: bool)
        ensures
            b == self.spec_is_marker(),
    {
        self.regular().0 == NODE_ID_MASK
    }

    /// Constant False = regular value of all zeros and a LSB of 0
    #[verifier::when_used_as_spec(spec_is_false)]
    pub fn is_false(self) -> (b: bool)
        ensures
            b == self.spec_is_false(),
    {
        self.0 == 0
    }

    /// Constant True = regular value of all zeros and a LSB of 1
    /// (i.e., True is the inversion of False!)
    #[verifier::when_used_as_spec(spec_is_true)]
    pub fn is_true(self) -> (b: bool)
        ensures
            b == self.spec_is_true(),
    {
        self.0 == 1
    }

    /// Converts a signal to the graph index of its node.  Constants and the
    /// marker are not stored in the graph.
    pub fn try_index(self) -> (r: Result<usize, &'static str>)
        ensures
            r is Ok <==> !self.is_const() && !self.is_marker(),
            r matches Ok(i) ==> i == self.spec_index(),
            self.is_const() ==> r == Err::<usize, &'static str>("constants are not stored in the graph"),
            self.is_marker() ==> r == Err::<usize, &'static str>("input/latch marker is not stored in the graph"),
    {
        let regular_id = self.regular();
        if regular_id.is_const() {
            return Err("constants are not stored in the graph");
        }
        if regular_id.is_marker() {
            return Err("input/latch marker is not stored in the graph");
        }
        let v = regular_id.0;
        let half = v >> 1;
        assert(half == v / 2) by (bit_vector)
            requires
                half == v >> 1u32,
        ;
        Ok((half - 1) as usize)
    }

    /// converts a NodeId to an index in our internal representation of an AIG
    fn index(self) -> (i: usize)
        requires
            !self.is_const(),
            !self.is_marker(),
        ensures
            i == self.spec_index(),
    {
        match self.try_index() {
            Ok(i) => i,
            Err(_) => 0,
        }
    }

    /// Graph index -> NodeId: graph[0] -> NodeId(2), graph[1] -> NodeId(4), ...
    pub fn from_index(index: usize) -> (r: Self)
        requires
            index <= MAX_GRAPH_INDEX,
        ensures
            r == NodeId::spec_from_index(index as int),
    {
        NodeId(((index + 1) * 2) as u32)
    }
}

/// The marker that fills the child fields of input and latch nodes.
fn input_node_marker() -> (r: NodeId)
    ensures
        r.val() == NODE_ID_MASK,
{
    NodeId(NODE_ID_MASK)
}

/// One node of the graph: an AND gate of two signals, or (with the marker in
/// `left`) an input, or a latch whose next-state signal is `right`.
#[derive(Debug, Clone, Copy, PartialEq, Eq, Hash, Structural)]
pub struct AigNode {
    left: NodeId,
    right: NodeId,
}

impl AigNode {
    pub closed spec fn spec_left(&self) -> NodeId {
        self.left
    }

    pub closed spec fn spec_right(&self) -> NodeId {
        self.right
    }

    /// The node with the given child fields.
    pub closed spec fn from_parts(left: NodeId, right: NodeId) -> AigNode {
        AigNode { left, right }
    }

    pub broadcast proof fn lemma_from_parts(left: NodeId, right: NodeId)
        ensures
            #[trigger] AigNode::from_parts(left, right).spec_left() == left,
            AigNode::from_parts(left, right).spec_right() == right,
    {
    }

    pub broadcast proof fn lemma_parts_injective(a: AigNode, b: AigNode)
        ensures
            #![trigger a.spec_left(), b.spec_left(), a.spec_right(), b.spec_right()]
            a.spec_left() == b.spec_left() && a.spec_right() == b.spec_right() ==> a == b,
    {
    }

    /// The input node: both children hold the marker.
    pub open spec fn spec_input() -> AigNode {
        AigNode::from_parts(NodeId::from_val(0xFFFF_FFFEu32), NodeId::from_val(0xFFFF_FFFEu32))
    }

    /// The latch node whose next state is `latch_input`.
    pub open spec fn spec_latch(latch_input: NodeId) -> AigNode {
        AigNode::from_parts(NodeId::from_val(0xFFFF_FFFEu32), latch_input)
    }

    pub open spec fn spec_is_input(&self) -> bool {
        self.spec_left().is_marker() && self.spec_right().is_marker()
    }

    pub open spec fn spec_is_latch(&self) -> bool {
        self.spec_left().is_marker() && !self.spec_right().is_marker()
    }

    pub open spec fn spec_is_and(&self) -> bool {
        !self.spec_left().is_marker()
    }

    fn new(left: NodeId, right: NodeId) -> (r: Self)
        ensures
            r == AigNode::from_parts(left, right),
    {
        Self { left, right }
    }

    fn new_input() -> (r: Self)
        ensures
            r == AigNode::spec_input(),
    {
        Self { left: input_node_marker(), right: input_node_marker() }
    }

    fn new_latch(latch_input: NodeId) -> (r: Self)
        ensures
            r == AigNode::spec_latch(latch_input),
    {
        Self { left: input_node_marker(), right: latch_input }
    }

    #[verifier::when_used_as_spec(spec_left)]
    pub fn left(&self) -> (r: NodeId)
        ensures
            r == self.spec_left(),
    {
        self.left
    }

    #[verifier::when_used_as_spec(spec_right)]
    pub fn right(&self) -> (r: NodeId)
        ensures
            r == self.spec_right(),
    {
        self.right
    }

    #[verifier::when_used_as_spec(spec_is_input)]
    pub fn is_input(&self) -> (b: bool)
        ensures
            b == self.spec_is_input(),
    {
        self.left.is_marker() && self.right.is_marker()
    }

    #[verifier::when_used_as_spec(spec_is_latch)]
    pub fn is_latch(&self) -> (b: bool)
        ensures
            b == self.spec_is_latch(),
    {
        self.left.is_marker() && !self.right.is_marker()
    }

    #[verifier::when_used_as_spec(spec_is_and)]
    pub fn is_and(&self) -> (b: bool)
        ensures
            b == self.spec_is_and(),
    {
        !self.left.is_marker()
    }

    /// Sets the next-state signal of a latch node.
    pub fn set_latch_input(&mut self, latch_input: NodeId)
        requires
            old(self).is_latch(),
        ensures
            *final(self) == AigNode::from_parts(old(self).spec_left(), latch_input),
    {
        self.right = latch_input;
    }
}

pub broadcast group group_aig {
    NodeId::lemma_from_val,
    NodeId::lemma_val_injective,
    AigNode::lemma_from_parts,
    AigNode::lemma_parts_injective,
}

/// The abstract contents of a graph.
pub struct GraphView {
    pub nodes: Seq<AigNode>,
    pub inputs: Seq<NodeId>,
    pub latches: Seq<NodeId>,
    pub outputs: Seq<NodeId>,
}

impl GraphView {
    pub open spec fn empty() -> GraphView {
        GraphView { nodes: seq![], inputs: seq![], latches: seq![], outputs: seq![] }
    }

    /// `id` names a node that is stored in the graph.
    pub open spec fn has_node(self, id: NodeId) -> bool {
        &&& !id.is_const()
        &&& !id.is_marker()
        &&& 0 <= id.spec_index() < self.nodes.len()
    }

    /// The node that `id` (or its inversion) refers to.
    pub open spec fn node_of(self, id: NodeId) -> AigNode {
        self.nodes[id.spec_index()]
    }

    /// `id` is a constant or refers to a node stored in the graph.
    pub open spec fn valid_signal(self, id: NodeId) -> bool {
        id.is_const() || self.has_node(id)
    }

    /// `id` is a constant or refers to a node stored before index `i`.
    pub open spec fn signal_below(self, id: NodeId, i: int) -> bool {
        id.is_const() || (self.has_node(id) && id.spec_index() < i)
    }

    /// The graph's invariant: node ids fit below the marker, the input and
    /// latch lists name exactly the input and latch nodes, AND gates only
    /// refer to earlier nodes, and latches and outputs refer to stored
    /// signals.
    pub open spec fn wf(self) -> bool {
        &&& self.nodes.len() <= MAX_GRAPH_INDEX + 1
        &&& forall|k: int|
            0 <= k < self.inputs.len() ==> {
                &&& self.has_node(#[trigger] self.inputs[k])
                &&& !self.inputs[k].is_inverted()
                &&& self.node_of(self.inputs[k]).is_input()
            }
        &&& forall|k: int|
            0 <= k < self.latches.len() ==> {
                &&& self.has_node(#[trigger] self.latches[k])
                &&& !self.latches[k].is_inverted()
                &&& self.node_of(self.latches[k]).is_latch()
                &&& self.valid_signal(self.node_of(self.latches[k]).spec_right())
            }
        &&& forall|k: int| 0 <= k < self.outputs.len() ==> self.valid_signal(#[trigger] self.outputs[k])
        &&& forall|i: int, j: int|
            0 <= i < j < self.inputs.len() ==> #[trigger] self.inputs[i] != #[trigger] self.inputs[j]
        &&& forall|i: int, j: int|
            0 <= i < j < self.latches.len() ==> #[trigger] self.latches[i] != #[trigger] self.latches[j]
        &&& forall|i: int|
            0 <= i < self.nodes.len() ==> {
                let n = #[trigger] self.nodes[i];
                if n.is_and() {
                    self.signal_below(n.spec_left(), i) && self.signal_below(n.spec_right(), i)
                } else {
                    ||| self.inputs.contains(NodeId::spec_from_index(i))
                    ||| self.latches.contains(NodeId::spec_from_index(i))
                }
            }
    }
}

impl GraphView {
    proof fn lemma_contains_push<T>(s: Seq<T>, x: T, y: T)
        requires
            s.contains(y),
        ensures
            s.push(x).contains(y),
    {
        let k = choose|k: int| 0 <= k < s.len() && s[k] == y;
        assert(s.push(x)[k] == y);
    }

    /// Facts about a graph `g` that extends `og` by one node, with the same
    /// or extended input and latch lists, that hold for the old nodes.
    proof fn lemma_extend_old_nodes(og: GraphView, g: GraphView)
        requires
            og.wf(),
            g.nodes.len() == og.nodes.len() + 1,
            g.nodes.len() <= MAX_GRAPH_INDEX + 1,
            forall|i: int| 0 <= i < og.nodes.len() ==> g.nodes[i] == og.nodes[i],
            g.inputs == og.inputs || (g.inputs.len() == og.inputs.len() + 1 && g.inputs.drop_last() == og.inputs),
            g.latches == og.latches || (g.latches.len() == og.latches.len() + 1 && g.latches.drop_last() == og.latches),
        ensures
            forall|id: NodeId| og.valid_signal(id) ==> g.valid_signal(id),
            forall|i: int|
                0 <= i < og.nodes.len() ==> {
                    let n = #[trigger] g.nodes[i];
                    if n.is_and() {
                        g.signal_below(n.spec_left(), i) && g.signal_below(n.spec_right(), i)
                    } else {
                        ||| g.inputs.contains(NodeId::spec_from_index(i))
                        ||| g.latches.contains(NodeId::spec_from_index(i))
                    }
                },
            forall|k: int| 0 <= k < og.inputs.len() ==> g.inputs[k] == og.inputs[k],
            forall|k: int| 0 <= k < og.latches.len() ==> g.latches[k] == og.latches[k],
    {
        assert forall|k: int| 0 <= k < og.inputs.len() implies g.inputs[k] == og.inputs[k] by {
            if g.inputs != og.inputs {
                assert(g.inputs.drop_last()[k] == og.inputs[k]);
            }
        }
        assert forall|k: int| 0 <= k < og.latches.len() implies g.latches[k] == og.latches[k] by {
            if g.latches != og.latches {
                assert(g.latches.drop_last()[k] == og.latches[k]);
            }
        }
        assert forall|i: int| 0 <= i < og.nodes.len() implies {
            let n = #[trigger] g.nodes[i];
            if n.is_and() {
                g.signal_below(n.spec_left(), i) && g.signal_below(n.spec_right(), i)
            } else {
                ||| g.inputs.contains(NodeId::spec_from_index(i))
                ||| g.latches.contains(NodeId::spec_from_index(i))
            }
        } by {
            let n = og.nodes[i];
            if !n.is_and() {
                let x = NodeId::spec_from_index(i);
                if og.inputs.contains(x) {
                    let k = choose|k: int| 0 <= k < og.inputs.len() && og.inputs[k] == x;
                    assert(g.inputs[k] == x);
                } else {
                    let k = choose|k: int| 0 <= k < og.latches.len() && og.latches[k] == x;
                    assert(g.latches[k] == x);
                }
            }
        }
    }

    /// Pushing an input node keeps the invariant.
    pub proof fn lemma_push_input_wf(og: GraphView)
        requires
            og.wf(),
            og.nodes.len() <= MAX_GRAPH_INDEX,
        ensures
            ({
                let id = NodeId::spec_from_index(og.nodes.len() as int);
                (GraphView {
                    nodes: og.nodes.push(AigNode::spec_input()),
                    inputs: og.inputs.push(id),
                    ..og
                }).wf()
            }),
    {
        broadcast use group_aig;
        let id = NodeId::spec_from_index(og.nodes.len() as int);
        let g = GraphView { nodes: og.nodes.push(AigNode::spec_input()), inputs: og.inputs.push(id), ..og };
        assert(g.inputs.drop_last() == og.inputs);
        GraphView::lemma_extend_old_nodes(og, g);
        assert(g.inputs[g.inputs.len() - 1] == id);
        assert(g.inputs.contains(id));
        assert forall|i: int, j: int| 0 <= i < j < g.inputs.len() implies #[trigger] g.inputs[i] != #[trigger] g.inputs[j] by {
            if j == g.inputs.len() - 1 {
                assert(g.inputs[i].spec_index() < og.nodes.len());
            }
        }
    }

    /// Pushing a latch node keeps the invariant when its next state is a
    /// stored signal of the new graph.
    pub proof fn lemma_push_latch_wf(og: GraphView, latch_input: NodeId)
        requires
            og.wf(),
            og.nodes.len() <= MAX_GRAPH_INDEX,
        ensures
            ({
                let id = NodeId::spec_from_index(og.nodes.len() as int);
                let g = GraphView {
                    nodes: og.nodes.push(AigNode::spec_latch(latch_input)),
                    latches: og.latches.push(id),
                    ..og
                };
                g.valid_signal(latch_input) ==> g.wf()
            }),
    {
        broadcast use group_aig;
        let id = NodeId::spec_from_index(og.nodes.len() as int);
        let g = GraphView { nodes: og.nodes.push(AigNode::spec_latch(latch_input)), latches: og.latches.push(id), ..og };
        assert(g.latches.drop_last() == og.latches);
        GraphView::lemma_extend_old_nodes(og, g);
        assert(g.latches[g.latches.len() - 1] == id);
        assert(g.latches.contains(id));
        assert forall|i: int, j: int| 0 <= i < j < g.latches.len() implies #[trigger] g.latches[i] != #[trigger] g.latches[j] by {
            if j == g.latches.len() - 1 {
                assert(g.latches[i].spec_index() < og.nodes.len());
            }
        }
    }

    /// Pushing an AND node keeps the invariant when its children are stored
    /// before it.
    pub proof fn lemma_push_and_wf(og: GraphView, left: NodeId, right: NodeId)
        requires
            og.wf(),
            og.nodes.len() <= MAX_GRAPH_INDEX,
            og.valid_signal(left),
            og.valid_signal(right),
        ensures
            (GraphView { nodes: og.nodes.push(AigNode::from_parts(left, right)), ..og }).wf(),
    {
        broadcast use group_aig;
        let g = GraphView { nodes: og.nodes.push(AigNode::from_parts(left, right)), ..og };
        GraphView::lemma_extend_old_nodes(og, g);
    }

    /// Adding an output keeps the invariant when it is a stored signal.
    pub proof fn lemma_push_output_wf(og: GraphView, output: NodeId)
        requires
            og.wf(),
            og.valid_signal(output),
        ensures
            (GraphView { outputs: og.outputs.push(output), ..og }).wf(),
    {
        let g = GraphView { outputs: og.outputs.push(output), ..og };
        assert forall|i: int| 0 <= i < g.nodes.len() implies {
            let n = #[trigger] g.nodes[i];
            if n.is_and() {
                g.signal_below(n.spec_left(), i) && g.signal_below(n.spec_right(), i)
            } else {
                ||| g.inputs.contains(NodeId::spec_from_index(i))
                ||| g.latches.contains(NodeId::spec_from_index(i))
            }
        } by {
            assert(og.nodes[i] == g.nodes[i]);
        }
    }
}

/// An and-inverter graph: its nodes, and the signals that are its inputs,
/// latches and outputs.
#[derive(Debug)]
pub struct AigGraph {
    nodes: Vec<AigNode>,
    inputs: Vec<NodeId>,
    latches: Vec<NodeId>,
    outputs: Vec<NodeId>,
}

impl View for AigGraph {
    type V = GraphView;

    closed spec fn view(&self) -> GraphView {
        GraphView {
            nodes: self.nodes@,
            inputs: self.inputs@,
            latches: self.latches@,
            outputs: self.outputs@,
        }
    }
}

impl AigGraph {
    pub fn new() -> (r: Self)
        ensures
            r@ == GraphView::empty(),
            r@.wf(),
    {
        Self { nodes: Vec::new(), inputs: Vec::new(), latches: Vec::new(), outputs: Vec::new() }
    }

    /// Gives mutable access to the node that `id` refers to.
    pub fn node(&mut self, id: NodeId) -> (r: &mut AigNode)
        requires
            old(self)@.has_node(id),
        ensures
            *r == old(self)@.node_of(id),
            final(self)@ == (GraphView {
                nodes: old(self)@.nodes.update(id.spec_index(), *final(r)),
                ..old(self)@
            }),
    {
        let i = id.index();
        &mut self.nodes[i]
    }

    /// Read access to the node that `id` refers to.
    pub fn node_ref(&self, id: NodeId) -> (r: &AigNode)
        requires
            self@.has_node(id),
        ensures
            *r == self@.node_of(id),
    {
        &self.nodes[id.index()]
    }
}

} // verus!

verus! {

/// The hash key of an AND node with children `left` and `right`.
pub open spec fn spec_and_key(left: NodeId, right: NodeId) -> u64 {
    (left.val() * 0x1_0000_0000 + right.val()) as u64
}

fn and_key(left: NodeId, right: NodeId) -> (k: u64)
    ensures
        k == spec_and_key(left, right),
{
    let l = left.0 as u64;
    let r = right.0 as u64;
    let k = (l << 32u64) | r;
    assert(k == l * 0x1_0000_0000 + r) by (bit_vector)
        requires
            l < 0x1_0000_0000,
            r < 0x1_0000_0000,
            k == (l << 32u64) | r,
    ;
    k
}

/// The abstract state of a builder: the graph so far, and the table of AND
/// nodes keyed by their (ordered) children.
pub struct BuilderView {
    pub graph: GraphView,
    pub hash: Map<u64, NodeId>,
}

impl BuilderView {
    /// Every table entry names a stored, regular AND node whose children
    /// give the entry's key.
    pub open spec fn hash_wf(self) -> bool {
        forall|k: u64|
            #[trigger] self.hash.contains_key(k) ==> {
                let id = self.hash[k];
                &&& self.graph.has_node(id)
                &&& !id.is_inverted()
                &&& self.graph.node_of(id).is_and()
                &&& spec_and_key(self.graph.node_of(id).spec_left(), self.graph.node_of(id).spec_right())
                    == k
            }
    }

    pub open spec fn wf(self) -> bool {
        self.graph.wf() && self.hash_wf()
    }
}

impl BuilderView {
    /// Appending nodes to the graph keeps the table's invariant.
    pub proof fn lemma_push_node_hash_wf(b: BuilderView, g: GraphView)
        requires
            b.hash_wf(),
            g.nodes.len() >= b.graph.nodes.len(),
            forall|i: int| 0 <= i < b.graph.nodes.len() ==> g.nodes[i] == b.graph.nodes[i],
        ensures
            (BuilderView { graph: g, hash: b.hash }).hash_wf(),
    {
        assert forall|k: u64| #[trigger] b.hash.contains_key(k) implies {
            let id = b.hash[k];
            &&& g.has_node(id)
            &&& !id.is_inverted()
            &&& g.node_of(id).is_and()
            &&& spec_and_key(g.node_of(id).spec_left(), g.node_of(id).spec_right()) == k
        } by {
            assert(b.graph.node_of(b.hash[k]) == g.node_of(b.hash[k]));
        }
    }
}

/// `add_input` on a builder in state `b`: the new state and the new signal.
pub open spec fn spec_add_input(b: BuilderView) -> (BuilderView, NodeId) {
    let id = NodeId::spec_from_index(b.graph.nodes.len() as int);
    (
        BuilderView {
            graph: GraphView {
                nodes: b.graph.nodes.push(AigNode::spec_input()),
                inputs: b.graph.inputs.push(id),
                ..b.graph
            },
            ..b
        },
        id,
    )
}

/// `add_latch` on a builder in state `b`.
pub open spec fn spec_add_latch(b: BuilderView, latch_input: NodeId) -> (BuilderView, NodeId) {
    let id = NodeId::spec_from_index(b.graph.nodes.len() as int);
    (
        BuilderView {
            graph: GraphView {
                nodes: b.graph.nodes.push(AigNode::spec_latch(latch_input)),
                latches: b.graph.latches.push(id),
                ..b.graph
            },
            ..b
        },
        id,
    )
}

/// `add_and_raw` on a builder in state `b`.
pub open spec fn spec_add_and_raw(b: BuilderView, left: NodeId, right: NodeId) -> (BuilderView, NodeId) {
    let id = NodeId::spec_from_index(b.graph.nodes.len() as int);
    (
        BuilderView {
            graph: GraphView { nodes: b.graph.nodes.push(AigNode::from_parts(left, right)), ..b.graph },
            ..b
        },
        id,
    )
}

/// `add_output` on a builder in state `b`.
pub open spec fn spec_add_output(b: BuilderView, output: NodeId) -> BuilderView {
    BuilderView { graph: GraphView { outputs: b.graph.outputs.push(output), ..b.graph }, ..b }
}

/// Setting the next state of the latch `latch_id` to `latch_input`.
pub open spec fn spec_set_latch_input(b: BuilderView, latch_id: NodeId, latch_input: NodeId) -> BuilderView {
    BuilderView {
        graph: GraphView {
            nodes: b.graph.nodes.update(
                latch_id.spec_index(),
                AigNode::from_parts(b.graph.node_of(latch_id).spec_left(), latch_input),
            ),
            ..b.graph
        },
        ..b
    }
}

/// Whether `add_and_optimized` stores a new node.
pub open spec fn and_optimized_pushes(b: BuilderView, left: NodeId, right: NodeId) -> bool {
    spec_and_optimized(b, left, right).0.graph.nodes.len() > b.graph.nodes.len()
}

/// The result of `add_and_optimized` on a builder in state `b`: the new state
/// and the returned signal.
pub open spec fn spec_and_optimized(b: BuilderView, left: NodeId, right: NodeId) -> (
    BuilderView,
    NodeId,
) {
    if left.is_false() || right.is_false() {
        (b, NodeId::from_val(0))
    } else if left.is_true() {
        (b, right)
    } else if right.is_true() {
        (b, left)
    } else if left == right {
        (b, left)
    } else if left == right.spec_invert() {
        (b, NodeId::from_val(0))
    } else {
        let (l, r) = if right.val() < left.val() {
            (right, left)
        } else {
            (left, right)
        };
        let key = spec_and_key(l, r);
        if b.hash.contains_key(key) {
            (b, b.hash[key])
        } else {
            let id = NodeId::spec_from_index(b.graph.nodes.len() as int);
            (
                BuilderView {
                    graph: GraphView { nodes: b.graph.nodes.push(AigNode::from_parts(l, r)), ..b.graph },
                    hash: b.hash.insert(key, id),
                },
                id,
            )
        }
    }
}

/// Builds an [`AigGraph`] node by node, sharing structurally equal AND nodes
/// when asked to optimize.
#[derive(Debug)]
pub struct AigBuilder {
    graph: AigGraph,
    and_hash: HashMap<u64, NodeId>,
}

impl View for AigBuilder {
    type V = BuilderView;

    closed spec fn view(&self) -> BuilderView {
        BuilderView { graph: self.graph@, hash: self.and_hash@ }
    }
}

proof fn lemma_from_index(i: int)
    requires
        0 <= i <= MAX_GRAPH_INDEX,
    ensures
        !NodeId::spec_from_index(i).is_const(),
        !NodeId::spec_from_index(i).is_marker(),
        !NodeId::spec_from_index(i).is_inverted(),
        NodeId::spec_from_index(i).spec_index() == i,
{
}

impl AigBuilder {
    pub fn new() -> (r: Self)
        ensures
            r@.graph == GraphView::empty(),
            r@.hash == Map::<u64, NodeId>::empty(),
            r@.wf(),
    {
        Self { graph: AigGraph::new(), and_hash: HashMap::new() }
    }

    /// The number of nodes stored so far.
    pub fn num_nodes(&self) -> (n: usize)
        ensures
            n == self@.graph.nodes.len(),
    {
        self.graph.nodes.len()
    }

    pub fn build(self) -> (r: AigGraph)
        ensures
            r@ == self@.graph,
    {
        self.graph
    }

    /// Gives mutable access to the node that `id` refers to.
    pub fn node(&mut self, id: NodeId) -> (r: &mut AigNode)
        requires
            old(self)@.graph.has_node(id),
        ensures
            *r == old(self)@.graph.node_of(id),
            final(self)@ == (BuilderView {
                graph: GraphView {
                    nodes: old(self)@.graph.nodes.update(id.spec_index(), *final(r)),
                    ..old(self)@.graph
                },
                ..old(self)@
            }),
    {
        self.graph.node(id)
    }

    pub fn add_input(&mut self) -> (id: NodeId)
        requires
            old(self)@.graph.nodes.len() <= MAX_GRAPH_INDEX,
        ensures
            (final(self)@, id) == spec_add_input(old(self)@),
            old(self)@.wf() ==> final(self)@.wf(),
    {
        let index = self.graph.nodes.len();
        let id = NodeId::from_index(index);
        self.graph.nodes.push(AigNode::new_input());
        self.graph.inputs.push(id);
        proof {
            lemma_from_index(index as int);
            if old(self)@.wf() {
                lemma_add_input_wf(old(self)@);
            }
        }
        id
    }

    pub fn add_latch(&mut self, latch_input: NodeId) -> (id: NodeId)
        requires
            old(self)@.graph.nodes.len() <= MAX_GRAPH_INDEX,
        ensures
            (final(self)@, id) == spec_add_latch(old(self)@, latch_input),
            old(self)@.wf() && final(self)@.graph.valid_signal(latch_input) ==> final(self)@.wf(),
    {
        let index = self.graph.nodes.len();
        let id = NodeId::from_index(index);
        self.graph.nodes.push(AigNode::new_latch(latch_input));
        self.graph.latches.push(id);
        proof {
            lemma_from_index(index as int);
            if old(self)@.wf() && self@.graph.valid_signal(latch_input) {
                lemma_add_latch_wf(old(self)@, latch_input);
            }
        }
        id
    }

    pub fn add_and_raw(&mut self, left: NodeId, right: NodeId) -> (id: NodeId)
        requires
            old(self)@.graph.nodes.len() <= MAX_GRAPH_INDEX,
        ensures
            (final(self)@, id) == spec_add_and_raw(old(self)@, left, right),
            old(self)@.wf() && old(self)@.graph.valid_signal(left) && old(self)@.graph.valid_signal(
                right,
            ) ==> final(self)@.wf(),
    {
        let index = self.graph.nodes.len();
        let id = NodeId::from_index(index);
        self.graph.nodes.push(AigNode::new(left, right));
        proof {
            lemma_from_index(index as int);
            if old(self)@.wf() && old(self)@.graph.valid_signal(left) && old(self)@.graph.valid_signal(right) {
                lemma_add_and_raw_wf(old(self)@, left, right);
            }
        }
        id
    }

    /// Adds the AND of two signals, simplifying constant, repeated and
    /// complementary operands and reusing an existing node with the same
    /// children.
    pub fn add_and_optimized(&mut self, left: NodeId, right: NodeId) -> (id: NodeId)
        requires
            old(self)@.graph.nodes.len() <= MAX_GRAPH_INDEX || !and_optimized_pushes(
                old(self)@,
                left,
                right,
            ),
        ensures
            (final(self)@, id) == spec_and_optimized(old(self)@, left, right),
            old(self)@.wf() && old(self)@.graph.valid_signal(left) && old(self)@.graph.valid_signal(
                right,
            ) ==> final(self)@.wf(),
    {
        broadcast use group_aig, vstd::std_specs::hash::group_hash_axioms;

        // x & false = false
        if left.is_false() || right.is_false() {
            return NodeId::false_id();
        }
        // x & true = x
        if left.is_true() {
            return right;
        }
        if right.is_true() {
            return left;
        }
        // x & x = x
        if left == right {
            return left;
        }
        // x & !x = false
        if left == right.invert() {
            return NodeId::false_id();
        }
        // AND is commutative, so canonicalize child order.
        let (left, right) = if right.0 < left.0 {
            (right, left)
        } else {
            (left, right)
        };
        let key = and_key(left, right);
        match self.and_hash.get(&key) {
            Some(existing_id) => {
                return *existing_id;
            },
            None => {},
        }
        let index = self.graph.nodes.len();
        let id = NodeId::from_index(index);
        let node = AigNode::new(left, right);
        self.graph.nodes.push(node);
        self.and_hash.insert(key, id);
        proof {
            lemma_from_index(index as int);
            if old(self)@.wf() && old(self)@.graph.valid_signal(left) && old(self)@.graph.valid_signal(right) {
                lemma_and_optimized_wf(old(self)@, left, right);
            }
        }
        id
    }

    /// Whether `add_and_optimized(left, right)` would store a new node.
    pub fn and_would_push(&self, left: NodeId, right: NodeId) -> (b: bool)
        ensures
            b == and_optimized_pushes(self@, left, right),
    {
        broadcast use group_aig, vstd::std_specs::hash::group_hash_axioms;

        if left.is_false() || right.is_false() || left.is_true() || right.is_true() || left == right
            || left == right.invert() {
            return false;
        }
        let (left, right) = if right.0 < left.0 {
            (right, left)
        } else {
            (left, right)
        };
        let key = and_key(left, right);
        !self.and_hash.contains_key(&key)
    }

    pub fn add_output(&mut self, output: NodeId)
        ensures
            final(self)@ == spec_add_output(old(self)@, output),
            old(self)@.wf() && old(self)@.graph.valid_signal(output) ==> final(self)@.wf(),
    {
        self.graph.outputs.push(output);
        proof {
            if old(self)@.wf() && old(self)@.graph.valid_signal(output) {
                lemma_add_output_wf(old(self)@, output);
            }
        }
    }
}

} // verus!

verus! {

/// Law: inverting twice gives the signal back, inversion flips the
/// inversion bit and keeps the regular part, and true is inverted false.
pub proof fn lemma_invert_laws(x: NodeId)
    ensures
        x.spec_invert().spec_invert() == x,
        x.spec_invert().is_inverted() != x.is_inverted(),
        x.spec_invert().spec_regular() == x.spec_regular(),
        !x.spec_regular().is_inverted(),
        x.spec_regular().spec_regular() == x.spec_regular(),
        x.spec_invert().is_const() == x.is_const(),
        NodeId::from_val(0).spec_invert() == NodeId::from_val(1),
{
    broadcast use group_aig;

    assert(x.spec_invert().spec_invert().val() == x.val());
    assert(x.spec_invert().spec_regular().val() == x.spec_regular().val());
    assert(x.spec_regular().spec_regular().val() == x.spec_regular().val());
    assert(NodeId::from_val(0).spec_invert().val() == 1);
}

/// Law: graph indices and regular node ids correspond one to one.
pub proof fn lemma_index_roundtrip(i: int, x: NodeId)
    requires
        0 <= i <= MAX_GRAPH_INDEX,
    ensures
        NodeId::spec_from_index(i).spec_index() == i,
        !NodeId::spec_from_index(i).is_inverted(),
        !NodeId::spec_from_index(i).is_const(),
        !NodeId::spec_from_index(i).is_marker(),
        !x.is_const() && !x.is_marker() ==> NodeId::spec_from_index(x.spec_index())
            == x.spec_regular(),
{
    broadcast use group_aig;

    if !x.is_const() && !x.is_marker() {
        assert(NodeId::spec_from_index(x.spec_index()).val() == x.spec_regular().val());
    }
}

/// Law: asking the builder for the same optimized AND twice returns the
/// same signal and leaves the builder as the first call left it.
pub proof fn lemma_and_optimized_idempotent(b: BuilderView, left: NodeId, right: NodeId)
    ensures
        ({
            let (b1, id1) = spec_and_optimized(b, left, right);
            let (b2, id2) = spec_and_optimized(b1, left, right);
            b2 == b1 && id2 == id1
        }),
{
}

/// Law: the optimized AND does not depend on the order of its operands.
pub proof fn lemma_and_optimized_commutative(b: BuilderView, left: NodeId, right: NodeId)
    ensures
        spec_and_optimized(b, left, right) == spec_and_optimized(b, right, left),
{
    broadcast use group_aig;

    lemma_invert_laws(left);
    lemma_invert_laws(right);
    if left != right {
        assert(left.val() != right.val());
    }
}

} // verus!

verus! {

/// Setting a latch's next state to a stored signal keeps the builder's
/// invariant and the node a latch, and changes no other node.
pub proof fn lemma_set_latch_input_wf(b: BuilderView, latch_id: NodeId, x: NodeId)
    requires
        b.wf(),
        b.graph.has_node(latch_id),
        b.graph.node_of(latch_id).is_latch(),
        b.graph.valid_signal(x),
    ensures
        ({
            let b2 = spec_set_latch_input(b, latch_id, x);
            &&& b2.wf()
            &&& b2.graph.nodes.len() == b.graph.nodes.len()
            &&& b2.graph.node_of(latch_id).is_latch()
            &&& b2.graph.node_of(latch_id).spec_right() == x
            &&& forall|i: int|
                0 <= i < b.graph.nodes.len() && i != latch_id.spec_index() ==> b2.graph.nodes[i]
                    == b.graph.nodes[i]
        }),
{
    broadcast use group_aig;

    let b2 = spec_set_latch_input(b, latch_id, x);
    let g = b.graph;
    let g2 = b2.graph;
    let li = latch_id.spec_index();
    assert(g2.nodes[li] == AigNode::from_parts(g.node_of(latch_id).spec_left(), x));
    assert forall|k: int| 0 <= k < g2.inputs.len() implies {
        &&& g2.has_node(#[trigger] g2.inputs[k])
        &&& !g2.inputs[k].is_inverted()
        &&& g2.node_of(g2.inputs[k]).is_input()
    } by {
        assert(g.node_of(g.inputs[k]).is_input());
        if g.inputs[k].spec_index() == li {
            assert(false);
        }
    }
    assert forall|k: int| 0 <= k < g2.latches.len() implies {
        &&& g2.has_node(#[trigger] g2.latches[k])
        &&& !g2.latches[k].is_inverted()
        &&& g2.node_of(g2.latches[k]).is_latch()
        &&& g2.valid_signal(g2.node_of(g2.latches[k]).spec_right())
    } by {
        assert(g.node_of(g.latches[k]).is_latch());
    }
    assert forall|i: int| 0 <= i < g2.nodes.len() implies {
        let n = #[trigger] g2.nodes[i];
        if n.is_and() {
            g2.signal_below(n.spec_left(), i) && g2.signal_below(n.spec_right(), i)
        } else {
            ||| g2.inputs.contains(NodeId::spec_from_index(i))
            ||| g2.latches.contains(NodeId::spec_from_index(i))
        }
    } by {
        if i == li {
            assert(g.nodes[i] == g.node_of(latch_id));
        } else {
            assert(g2.nodes[i] == g.nodes[i]);
        }
    }
    assert forall|k: u64| #[trigger] b2.hash.contains_key(k) implies {
        let id = b2.hash[k];
        &&& b2.graph.has_node(id)
        &&& !id.is_inverted()
        &&& b2.graph.node_of(id).is_and()
        &&& spec_and_key(b2.graph.node_of(id).spec_left(), b2.graph.node_of(id).spec_right()) == k
    } by {
        let id = b.hash[k];
        assert(g.node_of(id).is_and());
        if id.spec_index() == li {
            assert(false);
        }
    }
}

} // verus!

verus! {

/// `b2` keeps the nodes of `b` as a prefix and the same input, latch and
/// output lists.
pub open spec fn extends(b: BuilderView, b2: BuilderView) -> bool {
    &&& b.graph.nodes.len() <= b2.graph.nodes.len()
    &&& forall|i: int| 0 <= i < b.graph.nodes.len() ==> b2.graph.nodes[i] == b.graph.nodes[i]
    &&& b2.graph.inputs == b.graph.inputs
    &&& b2.graph.latches == b.graph.latches
    &&& b2.graph.outputs == b.graph.outputs
}

/// Adding an input keeps the builder's invariant.
pub proof fn lemma_add_input_wf(b: BuilderView)
    requires
        b.wf(),
        b.graph.nodes.len() <= MAX_GRAPH_INDEX,
    ensures
        ({
            let (b2, id) = spec_add_input(b);
            &&& b2.wf()
            &&& b2.graph.has_node(id)
            &&& b2.graph.node_of(id).is_input()
            &&& forall|i: int| 0 <= i < b.graph.nodes.len() ==> b2.graph.nodes[i] == b.graph.nodes[i]
        }),
{
    let (b2, id) = spec_add_input(b);
    lemma_from_index(b.graph.nodes.len() as int);
    GraphView::lemma_push_input_wf(b.graph);
    BuilderView::lemma_push_node_hash_wf(b, b2.graph);
}

/// Adding a latch whose next state is a stored signal (possibly the latch
/// itself) keeps the builder's invariant.
pub proof fn lemma_add_latch_wf(b: BuilderView, latch_input: NodeId)
    requires
        b.wf(),
        b.graph.nodes.len() <= MAX_GRAPH_INDEX,
        spec_add_latch(b, latch_input).0.graph.valid_signal(latch_input),
    ensures
        ({
            let (b2, id) = spec_add_latch(b, latch_input);
            &&& b2.wf()
            &&& b2.graph.has_node(id)
            &&& b2.graph.node_of(id).is_latch()
            &&& forall|i: int| 0 <= i < b.graph.nodes.len() ==> b2.graph.nodes[i] == b.graph.nodes[i]
        }),
{
    broadcast use group_aig;

    let (b2, id) = spec_add_latch(b, latch_input);
    lemma_from_index(b.graph.nodes.len() as int);
    GraphView::lemma_push_latch_wf(b.graph, latch_input);
    BuilderView::lemma_push_node_hash_wf(b, b2.graph);
}

/// Adding an output that is a stored signal keeps the builder's invariant.
pub proof fn lemma_add_output_wf(b: BuilderView, output: NodeId)
    requires
        b.wf(),
        b.graph.valid_signal(output),
    ensures
        spec_add_output(b, output).wf(),
{
    GraphView::lemma_push_output_wf(b.graph, output);
    BuilderView::lemma_push_node_hash_wf(b, spec_add_output(b, output).graph);
}

/// The AND node that `add_and_raw` adds keeps the builder's invariant when
/// its children are stored signals.
pub proof fn lemma_add_and_raw_wf(b: BuilderView, left: NodeId, right: NodeId)
    requires
        b.wf(),
        b.graph.nodes.len() <= MAX_GRAPH_INDEX,
        b.graph.valid_signal(left),
        b.graph.valid_signal(right),
    ensures
        ({
            let (b2, id) = spec_add_and_raw(b, left, right);
            &&& b2.wf()
            &&& b2.graph.has_node(id)
            &&& b2.graph.nodes.len() == b.graph.nodes.len() + 1
            &&& extends(b, b2)
        }),
{
    let (b2, id) = spec_add_and_raw(b, left, right);
    lemma_from_index(b.graph.nodes.len() as int);
    GraphView::lemma_push_and_wf(b.graph, left, right);
    BuilderView::lemma_push_node_hash_wf(b, b2.graph);
}

/// The optimized AND of two stored signals keeps the builder's invariant,
/// returns a stored signal, and adds at most one node.
pub proof fn lemma_and_optimized_wf(b: BuilderView, left: NodeId, right: NodeId)
    requires
        b.wf(),
        b.graph.valid_signal(left),
        b.graph.valid_signal(right),
        b.graph.nodes.len() <= MAX_GRAPH_INDEX || !and_optimized_pushes(b, left, right),
    ensures
        ({
            let (b2, id) = spec_and_optimized(b, left, right);
            &&& b2.wf()
            &&& b2.graph.valid_signal(id)
            &&& b2.graph.nodes.len() <= b.graph.nodes.len() + 1
            &&& extends(b, b2)
        }),
{
    broadcast use group_aig;

    let (b2, id) = spec_and_optimized(b, left, right);
    if left.is_false() || right.is_false() || left.is_true() || right.is_true() || left == right
        || left == right.spec_invert() {
        return;
    }
    let (l, r) = if right.val() < left.val() {
        (right, left)
    } else {
        (left, right)
    };
    let key = spec_and_key(l, r);
    if b.hash.contains_key(key) {
        return;
    }
    lemma_from_index(b.graph.nodes.len() as int);
    GraphView::lemma_push_and_wf(b.graph, l, r);
    BuilderView::lemma_push_node_hash_wf(b, b2.graph);
    assert(!l.is_marker());
    assert forall|k: u64| #[trigger] b2.hash.contains_key(k) implies {
        let i = b2.hash[k];
        &&& b2.graph.has_node(i)
        &&& !i.is_inverted()
        &&& b2.graph.node_of(i).is_and()
        &&& spec_and_key(b2.graph.node_of(i).spec_left(), b2.graph.node_of(i).spec_right()) == k
    } by {
        if k != key {
            assert((BuilderView { graph: b2.graph, hash: b.hash }).hash_wf());
            assert(b.hash.contains_key(k));
        }
    }
}

impl Default for AigGraph {
    fn default() -> (r: Self)
        ensures
            r@ == GraphView::empty(),
    {
        Self::new()
    }
}

impl Default for AigBuilder {
    fn default() -> (r: Self)
        ensures
            r@.graph == GraphView::empty(),
            r@.hash == Map::<u64, NodeId>::empty(),
    {
        Self::new()
    }
}

} // verus!
