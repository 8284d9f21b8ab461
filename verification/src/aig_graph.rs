use crate::graph::graphviz::occurs_in;
use crate::text::{dec_str, input_label_str, push_decimal};
use std::collections::HashMap;
use vstd::prelude::*;

verus! {

const INVERSION_MASK: u32 = 1;

const NODE_ID_MASK: u32 = 0xFFFF_FFFE;

/// The largest graph index whose `NodeId` does not wrap around.
pub const MAX_INDEX: usize = 0x7FFF_FFFE;

/// A reference to a signal: the low bit says whether it is inverted, the
/// other bits name a constant (0) or the node at graph index `v / 2 - 1`.
#[derive(Debug, Clone, Copy, PartialEq, Eq, Hash, PartialOrd, Ord, Structural)]
pub struct NodeId(u32);

impl NodeId {
    pub closed spec fn val(self) -> u32 {
        self.0
    }

    pub closed spec fn from_val(v: u32) -> NodeId {
        NodeId(v)
    }

    pub broadcast proof fn lemma_from_val(v: u32)
        ensures
            #[trigger] NodeId::from_val(v).val() == v,
    {
    }

    pub broadcast proof fn lemma_val_injective(a: NodeId, b: NodeId)
        ensures
            #[trigger] a.val() == #[trigger] b.val() ==> a == b,
    {
    }

    pub open spec fn spec_is_inverted(self) -> bool {
        self.val() % 2 == 1
    }

    pub open spec fn spec_regular(self) -> NodeId {
        NodeId::from_val((self.val() - self.val() % 2) as u32)
    }

    pub open spec fn spec_invert(self) -> NodeId {
        NodeId::from_val(
            if self.val() % 2 == 0 {
                (self.val() + 1) as u32
            } else {
                (self.val() - 1) as u32
            },
        )
    }

    pub open spec fn spec_is_const(self) -> bool {
        self.val() < 2
    }

    pub open spec fn spec_is_false(self) -> bool {
        self.val() == 0
    }

    pub open spec fn spec_is_true(self) -> bool {
        self.val() == 1
    }

    /// The graph index of a non-constant signal's node.
    pub open spec fn spec_index(self) -> int {
        self.val() / 2 - 1
    }

    pub open spec fn spec_from_index(index: int) -> NodeId {
        NodeId::from_val((2 * (index + 1)) as u32)
    }

    /// The marker that fills the child fields of input and latch nodes.
    pub open spec fn marker() -> NodeId {
        NodeId::from_val(0xFFFF_FFFEu32)
    }

    pub fn false_id() -> (r: NodeId)
        ensures
            r == NodeId::from_val(0),
    {
        NodeId(0)
    }

    pub fn true_id() -> (r: NodeId)
        ensures
            r == NodeId::from_val(1),
    {
        NodeId(1)
    }

    #[verifier::when_used_as_spec(spec_is_inverted)]
    pub fn is_inverted(self) -> (b: bool)
        ensures
            b == self.spec_is_inverted(),
    {
        let v = self.0;
        let r = (v & INVERSION_MASK) != 0;
        assert(r == (v % 2 == 1)) by (bit_vector)
            requires
                r == ((v & 1u32) != 0),
        ;
        r
    }

    #[verifier::when_used_as_spec(spec_regular)]
    pub fn regular(self) -> (r: Self)
        ensures
            r == self.spec_regular(),
    {
        let v = self.0;
        let w = v & NODE_ID_MASK;
        assert(w == v - v % 2) by (bit_vector)
            requires
                w == v & 0xFFFF_FFFEu32,
        ;
        NodeId(w)
    }

    #[verifier::when_used_as_spec(spec_invert)]
    pub fn invert(self) -> (r: Self)
        ensures
            r == self.spec_invert(),
    {
        let v = self.0;
        let w = v ^ INVERSION_MASK;
        assert(w == if v % 2 == 0 {
            (v + 1) as u32
        } else {
            (v - 1) as u32
        }) by (bit_vector)
            requires
                w == v ^ 1u32,
        ;
        NodeId(w)
    }

    #[verifier::when_used_as_spec(spec_is_const)]
    pub fn is_const(self) -> (b: bool)
        ensures
            b == self.spec_is_const(),
    {
        self.regular().0 == 0
    }

    #[verifier::when_used_as_spec(spec_is_false)]
    pub fn is_false(self) -> (b: bool)
        ensures
            b == self.spec_is_false(),
    {
        self.0 == 0
    }

    #[verifier::when_used_as_spec(spec_is_true)]
    pub fn is_true(self) -> (b: bool)
        ensures
            b == self.spec_is_true(),
    {
        self.0 == 1
    }

    fn index(self) -> (i: usize)
        requires
            !self.is_const(),
        ensures
            i == self.spec_index(),
    {
        match self.to_index() {
            Some(i) => i,
            None => 0,
        }
    }

    // Given a NodeId, find the Vec index of the underlying real node.
    fn to_index(self) -> (r: Option<usize>)
        ensures
            r is Some <==> !self.is_const(),
            r matches Some(i) ==> i == self.spec_index(),
    {
        if self.is_const() {
            None  // constants aren't stored in the graph

        } else {
            let v = self.regular().0;
            let half = v >> 1;
            assert(half == v / 2) by (bit_vector)
                requires
                    half == v >> 1u32,
            ;
            Some((half - 1) as usize)
        }
    }

    // Given a Vec index, produce the regular non-inverted NodeId.
    fn from_index(index: usize) -> (r: Self)
        requires
            index <= MAX_INDEX,
        ensures
            r == NodeId::spec_from_index(index as int),
    {
        let x = (index as u32) + 1;
        let v = x << 1u32;
        assert(v == 2 * x) by (bit_vector)
            requires
                x <= 0x7FFF_FFFFu32,
                v == x << 1u32,
        ;
        NodeId(v)
    }
}

fn input_node_marker() -> (r: NodeId)
    ensures
        r == NodeId::marker(),
{
    NodeId(NODE_ID_MASK)
}

/// One node: an AND gate, or (marker in `left`) an input or a latch.
#[derive(Debug, Clone, Copy, PartialEq, Eq, Hash, Structural)]
pub struct AigNode {
    left: NodeId,
    right: NodeId,
}

impl AigNode {
    pub closed spec fn spec_left(&self) -> NodeId {
        self.left
    }

    pub closed spec fn spec_right(&self) -> NodeId {
        self.right
    }

    pub closed spec fn from_parts(left: NodeId, right: NodeId) -> AigNode {
        AigNode { left, right }
    }

    pub broadcast proof fn lemma_from_parts(left: NodeId, right: NodeId)
        ensures
            #[trigger] AigNode::from_parts(left, right).spec_left() == left,
            AigNode::from_parts(left, right).spec_right() == right,
    {
    }

    pub open spec fn spec_is_input(&self) -> bool {
        self.spec_left().spec_regular() == NodeId::marker() && self.spec_right().spec_regular()
            == NodeId::marker()
    }

    pub open spec fn spec_is_latch(&self) -> bool {
        self.spec_left().spec_regular() == NodeId::marker() && self.spec_right().spec_regular()
            != NodeId::marker()
    }

    pub open spec fn spec_is_and(&self) -> bool {
        self.spec_left().spec_regular() != NodeId::marker()
    }

    fn new(left: NodeId, right: NodeId) -> (r: Self)
        ensures
            r == AigNode::from_parts(left, right),
    {
        Self { left, right }
    }

    fn new_input() -> (r: Self)
        ensures
            r == AigNode::from_parts(NodeId::marker(), NodeId::marker()),
    {
        Self { left: input_node_marker(), right: input_node_marker() }
    }

    fn new_latch(latch_id: NodeId) -> (r: Self)
        ensures
            r == AigNode::from_parts(NodeId::marker(), latch_id),
    {
        Self { left: input_node_marker(), right: latch_id }
    }

    #[verifier::when_used_as_spec(spec_left)]
    pub fn left(&self) -> (r: NodeId)
        ensures
            r == self.spec_left(),
    {
        self.left
    }

    #[verifier::when_used_as_spec(spec_right)]
    pub fn right(&self) -> (r: NodeId)
        ensures
            r == self.spec_right(),
    {
        self.right
    }

    #[verifier::when_used_as_spec(spec_is_input)]
    pub fn is_input(&self) -> (b: bool)
        ensures
            b == self.spec_is_input(),
    {
        self.left.regular() == input_node_marker() && self.right.regular() == input_node_marker()
    }

    #[verifier::when_used_as_spec(spec_is_latch)]
    pub fn is_latch(&self) -> (b: bool)
        ensures
            b == self.spec_is_latch(),
    {
        self.left.regular() == input_node_marker() && self.right.regular() != input_node_marker()
    }

    #[verifier::when_used_as_spec(spec_is_and)]
    pub fn is_and(&self) -> (b: bool)
        ensures
            b == self.spec_is_and(),
    {
        self.left.regular() != input_node_marker()
    }
}

pub broadcast group group_old_aig {
    NodeId::lemma_from_val,
    NodeId::lemma_val_injective,
    AigNode::lemma_from_parts,
}

/// The hash key of an AND node with children `left` and `right`.
pub open spec fn spec_and_key(left: NodeId, right: NodeId) -> u64 {
    (left.val() * 0x1_0000_0000 + right.val()) as u64
}

fn and_key(left: NodeId, right: NodeId) -> (k: u64)
    ensures
        k == spec_and_key(left, right),
{
    let l = left.0 as u64;
    let r = right.0 as u64;
    let k = (l << 32u64) | r;
    assert(k == l * 0x1_0000_0000 + r) by (bit_vector)
        requires
            l < 0x1_0000_0000,
            r < 0x1_0000_0000,
            k == (l << 32u64) | r,
    ;
    k
}

/// The abstract contents of an [`AigGraph`].
pub struct AigGraphView {
    pub nodes: Seq<AigNode>,
    pub hash: Map<u64, NodeId>,
    pub inputs: Seq<NodeId>,
    pub latches: Seq<NodeId>,
    pub outputs: Seq<NodeId>,
}

impl AigGraphView {
    /// Node ids do not wrap around, and every latch names a stored node.
    pub open spec fn wf(self) -> bool {
        &&& self.nodes.len() <= MAX_INDEX + 1
        &&& forall|k: int|
            0 <= k < self.latches.len() ==> !(#[trigger] self.latches[k]).is_const() && 0
                <= self.latches[k].spec_index() < self.nodes.len()
    }

    /// The node that `id` (or its inversion) refers to.
    pub open spec fn node_of(self, id: NodeId) -> AigNode {
        self.nodes[id.spec_index()]
    }

    /// Every entry of the AND table names a stored, regular AND node whose
    /// children give the entry's key.
    pub open spec fn hash_wf(self) -> bool {
        forall|k: u64|
            #[trigger] self.hash.contains_key(k) ==> {
                let id = self.hash[k];
                &&& !id.is_const()
                &&& !id.is_inverted()
                &&& 0 <= id.spec_index() < self.nodes.len()
                &&& self.node_of(id).is_and()
                &&& spec_and_key(self.node_of(id).spec_left(), self.node_of(id).spec_right()) == k
            }
    }
}

/// An and-inverter graph with a table of its AND nodes.
#[derive(Debug)]
pub struct AigGraph {
    graph: Vec<AigNode>,
    and_hash: HashMap<u64, NodeId>,
    inputs: Vec<NodeId>,
    latches: Vec<NodeId>,
    outputs: Vec<NodeId>,
}

impl View for AigGraph {
    type V = AigGraphView;

    closed spec fn view(&self) -> AigGraphView {
        AigGraphView {
            nodes: self.graph@,
            hash: self.and_hash@,
            inputs: self.inputs@,
            latches: self.latches@,
            outputs: self.outputs@,
        }
    }
}

/// `add_and_optimized` on a graph in state `g`: the new state and the
/// returned signal.
pub open spec fn spec_and_optimized(g: AigGraphView, left: NodeId, right: NodeId) -> (AigGraphView, NodeId) {
    if left == NodeId::from_val(0) || right == NodeId::from_val(0) {
        (g, NodeId::from_val(0))
    } else if left == NodeId::from_val(1) {
        (g, right)
    } else if right == NodeId::from_val(1) {
        (g, left)
    } else if left == right {
        (g, left)
    } else if left == right.spec_invert() {
        (g, NodeId::from_val(0))
    } else {
        let (l, r) = if right.val() < left.val() {
            (right, left)
        } else {
            (left, right)
        };
        let key = spec_and_key(l, r);
        if g.hash.contains_key(key) {
            (g, g.hash[key])
        } else {
            let id = NodeId::spec_from_index(g.nodes.len() as int);
            (
                AigGraphView {
                    nodes: g.nodes.push(AigNode::from_parts(l, r)),
                    hash: g.hash.insert(key, id),
                    ..g
                },
                id,
            )
        }
    }
}

/// Whether `add_and_optimized` stores a new node.
pub open spec fn and_optimized_pushes(g: AigGraphView, left: NodeId, right: NodeId) -> bool {
    spec_and_optimized(g, left, right).0.nodes.len() > g.nodes.len()
}

impl AigGraph {
    pub fn new() -> (r: Self)
        ensures
            r@.nodes == Seq::<AigNode>::empty(),
            r@.hash == Map::<u64, NodeId>::empty(),
            r@.inputs == Seq::<NodeId>::empty(),
            r@.latches == Seq::<NodeId>::empty(),
            r@.outputs == Seq::<NodeId>::empty(),
            r@.wf(),
            r@.hash_wf(),
    {
        Self {
            graph: Vec::new(),
            and_hash: HashMap::new(),
            inputs: Vec::new(),
            latches: Vec::new(),
            outputs: Vec::new(),
        }
    }

    /// The node that a stored signal refers to.
    pub fn node_at(&self, id: NodeId) -> (r: &AigNode)
        requires
            !id.is_const(),
            0 <= id.spec_index() < self@.nodes.len(),
        ensures
            *r == self@.node_of(id),
    {
        &self.graph[id.index()]
    }

    /// The number of nodes stored so far.
    pub fn num_nodes(&self) -> (n: usize)
        ensures
            n == self@.nodes.len(),
    {
        self.graph.len()
    }

    pub fn add_input(&mut self) -> (id: NodeId)
        requires
            old(self)@.nodes.len() <= MAX_INDEX,
        ensures
            id == NodeId::spec_from_index(old(self)@.nodes.len() as int),
            final(self)@ == (AigGraphView {
                nodes: old(self)@.nodes.push(AigNode::from_parts(NodeId::marker(), NodeId::marker())),
                inputs: old(self)@.inputs.push(id),
                ..old(self)@
            }),
            old(self)@.wf() ==> final(self)@.wf(),
            old(self)@.hash_wf() ==> final(self)@.hash_wf(),
    {
        let index: usize = self.graph.len();
        let id: NodeId = NodeId::from_index(index);
        self.graph.push(AigNode::new_input());
        self.inputs.push(id);
        id
    }

    pub fn add_latch(&mut self, latch_input: NodeId) -> (id: NodeId)
        requires
            old(self)@.nodes.len() <= MAX_INDEX,
        ensures
            id == NodeId::spec_from_index(old(self)@.nodes.len() as int),
            final(self)@ == (AigGraphView {
                nodes: old(self)@.nodes.push(AigNode::from_parts(NodeId::marker(), latch_input)),
                latches: old(self)@.latches.push(id),
                ..old(self)@
            }),
            old(self)@.wf() ==> final(self)@.wf(),
            old(self)@.hash_wf() ==> final(self)@.hash_wf(),
    {
        let index = self.graph.len();
        let id = NodeId::from_index(index);
        self.graph.push(AigNode::new_latch(latch_input));
        self.latches.push(id);
        proof {
            if old(self)@.wf() {
                assert forall|k: int| 0 <= k < self@.latches.len() implies !(#[trigger] self@.latches[k]).is_const() && 0
                    <= self@.latches[k].spec_index() < self@.nodes.len() by {
                    if k < old(self)@.latches.len() {
                        assert(self@.latches[k] == old(self)@.latches[k]);
                    }
                }
            }
        }
        id
    }

    /// Replaces the next-state signal of the latch `latch_id`.
    pub fn set_latch_input(&mut self, latch_id: NodeId, latch_input: NodeId)
        requires
            !latch_id.is_const(),
            0 <= latch_id.spec_index() < old(self)@.nodes.len(),
            old(self)@.node_of(latch_id).is_latch(),
        ensures
            final(self)@ == (AigGraphView {
                nodes: old(self)@.nodes.update(
                    latch_id.spec_index(),
                    AigNode::from_parts(NodeId::marker(), latch_input),
                ),
                ..old(self)@
            }),
            old(self)@.wf() ==> final(self)@.wf(),
            old(self)@.hash_wf() ==> final(self)@.hash_wf(),
    {
        let latch_index = latch_id.index();
        self.graph.set(latch_index, AigNode::new_latch(latch_input));
    }

    pub fn add_and_raw(&mut self, left: NodeId, right: NodeId) -> (id: NodeId)
        requires
            old(self)@.nodes.len() <= MAX_INDEX,
        ensures
            id == NodeId::spec_from_index(old(self)@.nodes.len() as int),
            final(self)@ == (AigGraphView {
                nodes: old(self)@.nodes.push(AigNode::from_parts(left, right)),
                ..old(self)@
            }),
            old(self)@.wf() ==> final(self)@.wf(),
            old(self)@.hash_wf() ==> final(self)@.hash_wf(),
    {
        let index = self.graph.len();
        let id = NodeId::from_index(index);
        self.graph.push(AigNode::new(left, right));
        id
    }

    /// Adds the AND of two signals, simplifying constant, repeated and
    /// complementary operands and reusing a node with the same children.
    pub fn add_and_optimized(&mut self, left: NodeId, right: NodeId) -> (id: NodeId)
        requires
            old(self)@.nodes.len() <= MAX_INDEX || !and_optimized_pushes(old(self)@, left, right),
        ensures
            (final(self)@, id) == spec_and_optimized(old(self)@, left, right),
            old(self)@.wf() ==> final(self)@.wf(),
            old(self)@.hash_wf() ==> final(self)@.hash_wf(),
    {
        broadcast use group_old_aig, vstd::std_specs::hash::group_hash_axioms;

        let false_id = NodeId::false_id();
        let true_id = NodeId::true_id();
        // x & false = false
        if left == false_id || right == false_id {
            return false_id;
        }
        // x & true = x
        if left == true_id {
            return right;
        }
        if right == true_id {
            return left;
        }
        // x & x = x
        if left == right {
            return left;
        }
        // x & !x = false
        if left == right.invert() {
            return false_id;
        }
        // AND is commutative, so canonicalize child order.
        let (left, right) = if right.0 < left.0 {
            (right, left)
        } else {
            (left, right)
        };
        let key = and_key(left, right);
        match self.and_hash.get(&key) {
            Some(existing_id) => {
                return *existing_id;
            },
            None => {},
        }
        let index = self.graph.len();
        let id = NodeId::from_index(index);
        self.graph.push(AigNode::new(left, right));
        self.and_hash.insert(key, id);
        id
    }

    pub fn add_output(&mut self, output: NodeId)
        ensures
            final(self)@ == (AigGraphView { outputs: old(self)@.outputs.push(output), ..old(self)@ }),
            old(self)@.wf() ==> final(self)@.wf(),
            old(self)@.hash_wf() ==> final(self)@.hash_wf(),
    {
        self.outputs.push(output);
        assert(self@.latches == old(self)@.latches);
        assert(self@.nodes == old(self)@.nodes);
    }
}

} // verus!


verus! {

/// The DOT name of a (regular) signal.
pub open spec fn dot_name_str(id: NodeId) -> Seq<char> {
    if id.is_false() {
        "const_false"@
    } else if id.is_true() {
        "const_true"@
    } else {
        "n"@ + dec_str(id.spec_index() as nat)
    }
}

/// The DOT edge from `child` into the node named `parent`, dashed when the
/// child is inverted.
pub open spec fn dot_edge_str(child: NodeId, parent: Seq<char>, label: Seq<char>) -> Seq<char> {
    let c = dot_name_str(child.spec_regular());
    if label.len() == 0 {
        if child.is_inverted() {
            "\t"@ + c + " -> "@ + parent + " [style=dashed];\n"@
        } else {
            "\t"@ + c + " -> "@ + parent + ";\n"@
        }
    } else if child.is_inverted() {
        "\t"@ + c + " -> "@ + parent + " [label=\""@ + label + "\", style=dashed];\n"@
    } else {
        "\t"@ + c + " -> "@ + parent + " [label=\""@ + label + "\"];\n"@
    }
}

pub open spec fn dot_inputs_str(g: AigGraphView, n: int) -> Seq<char>
    decreases n,
{
    if n <= 0 {
        Seq::empty()
    } else {
        dot_inputs_str(g, n - 1) + "\t"@ + dot_name_str(g.inputs[n - 1].spec_regular()) + " [label=\""@
            + input_label_str((n - 1) as nat) + "\", shape=box];\n"@
    }
}

pub open spec fn dot_latches_str(g: AigGraphView, n: int) -> Seq<char>
    decreases n,
{
    if n <= 0 {
        Seq::empty()
    } else {
        dot_latches_str(g, n - 1) + "\t"@ + dot_name_str(g.latches[n - 1].spec_regular())
            + " [label=\"l"@ + dec_str((n - 1) as nat) + "\", shape=box, style=rounded];\n"@
    }
}

pub open spec fn dot_and_nodes_str(g: AigGraphView, n: int) -> Seq<char>
    decreases n,
{
    if n <= 0 {
        Seq::empty()
    } else if g.nodes[n - 1].is_and() {
        dot_and_nodes_str(g, n - 1) + "\t"@ + dot_name_str(NodeId::spec_from_index(n - 1))
            + " [label=\"AND\", shape=circle];\n"@
    } else {
        dot_and_nodes_str(g, n - 1)
    }
}

pub open spec fn dot_and_edges_str(g: AigGraphView, n: int) -> Seq<char>
    decreases n,
{
    if n <= 0 {
        Seq::empty()
    } else if g.nodes[n - 1].is_and() {
        let name = dot_name_str(NodeId::spec_from_index(n - 1));
        dot_and_edges_str(g, n - 1) + dot_edge_str(g.nodes[n - 1].spec_left(), name, "left"@)
            + dot_edge_str(g.nodes[n - 1].spec_right(), name, "right"@)
    } else {
        dot_and_edges_str(g, n - 1)
    }
}

pub open spec fn dot_latch_edges_str(g: AigGraphView, n: int) -> Seq<char>
    decreases n,
{
    if n <= 0 {
        Seq::empty()
    } else {
        dot_latch_edges_str(g, n - 1) + dot_edge_str(
            g.node_of(g.latches[n - 1]).spec_right(),
            dot_name_str(g.latches[n - 1].spec_regular()),
            "next"@,
        )
    }
}

pub open spec fn output_name_str(k: nat) -> Seq<char> {
    "out"@ + dec_str(k)
}

pub open spec fn dot_outputs_str(g: AigGraphView, n: int) -> Seq<char>
    decreases n,
{
    if n <= 0 {
        Seq::empty()
    } else {
        dot_outputs_str(g, n - 1) + "\t"@ + output_name_str((n - 1) as nat) + " [label=\"out"@ + dec_str(
            (n - 1) as nat,
        ) + "\", shape=box];\n"@ + dot_edge_str(g.outputs[n - 1], output_name_str((n - 1) as nat), ""@)
    }
}

/// The Graphviz DOT text of a graph.
pub open spec fn spec_to_dot(g: AigGraphView) -> Seq<char> {
    "digraph AIG {\n\trankdir=BT;\n\tordering=out;\n\tnode [fontname=\"Helvetica\"];\n\tedge [fontname=\"Helvetica\"];\n\n\tconst_false [label=\"false\", shape=box];\n\tconst_true [label=\"true\", shape=box];\n\n"@
        + dot_inputs_str(g, g.inputs.len() as int) + "\n"@ + dot_latches_str(g, g.latches.len() as int)
        + "\n"@ + dot_and_nodes_str(g, g.nodes.len() as int) + "\n"@ + dot_and_edges_str(
        g,
        g.nodes.len() as int,
    ) + "\n"@ + dot_latch_edges_str(g, g.latches.len() as int) + "\n"@ + dot_outputs_str(
        g,
        g.outputs.len() as int,
    ) + "}\n"@
}

impl AigGraph {
    /// The Graphviz DOT text of the graph: constants, inputs (labelled a,
    /// b, ...), latches, AND gates, their edges (dashed when inverted),
    /// latch next-state edges and outputs.
    pub fn to_dot(&self) -> (dot: String)
        requires
            self@.wf(),
        ensures
            dot@ == spec_to_dot(self@),
    {
        let mut dot: String = String::new();
        dot.append(
            "digraph AIG {\n\trankdir=BT;\n\tordering=out;\n\tnode [fontname=\"Helvetica\"];\n\tedge [fontname=\"Helvetica\"];\n\n\tconst_false [label=\"false\", shape=box];\n\tconst_true [label=\"true\", shape=box];\n\n",
        );
        self.write_inputs(&mut dot);
        dot.append("\n");
        self.write_latches(&mut dot);
        dot.append("\n");
        self.write_and_nodes(&mut dot);
        dot.append("\n");
        self.write_and_edges(&mut dot);
        dot.append("\n");
        self.write_latch_edges(&mut dot);
        dot.append("\n");
        self.write_outputs(&mut dot);
        dot.append("}\n");
        assert(dot@ =~= spec_to_dot(self@));
        dot
    }

    fn write_inputs(&self, dot: &mut String)
        requires
            self@.wf(),
        ensures
            final(dot)@ == old(dot)@ + dot_inputs_str(self@, self@.inputs.len() as int),
    {
        let mut input_index: usize = 0;
        while input_index < self.inputs.len()
            invariant
                self@.wf(),
                input_index <= self@.inputs.len(),
                dot@ == old(dot)@ + dot_inputs_str(self@, input_index as int),
            decreases self@.inputs.len() - input_index,
        {
            let input_id = self.inputs[input_index];
            let node_name = Self::dot_name(input_id.regular());
            let input_label = Self::input_label(input_index);
            dot.append("\t");
            dot.append(node_name.as_str());
            dot.append(" [label=\"");
            dot.append(input_label.as_str());
            dot.append("\", shape=box];\n");
            input_index = input_index + 1;
            assert(dot@ =~= old(dot)@ + dot_inputs_str(self@, input_index as int));
        }
    }

    fn write_latches(&self, dot: &mut String)
        requires
            self@.wf(),
        ensures
            final(dot)@ == old(dot)@ + dot_latches_str(self@, self@.latches.len() as int),
    {
        let mut latch_index: usize = 0;
        while latch_index < self.latches.len()
            invariant
                self@.wf(),
                latch_index <= self@.latches.len(),
                dot@ == old(dot)@ + dot_latches_str(self@, latch_index as int),
            decreases self@.latches.len() - latch_index,
        {
            let latch_id = self.latches[latch_index];
            let node_name = Self::dot_name(latch_id.regular());
            dot.append("\t");
            dot.append(node_name.as_str());
            dot.append(" [label=\"l");
            push_decimal(dot, latch_index);
            dot.append("\", shape=box, style=rounded];\n");
            latch_index = latch_index + 1;
            assert(dot@ =~= old(dot)@ + dot_latches_str(self@, latch_index as int));
        }
    }

    fn write_and_nodes(&self, dot: &mut String)
        requires
            self@.wf(),
        ensures
            final(dot)@ == old(dot)@ + dot_and_nodes_str(self@, self@.nodes.len() as int),
    {
        let mut index: usize = 0;
        while index < self.graph.len()
            invariant
                self@.wf(),
                index <= self@.nodes.len(),
                self@.nodes.len() <= MAX_INDEX + 1,
                dot@ == old(dot)@ + dot_and_nodes_str(self@, index as int),
            decreases self@.nodes.len() - index,
        {
            let node = &self.graph[index];
            if node.is_and() {
                let node_id = NodeId::from_index(index);
                let node_name = Self::dot_name(node_id);
                dot.append("\t");
                dot.append(node_name.as_str());
                dot.append(" [label=\"AND\", shape=circle];\n");
            }
            index = index + 1;
            assert(dot@ =~= old(dot)@ + dot_and_nodes_str(self@, index as int));
        }
    }

    fn write_and_edges(&self, dot: &mut String)
        requires
            self@.wf(),
        ensures
            final(dot)@ == old(dot)@ + dot_and_edges_str(self@, self@.nodes.len() as int),
    {
        let mut index: usize = 0;
        while index < self.graph.len()
            invariant
                self@.wf(),
                index <= self@.nodes.len(),
                self@.nodes.len() <= MAX_INDEX + 1,
                dot@ == old(dot)@ + dot_and_edges_str(self@, index as int),
            decreases self@.nodes.len() - index,
        {
            let node = &self.graph[index];
            if node.is_and() {
                let parent_id = NodeId::from_index(index);
                let parent_name = Self::dot_name(parent_id);
                Self::write_dot_edge(dot, node.left(), parent_name.as_str(), "left");
                Self::write_dot_edge(dot, node.right(), parent_name.as_str(), "right");
            }
            index = index + 1;
            assert(dot@ =~= old(dot)@ + dot_and_edges_str(self@, index as int));
        }
    }

    fn write_latch_edges(&self, dot: &mut String)
        requires
            self@.wf(),
        ensures
            final(dot)@ == old(dot)@ + dot_latch_edges_str(self@, self@.latches.len() as int),
    {
        let mut k: usize = 0;
        while k < self.latches.len()
            invariant
                self@.wf(),
                k <= self@.latches.len(),
                dot@ == old(dot)@ + dot_latch_edges_str(self@, k as int),
            decreases self@.latches.len() - k,
        {
            let latch_id = self.latches[k];
            let latch = self.node_at(latch_id);
            let latch_name = Self::dot_name(latch_id.regular());
            Self::write_dot_edge(dot, latch.right(), latch_name.as_str(), "next");
            k = k + 1;
            assert(dot@ =~= old(dot)@ + dot_latch_edges_str(self@, k as int));
        }
    }

    fn write_outputs(&self, dot: &mut String)
        requires
            self@.wf(),
        ensures
            final(dot)@ == old(dot)@ + dot_outputs_str(self@, self@.outputs.len() as int),
    {
        let mut index: usize = 0;
        while index < self.outputs.len()
            invariant
                self@.wf(),
                index <= self@.outputs.len(),
                dot@ == old(dot)@ + dot_outputs_str(self@, index as int),
            decreases self@.outputs.len() - index,
        {
            let output = self.outputs[index];
            let mut output_name = String::new();
            output_name.append("out");
            push_decimal(&mut output_name, index);
            dot.append("\t");
            dot.append(output_name.as_str());
            dot.append(" [label=\"out");
            push_decimal(dot, index);
            dot.append("\", shape=box];\n");
            Self::write_dot_edge(dot, output, output_name.as_str(), "");
            index = index + 1;
            assert(dot@ =~= old(dot)@ + dot_outputs_str(self@, index as int));
        }
    }

    fn write_dot_edge(dot: &mut String, child: NodeId, parent_name: &str, edge_label: &str)
        ensures
            final(dot)@ == old(dot)@ + dot_edge_str(child, parent_name@, edge_label@),
    {
        let child_name = Self::dot_name(child.regular());
        if edge_label.is_empty() {
            if child.is_inverted() {
                dot.append("\t");
                dot.append(child_name.as_str());
                dot.append(" -> ");
                dot.append(parent_name);
                dot.append(" [style=dashed];\n");
            } else {
                dot.append("\t");
                dot.append(child_name.as_str());
                dot.append(" -> ");
                dot.append(parent_name);
                dot.append(";\n");
            }
        } else if child.is_inverted() {
            dot.append("\t");
            dot.append(child_name.as_str());
            dot.append(" -> ");
            dot.append(parent_name);
            dot.append(" [label=\"");
            dot.append(edge_label);
            dot.append("\", style=dashed];\n");
        } else {
            dot.append("\t");
            dot.append(child_name.as_str());
            dot.append(" -> ");
            dot.append(parent_name);
            dot.append(" [label=\"");
            dot.append(edge_label);
            dot.append("\"];\n");
        }
        assert(dot@ =~= old(dot)@ + dot_edge_str(child, parent_name@, edge_label@));
    }

    fn dot_name(id: NodeId) -> (r: String)
        ensures
            r@ == dot_name_str(id),
    {
        let mut s = String::new();
        if id.is_false() {
            s.append("const_false");
        } else if id.is_true() {
            s.append("const_true");
        } else {
            s.append("n");
            push_decimal(&mut s, id.index());
        }
        assert(s@ =~= dot_name_str(id));
        s
    }

    // to represent inputs as letters instead of numbers
    fn input_label(index: usize) -> (r: String)
        ensures
            r@ == input_label_str(index as nat),
    {
        crate::text::input_label(index)
    }
}

} // verus!

verus! {

impl Default for AigGraph {
    fn default() -> (r: Self)
        ensures
            r@.nodes == Seq::<AigNode>::empty(),
            r@.hash == Map::<u64, NodeId>::empty(),
            r@.inputs == Seq::<NodeId>::empty(),
            r@.latches == Seq::<NodeId>::empty(),
            r@.outputs == Seq::<NodeId>::empty(),
    {
        Self::new()
    }
}

} // verus!

verus! {

/// Law: inverting twice gives the signal back, inversion flips the
/// inversion bit and keeps the regular part, and true is inverted false.
pub proof fn lemma_invert_laws(x: NodeId)
    ensures
        x.spec_invert().spec_invert() == x,
        x.spec_invert().is_inverted() != x.is_inverted(),
        x.spec_invert().spec_regular() == x.spec_regular(),
        x.spec_invert().is_const() == x.is_const(),
        NodeId::from_val(0).spec_invert() == NodeId::from_val(1),
{
    broadcast use group_old_aig;

    assert(x.spec_invert().spec_invert().val() == x.val());
    assert(x.spec_invert().spec_regular().val() == x.spec_regular().val());
    assert(NodeId::from_val(0).spec_invert().val() == 1);
}

/// Law: asking for the same optimized AND twice returns the same signal and
/// leaves the graph as the first call left it.
pub proof fn lemma_and_optimized_idempotent(g: AigGraphView, left: NodeId, right: NodeId)
    ensures
        ({
            let (g1, id1) = spec_and_optimized(g, left, right);
            let (g2, id2) = spec_and_optimized(g1, left, right);
            g2 == g1 && id2 == id1
        }),
{
}

/// Law: the optimized AND does not depend on the order of its operands.
pub proof fn lemma_and_optimized_commutative(g: AigGraphView, left: NodeId, right: NodeId)
    ensures
        spec_and_optimized(g, left, right) == spec_and_optimized(g, right, left),
{
    broadcast use group_old_aig;

    lemma_invert_laws(left);
    lemma_invert_laws(right);
    if left != right {
        assert(left.val() != right.val());
    }
}

/// Law: the optimized AND returns false, one of its operands, or a stored
/// regular AND node whose children are exactly the two operands (inversion
/// bits included), the one with the smaller encoding on the left; for two
/// distinct, non-constant, non-complementary operands it is always such a
/// node, so a node is only shared between equal operand pairs.  The AND
/// table stays well formed.
pub proof fn lemma_and_optimized_node(g: AigGraphView, left: NodeId, right: NodeId)
    requires
        g.hash_wf(),
        g.nodes.len() <= MAX_INDEX || !and_optimized_pushes(g, left, right),
    ensures
        ({
            let (g2, id) = spec_and_optimized(g, left, right);
            let (lo, hi) = if right.val() < left.val() {
                (right, left)
            } else {
                (left, right)
            };
            let is_node = {
                &&& !id.is_const()
                &&& !id.is_inverted()
                &&& 0 <= id.spec_index() < g2.nodes.len()
                &&& g2.node_of(id).is_and()
                &&& g2.node_of(id).spec_left() == lo
                &&& g2.node_of(id).spec_right() == hi
            };
            &&& g2.hash_wf()
            &&& id == NodeId::from_val(0) || id == left || id == right || is_node
            &&& (!left.is_const() && !right.is_const() && left != right && left != right.spec_invert()) ==> is_node
        }),
{
    broadcast use group_old_aig;

    let (g2, id) = spec_and_optimized(g, left, right);
    if left == NodeId::from_val(0) || right == NodeId::from_val(0) || left == NodeId::from_val(1) || right
        == NodeId::from_val(1) || left == right || left == right.spec_invert() {
        if !left.is_const() && !right.is_const() {
            assert(left.val() >= 2 && right.val() >= 2);
        }
        return;
    }
    let (lo, hi) = if right.val() < left.val() {
        (right, left)
    } else {
        (left, right)
    };
    let key = spec_and_key(lo, hi);
    if g.hash.contains_key(key) {
        let n = g.node_of(id);
        assert(spec_and_key(n.spec_left(), n.spec_right()) == key);
        assert(n.spec_left() == lo && n.spec_right() == hi) by {
            assert(lo.val() < 0x1_0000_0000 && hi.val() < 0x1_0000_0000);
            assert(n.spec_left().val() < 0x1_0000_0000 && n.spec_right().val() < 0x1_0000_0000);
        }
    } else {
        assert(g2.nodes[g.nodes.len() as int] == AigNode::from_parts(lo, hi));
        assert(lo.spec_regular() != NodeId::marker()) by {
            if lo.spec_regular() == NodeId::marker() {
                assert(lo.val() >= NODE_ID_MASK);
                assert(hi.val() >= lo.val());
                if lo.val() == hi.val() {
                    assert(lo == hi);
                } else {
                    assert(hi.spec_invert() == lo);
                }
            }
        }
        let id_val = (2 * (g.nodes.len() + 1)) as u32;
        assert(id.val() == id_val);
        assert(id_val as int == 2 * (g.nodes.len() + 1));
        assert forall|k: u64| #[trigger] g2.hash.contains_key(k) implies {
            let i = g2.hash[k];
            &&& !i.is_const()
            &&& !i.is_inverted()
            &&& 0 <= i.spec_index() < g2.nodes.len()
            &&& g2.node_of(i).is_and()
            &&& spec_and_key(g2.node_of(i).spec_left(), g2.node_of(i).spec_right()) == k
        } by {
            if k != key {
                assert(g.hash.contains_key(k));
                assert(g2.nodes[g.hash[k].spec_index()] == g.nodes[g.hash[k].spec_index()]);
            }
        }
    }
}


/// The DOT line of the edge from `child` into the AND node `parent`: it
/// names the regular node of `child`, and is dashed exactly when `child` is
/// inverted.
pub open spec fn dot_and_edge_line(child: NodeId, parent: NodeId, label: Seq<char>) -> Seq<char> {
    let style = if child.is_inverted() {
        "\", style=dashed];\n"@
    } else {
        "\"];\n"@
    };
    "\t"@ + dot_name_str(child.spec_regular()) + " -> "@ + dot_name_str(parent) + " [label=\""@ + label
        + style
}

proof fn lemma_dot_and_edges_prefix(g: AigGraphView, i: int, n: int)
    requires
        0 <= i <= n,
    ensures
        dot_and_edges_str(g, i).len() <= dot_and_edges_str(g, n).len(),
        dot_and_edges_str(g, n).subrange(0, dot_and_edges_str(g, i).len() as int) == dot_and_edges_str(g, i),
    decreases n,
{
    if i < n {
        lemma_dot_and_edges_prefix(g, i, n - 1);
        let a = dot_and_edges_str(g, n - 1);
        let b = dot_and_edges_str(g, n);
        let k = dot_and_edges_str(g, i).len() as int;
        assert(b.subrange(0, a.len() as int) =~= a);
        assert(b.subrange(0, k) =~= a.subrange(0, k));
    } else {
        assert(dot_and_edges_str(g, n).subrange(0, dot_and_edges_str(g, n).len() as int)
            =~= dot_and_edges_str(g, n));
    }
}

/// Law: for every AND node of a graph and each of its two children, the
/// DOT text holds the edge line from the child's node into the AND node,
/// labelled `left` or `right`, and dashed exactly when that child is
/// inverted.
pub proof fn lemma_dot_and_edge_lines(g: AigGraphView, i: int)
    requires
        0 <= i < g.nodes.len(),
        g.nodes[i].is_and(),
    ensures
        occurs_in(
            dot_and_edge_line(g.nodes[i].spec_left(), NodeId::spec_from_index(i), "left"@),
            spec_to_dot(g),
        ),
        occurs_in(
            dot_and_edge_line(g.nodes[i].spec_right(), NodeId::spec_from_index(i), "right"@),
            spec_to_dot(g),
        ),
{
    let n = g.nodes.len() as int;
    let name = dot_name_str(NodeId::spec_from_index(i));
    let l = g.nodes[i].spec_left();
    let r = g.nodes[i].spec_right();
    let el = dot_edge_str(l, name, "left"@);
    let er = dot_edge_str(r, name, "right"@);
    reveal_strlit("left");
    reveal_strlit("right");
    assert(el =~= dot_and_edge_line(l, NodeId::spec_from_index(i), "left"@));
    assert(er =~= dot_and_edge_line(r, NodeId::spec_from_index(i), "right"@));
    let di = dot_and_edges_str(g, i);
    assert(dot_and_edges_str(g, i + 1) == di + el + er);
    lemma_dot_and_edges_prefix(g, i + 1, n);
    let e = dot_and_edges_str(g, n);
    let pre = "digraph AIG {\n\trankdir=BT;\n\tordering=out;\n\tnode [fontname=\"Helvetica\"];\n\tedge [fontname=\"Helvetica\"];\n\n\tconst_false [label=\"false\", shape=box];\n\tconst_true [label=\"true\", shape=box];\n\n"@
        + dot_inputs_str(g, g.inputs.len() as int) + "\n"@ + dot_latches_str(g, g.latches.len() as int)
        + "\n"@ + dot_and_nodes_str(g, n) + "\n"@;
    let post = "\n"@ + dot_latch_edges_str(g, g.latches.len() as int) + "\n"@ + dot_outputs_str(
        g,
        g.outputs.len() as int,
    ) + "}\n"@;
    let dot = spec_to_dot(g);
    assert(dot =~= pre + e + post);
    let j1: int = (pre.len() + di.len()) as int;
    let j2: int = j1 + el.len();
    assert(e.subrange(0, (di + el + er).len() as int) == di + el + er);
    assert(dot.subrange(j1, j1 + el.len()) =~= el) by {
        assert forall|x: int| 0 <= x < el.len() implies dot.subrange(j1, j1 + el.len())[x] == el[x] by {
            assert(dot[j1 + x] == e[di.len() + x]);
            assert(e.subrange(0, (di + el + er).len() as int)[di.len() + x] == (di + el + er)[di.len() + x]);
        }
    }
    assert(dot.subrange(j2, j2 + er.len()) =~= er) by {
        assert forall|x: int| 0 <= x < er.len() implies dot.subrange(j2, j2 + er.len())[x] == er[x] by {
            assert(dot[j2 + x] == e[di.len() + el.len() + x]);
            assert(e.subrange(0, (di + el + er).len() as int)[di.len() + el.len() + x] == (di + el
                + er)[di.len() + el.len() + x]);
        }
    }
}

} // verus!
