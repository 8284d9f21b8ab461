use super::{AigGraph, GraphView, NodeId, MAX_GRAPH_INDEX};
use crate::text::{dec_str, input_label, input_label_str, push_decimal};
use vstd::prelude::*;

verus! {

broadcast use super::group_aig;

/// The DOT name of a (regular) signal.
pub open spec fn dot_name_str(id: NodeId) -> Seq<char> {
    if id.is_false() {
        "const_false"@
    } else if id.is_true() {
        "const_true"@
    } else {
        "n"@ + dec_str(id.spec_index() as nat)
    }
}

/// The DOT edge from `child` into the node named `parent`, dashed when the
/// child is inverted.
pub open spec fn dot_edge_str(child: NodeId, parent: Seq<char>, label: Seq<char>) -> Seq<char> {
    let c = dot_name_str(child.spec_regular());
    if label.len() == 0 {
        if child.is_inverted() {
            "\t"@ + c + " -> "@ + parent + " [style=dashed];\n"@
        } else {
            "\t"@ + c + " -> "@ + parent + ";\n"@
        }
    } else if child.is_inverted() {
        "\t"@ + c + " -> "@ + parent + " [label=\""@ + label + "\", style=dashed];\n"@
    } else {
        "\t"@ + c + " -> "@ + parent + " [label=\""@ + label + "\"];\n"@
    }
}

pub open spec fn dot_inputs_str(g: GraphView, n: int) -> Seq<char>
    decreases n,
{
    if n <= 0 {
        Seq::empty()
    } else {
        dot_inputs_str(g, n - 1) + "\t"@ + dot_name_str(g.inputs[n - 1].spec_regular()) + " [label=\""@
            + input_label_str((n - 1) as nat) + "\", shape=box];\n"@
    }
}

pub open spec fn dot_latches_str(g: GraphView, n: int) -> Seq<char>
    decreases n,
{
    if n <= 0 {
        Seq::empty()
    } else {
        dot_latches_str(g, n - 1) + "\t"@ + dot_name_str(g.latches[n - 1].spec_regular())
            + " [label=\"l"@ + dec_str((n - 1) as nat) + "\", shape=box, style=rounded];\n"@
    }
}

pub open spec fn dot_and_nodes_str(g: GraphView, n: int) -> Seq<char>
    decreases n,
{
    if n <= 0 {
        Seq::empty()
    } else if g.nodes[n - 1].is_and() {
        dot_and_nodes_str(g, n - 1) + "\t"@ + dot_name_str(NodeId::spec_from_index(n - 1))
            + " [label=\"AND\", shape=circle];\n"@
    } else {
        dot_and_nodes_str(g, n - 1)
    }
}

pub open spec fn dot_and_edges_str(g: GraphView, n: int) -> Seq<char>
    decreases n,
{
    if n <= 0 {
        Seq::empty()
    } else if g.nodes[n - 1].is_and() {
        let name = dot_name_str(NodeId::spec_from_index(n - 1));
        dot_and_edges_str(g, n - 1) + dot_edge_str(g.nodes[n - 1].spec_left(), name, "left"@)
            + dot_edge_str(g.nodes[n - 1].spec_right(), name, "right"@)
    } else {
        dot_and_edges_str(g, n - 1)
    }
}

pub open spec fn dot_latch_edges_str(g: GraphView, n: int) -> Seq<char>
    decreases n,
{
    if n <= 0 {
        Seq::empty()
    } else {
        dot_latch_edges_str(g, n - 1) + dot_edge_str(
            g.node_of(g.latches[n - 1]).spec_right(),
            dot_name_str(g.latches[n - 1].spec_regular()),
            "next"@,
        )
    }
}

pub open spec fn output_name_str(k: nat) -> Seq<char> {
    "out"@ + dec_str(k)
}

pub open spec fn dot_outputs_str(g: GraphView, n: int) -> Seq<char>
    decreases n,
{
    if n <= 0 {
        Seq::empty()
    } else {
        dot_outputs_str(g, n - 1) + "\t"@ + output_name_str((n - 1) as nat) + " [label=\"out"@ + dec_str(
            (n - 1) as nat,
        ) + "\", shape=box];\n"@ + dot_edge_str(g.outputs[n - 1], output_name_str((n - 1) as nat), ""@)
    }
}

/// The Graphviz DOT text of a graph.
pub open spec fn spec_to_dot(g: GraphView) -> Seq<char> {
    "digraph AIG {\n\trankdir=BT;\n\tordering=out;\n\tnode [fontname=\"Helvetica\"];\n\tedge [fontname=\"Helvetica\"];\n\n\tconst_false [label=\"false\", shape=box];\n\tconst_true [label=\"true\", shape=box];\n\n"@
        + dot_inputs_str(g, g.inputs.len() as int) + "\n"@ + dot_latches_str(g, g.latches.len() as int)
        + "\n"@ + dot_and_nodes_str(g, g.nodes.len() as int) + "\n"@ + dot_and_edges_str(
        g,
        g.nodes.len() as int,
    ) + "\n"@ + dot_latch_edges_str(g, g.latches.len() as int) + "\n"@ + dot_outputs_str(
        g,
        g.outputs.len() as int,
    ) + "}\n"@
}

impl AigGraph {
    /// The Graphviz DOT text of the graph: constants, inputs (labelled a,
    /// b, ...), latches, AND gates, their edges (dashed when inverted),
    /// latch next-state edges and outputs.
    pub fn to_dot(&self) -> (dot: String)
        requires
            self@.wf(),
        ensures
            dot@ == spec_to_dot(self@),
    {
        let mut dot: String = String::new();
        dot.append(
            "digraph AIG {\n\trankdir=BT;\n\tordering=out;\n\tnode [fontname=\"Helvetica\"];\n\tedge [fontname=\"Helvetica\"];\n\n\tconst_false [label=\"false\", shape=box];\n\tconst_true [label=\"true\", shape=box];\n\n",
        );
        self.write_inputs(&mut dot);
        dot.append("\n");
        self.write_latches(&mut dot);
        dot.append("\n");
        self.write_and_nodes(&mut dot);
        dot.append("\n");
        self.write_and_edges(&mut dot);
        dot.append("\n");
        self.write_latch_edges(&mut dot);
        dot.append("\n");
        self.write_outputs(&mut dot);
        dot.append("}\n");
        assert(dot@ =~= spec_to_dot(self@));
        dot
    }

    fn write_inputs(&self, dot: &mut String)
        requires
            self@.wf(),
        ensures
            final(dot)@ == old(dot)@ + dot_inputs_str(self@, self@.inputs.len() as int),
    {
        let mut input_index: usize = 0;
        while input_index < self.inputs.len()
            invariant
                self@.wf(),
                input_index <= self@.inputs.len(),
                dot@ == old(dot)@ + dot_inputs_str(self@, input_index as int),
            decreases self@.inputs.len() - input_index,
        {
            let input_id = self.inputs[input_index];
            let node_name = Self::dot_name(input_id.regular());
            let input_label = input_label(input_index);
            dot.append("\t");
            dot.append(node_name.as_str());
            dot.append(" [label=\"");
            dot.append(input_label.as_str());
            dot.append("\", shape=box];\n");
            input_index = input_index + 1;
            assert(dot@ =~= old(dot)@ + dot_inputs_str(self@, input_index as int));
        }
    }

    fn write_latches(&self, dot: &mut String)
        requires
            self@.wf(),
        ensures
            final(dot)@ == old(dot)@ + dot_latches_str(self@, self@.latches.len() as int),
    {
        let mut latch_index: usize = 0;
        while latch_index < self.latches.len()
            invariant
                self@.wf(),
                latch_index <= self@.latches.len(),
                dot@ == old(dot)@ + dot_latches_str(self@, latch_index as int),
            decreases self@.latches.len() - latch_index,
        {
            let latch_id = self.latches[latch_index];
            let node_name = Self::dot_name(latch_id.regular());
            dot.append("\t");
            dot.append(node_name.as_str());
            dot.append(" [label=\"l");
            push_decimal(dot, latch_index);
            dot.append("\", shape=box, style=rounded];\n");
            latch_index = latch_index + 1;
            assert(dot@ =~= old(dot)@ + dot_latches_str(self@, latch_index as int));
        }
    }

    fn write_and_nodes(&self, dot: &mut String)
        requires
            self@.wf(),
        ensures
            final(dot)@ == old(dot)@ + dot_and_nodes_str(self@, self@.nodes.len() as int),
    {
        let mut index: usize = 0;
        while index < self.nodes.len()
            invariant
                self@.wf(),
                index <= self@.nodes.len(),
                self@.nodes.len() <= MAX_GRAPH_INDEX + 1,
                dot@ == old(dot)@ + dot_and_nodes_str(self@, index as int),
            decreases self@.nodes.len() - index,
        {
            let node = &self.nodes[index];
            if node.is_and() {
                let node_id = NodeId::from_index(index);
                let node_name = Self::dot_name(node_id);
                dot.append("\t");
                dot.append(node_name.as_str());
                dot.append(" [label=\"AND\", shape=circle];\n");
            }
            index = index + 1;
            assert(dot@ =~= old(dot)@ + dot_and_nodes_str(self@, index as int));
        }
    }

    fn write_and_edges(&self, dot: &mut String)
        requires
            self@.wf(),
        ensures
            final(dot)@ == old(dot)@ + dot_and_edges_str(self@, self@.nodes.len() as int),
    {
        let mut index: usize = 0;
        while index < self.nodes.len()
            invariant
                self@.wf(),
                index <= self@.nodes.len(),
                self@.nodes.len() <= MAX_GRAPH_INDEX + 1,
                dot@ == old(dot)@ + dot_and_edges_str(self@, index as int),
            decreases self@.nodes.len() - index,
        {
            let node = &self.nodes[index];
            if node.is_and() {
                let parent_id = NodeId::from_index(index);
                let parent_name = Self::dot_name(parent_id);
                Self::write_dot_edge(dot, node.left(), parent_name.as_str(), "left");
                Self::write_dot_edge(dot, node.right(), parent_name.as_str(), "right");
            }
            index = index + 1;
            assert(dot@ =~= old(dot)@ + dot_and_edges_str(self@, index as int));
        }
    }

    fn write_latch_edges(&self, dot: &mut String)
        requires
            self@.wf(),
        ensures
            final(dot)@ == old(dot)@ + dot_latch_edges_str(self@, self@.latches.len() as int),
    {
        let mut k: usize = 0;
        while k < self.latches.len()
            invariant
                self@.wf(),
                k <= self@.latches.len(),
                dot@ == old(dot)@ + dot_latch_edges_str(self@, k as int),
            decreases self@.latches.len() - k,
        {
            let latch_id = self.latches[k];
            let latch = self.node_ref(latch_id);
            let latch_name = Self::dot_name(latch_id.regular());
            Self::write_dot_edge(dot, latch.right(), latch_name.as_str(), "next");
            k = k + 1;
            assert(dot@ =~= old(dot)@ + dot_latch_edges_str(self@, k as int));
        }
    }

    fn write_outputs(&self, dot: &mut String)
        requires
            self@.wf(),
        ensures
            final(dot)@ == old(dot)@ + dot_outputs_str(self@, self@.outputs.len() as int),
    {
        let mut index: usize = 0;
        while index < self.outputs.len()
            invariant
                self@.wf(),
                index <= self@.outputs.len(),
                dot@ == old(dot)@ + dot_outputs_str(self@, index as int),
            decreases self@.outputs.len() - index,
        {
            let output = self.outputs[index];
            let mut output_name = String::new();
            output_name.append("out");
            push_decimal(&mut output_name, index);
            dot.append("\t");
            dot.append(output_name.as_str());
            dot.append(" [label=\"out");
            push_decimal(dot, index);
            dot.append("\", shape=box];\n");
            Self::write_dot_edge(dot, output, output_name.as_str(), "");
            index = index + 1;
            assert(dot@ =~= old(dot)@ + dot_outputs_str(self@, index as int));
        }
    }

    fn write_dot_edge(dot: &mut String, child: NodeId, parent_name: &str, edge_label: &str)
        requires
            !child.is_marker(),
        ensures
            final(dot)@ == old(dot)@ + dot_edge_str(child, parent_name@, edge_label@),
    {
        let child_name = Self::dot_name(child.regular());
        if edge_label.is_empty() {
            if child.is_inverted() {
                dot.append("\t");
                dot.append(child_name.as_str());
                dot.append(" -> ");
                dot.append(parent_name);
                dot.append(" [style=dashed];\n");
            } else {
                dot.append("\t");
                dot.append(child_name.as_str());
                dot.append(" -> ");
                dot.append(parent_name);
                dot.append(";\n");
            }
        } else if child.is_inverted() {
            dot.append("\t");
            dot.append(child_name.as_str());
            dot.append(" -> ");
            dot.append(parent_name);
            dot.append(" [label=\"");
            dot.append(edge_label);
            dot.append("\", style=dashed];\n");
        } else {
            dot.append("\t");
            dot.append(child_name.as_str());
            dot.append(" -> ");
            dot.append(parent_name);
            dot.append(" [label=\"");
            dot.append(edge_label);
            dot.append("\"];\n");
        }
        assert(dot@ =~= old(dot)@ + dot_edge_str(child, parent_name@, edge_label@));
    }

    fn dot_name(id: NodeId) -> (r: String)
        requires
            !id.is_marker(),
        ensures
            r@ == dot_name_str(id),
    {
        let mut s = String::new();
        if id.is_false() {
            s.append("const_false");
        } else if id.is_true() {
            s.append("const_true");
        } else {
            s.append("n");
            push_decimal(&mut s, id.index());
        }
        assert(s@ =~= dot_name_str(id));
        s
    }
}

} // verus!

verus! {

/// `t` occurs in `s`.
pub open spec fn occurs_in(t: Seq<char>, s: Seq<char>) -> bool {
    exists|j: int| 0 <= j && j + t.len() <= s.len() && #[trigger] s.subrange(j, j + t.len()) == t
}

/// The DOT line of the edge from `child` into the AND node `parent`: it
/// names the regular node of `child`, and is dashed exactly when `child` is
/// inverted.
pub open spec fn and_edge_line(child: NodeId, parent: NodeId, label: Seq<char>) -> Seq<char> {
    let style = if child.is_inverted() {
        "\", style=dashed];\n"@
    } else {
        "\"];\n"@
    };
    "\t"@ + dot_name_str(child.spec_regular()) + " -> "@ + dot_name_str(parent) + " [label=\""@ + label
        + style
}

proof fn lemma_and_edges_prefix(g: GraphView, i: int, n: int)
    requires
        0 <= i <= n,
    ensures
        dot_and_edges_str(g, i).len() <= dot_and_edges_str(g, n).len(),
        dot_and_edges_str(g, n).subrange(0, dot_and_edges_str(g, i).len() as int) == dot_and_edges_str(g, i),
    decreases n,
{
    if i < n {
        lemma_and_edges_prefix(g, i, n - 1);
        let a = dot_and_edges_str(g, n - 1);
        let b = dot_and_edges_str(g, n);
        let k = dot_and_edges_str(g, i).len() as int;
        assert(b.subrange(0, a.len() as int) =~= a);
        assert(b.subrange(0, k) =~= a.subrange(0, k));
    } else {
        assert(dot_and_edges_str(g, n).subrange(0, dot_and_edges_str(g, n).len() as int)
            =~= dot_and_edges_str(g, n));
    }
}

/// Law: for every AND node of a graph and each of its two children, the
/// DOT text holds the edge line from the child's node into the AND node,
/// labelled `left` or `right`, and dashed exactly when that child is
/// inverted.
pub proof fn lemma_dot_and_edges(g: GraphView, i: int)
    requires
        0 <= i < g.nodes.len(),
        g.nodes[i].is_and(),
    ensures
        occurs_in(
            and_edge_line(g.nodes[i].spec_left(), NodeId::spec_from_index(i), "left"@),
            spec_to_dot(g),
        ),
        occurs_in(
            and_edge_line(g.nodes[i].spec_right(), NodeId::spec_from_index(i), "right"@),
            spec_to_dot(g),
        ),
{
    let n = g.nodes.len() as int;
    let name = dot_name_str(NodeId::spec_from_index(i));
    let l = g.nodes[i].spec_left();
    let r = g.nodes[i].spec_right();
    let el = dot_edge_str(l, name, "left"@);
    let er = dot_edge_str(r, name, "right"@);
    reveal_strlit("left");
    reveal_strlit("right");
    assert(el =~= and_edge_line(l, NodeId::spec_from_index(i), "left"@));
    assert(er =~= and_edge_line(r, NodeId::spec_from_index(i), "right"@));
    let di = dot_and_edges_str(g, i);
    assert(dot_and_edges_str(g, i + 1) == di + el + er);
    lemma_and_edges_prefix(g, i + 1, n);
    let e = dot_and_edges_str(g, n);
    let pre = "digraph AIG {\n\trankdir=BT;\n\tordering=out;\n\tnode [fontname=\"Helvetica\"];\n\tedge [fontname=\"Helvetica\"];\n\n\tconst_false [label=\"false\", shape=box];\n\tconst_true [label=\"true\", shape=box];\n\n"@
        + dot_inputs_str(g, g.inputs.len() as int) + "\n"@ + dot_latches_str(g, g.latches.len() as int)
        + "\n"@ + dot_and_nodes_str(g, n) + "\n"@;
    let post = "\n"@ + dot_latch_edges_str(g, g.latches.len() as int) + "\n"@ + dot_outputs_str(
        g,
        g.outputs.len() as int,
    ) + "}\n"@;
    let dot = spec_to_dot(g);
    assert(dot =~= pre + e + post);
    let j1: int = (pre.len() + di.len()) as int;
    let j2: int = j1 + el.len();
    assert(e.subrange(0, (di + el + er).len() as int) == di + el + er);
    assert(dot.subrange(j1, j1 + el.len()) =~= el) by {
        assert forall|x: int| 0 <= x < el.len() implies dot.subrange(j1, j1 + el.len())[x] == el[x] by {
            assert(dot[j1 + x] == e[di.len() + x]);
            assert(e.subrange(0, (di + el + er).len() as int)[di.len() + x] == (di + el + er)[di.len() + x]);
        }
    }
    assert(dot.subrange(j2, j2 + er.len()) =~= er) by {
        assert forall|x: int| 0 <= x < er.len() implies dot.subrange(j2, j2 + er.len())[x] == er[x] by {
            assert(dot[j2 + x] == e[di.len() + el.len() + x]);
            assert(e.subrange(0, (di + el + er).len() as int)[di.len() + el.len() + x] == (di + el
                + er)[di.len() + el.len() + x]);
        }
    }
}

} // verus!
