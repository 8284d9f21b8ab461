use super::ascii_parser::{
    and_step, and_stepper, input_step, input_stepper, latch_step, latch_stepper, output_step,
    output_stepper, resolve_latches, resolve_outputs, spec_and_line, spec_parse_ascii, state_inv,
    AsciiState,
};
use super::binary_parser::{
    bin_and_step, bin_and_stepper, bin_input_step, bin_input_stepper, bin_inv, bin_latch_step,
    bin_latch_stepper, bin_output_step, bin_output_stepper, bin_resolve_latches,
    bin_resolve_outputs, spec_parse_binary, spec_read_delta, BinState,
};
use super::{
    spec_header, spec_run_parser, lemma_lookup_valid, lemma_repeat_indexed_inv, lemma_repeat_indexed_rel, map_valid,
    repeat_indexed, spec_lookup, lemma_repeat_inv, lemma_repeat_rel, lits_initial, repeat, AigerError, AigerHeader, lemma_lits_add_valid, lemma_lits_get_valid, lemma_lits_valid_extend, lits_add, lits_get,
    lits_valid, spec_number_line,
};
use crate::graph::eval::{
    env_skips_ands, lemma_defined_same_node_values, lemma_state_part, state_part, cycle_env, env_after, eval_fuel, insert_all, lemma_eval_fuel_spec, next_env, spec_step,
    spec_trace, step_ok, trace_ok, assigns_state, defined, lemma_and_optimized_computes_and, lemma_and_raw_computes_and,
    lemma_assigned_defined, lemma_assigned_skips_ands, lemma_defined_extend,
    lemma_defined_replace_assigned, lemma_eval_invert, spec_eval, Value,
};
use crate::graph::{
    lemma_add_and_raw_wf, lemma_add_input_wf, lemma_add_latch_wf, lemma_add_output_wf,
    lemma_and_optimized_wf, lemma_index_roundtrip, lemma_set_latch_input_wf, spec_add_and_raw,
    spec_add_input, spec_add_latch, spec_add_output, spec_and_optimized, spec_set_latch_input,
    BuilderView, GraphView, NodeId,
};
use vstd::prelude::*;

verus! {

broadcast use crate::graph::group_aig;

/// `g2` keeps the nodes of `g` as a prefix.
pub open spec fn node_prefix(g: GraphView, g2: GraphView) -> bool {
    &&& g.nodes.len() <= g2.nodes.len()
    &&& forall|i: int| 0 <= i < g.nodes.len() ==> g2.nodes[i] == g.nodes[i]
}

/// Both literal tables record the same literals, and the signals recorded
/// for a literal compute the same value in the two graphs under `env`.
pub open spec fn lits_agree(
    l1: Seq<Option<NodeId>>,
    g1: GraphView,
    l2: Seq<Option<NodeId>>,
    g2: GraphView,
    env: Map<NodeId, Value>,
) -> bool {
    &&& l1.len() == l2.len()
    &&& forall|k: int| 0 <= k < l1.len() ==> ((#[trigger] l1[k]) is Some <==> l2[k] is Some)
    &&& forall|k: int|
        0 <= k < l1.len() && (#[trigger] l1[k]) is Some ==> spec_eval(g1, l1[k]->Some_0, env)
            == spec_eval(g2, l2[k]->Some_0, env)
}

/// The next-state signal of each latch computes the same value in the two
/// graphs under `env`.
pub open spec fn latches_agree(g1: GraphView, g2: GraphView, env: Map<NodeId, Value>) -> bool {
    forall|k: int|
        0 <= k < g1.latches.len() ==> spec_eval(g1, g1.node_of(#[trigger] g1.latches[k]).spec_right(), env)
            == spec_eval(g2, g2.node_of(g2.latches[k]).spec_right(), env)
}

/// The graphs have as many outputs, and each output computes the same value
/// in the two graphs under `env`.
pub open spec fn outputs_agree(g1: GraphView, g2: GraphView, env: Map<NodeId, Value>) -> bool {
    &&& g1.outputs.len() == g2.outputs.len()
    &&& forall|k: int|
        0 <= k < g1.outputs.len() ==> spec_eval(g1, #[trigger] g1.outputs[k], env) == spec_eval(
            g2,
            g2.outputs[k],
            env,
        )
}

/// Appending nodes keeps the value of every stored signal.
proof fn lemma_valid_extend(g: GraphView, g2: GraphView, env: Map<NodeId, Value>, x: NodeId)
    requires
        g.wf(),
        assigns_state(g, env),
        g.valid_signal(x),
        node_prefix(g, g2),
    ensures
        defined(g, x, env),
        defined(g2, x, env),
        spec_eval(g2, x, env) == spec_eval(g, x, env),
{
    lemma_assigned_defined(g, env, x);
    lemma_defined_extend(g, g2, x, env);
}

/// The literal tables keep agreeing when both graphs grow.
proof fn lemma_lits_agree_extend(
    l1: Seq<Option<NodeId>>,
    g1: GraphView,
    g1n: GraphView,
    l2: Seq<Option<NodeId>>,
    g2: GraphView,
    g2n: GraphView,
    env: Map<NodeId, Value>,
)
    requires
        lits_agree(l1, g1, l2, g2, env),
        g1.wf(),
        g2.wf(),
        assigns_state(g1, env),
        assigns_state(g2, env),
        lits_valid(l1, g1),
        lits_valid(l2, g2),
        node_prefix(g1, g1n),
        node_prefix(g2, g2n),
    ensures
        lits_agree(l1, g1n, l2, g2n, env),
{
    assert forall|k: int| 0 <= k < l1.len() && (#[trigger] l1[k]) is Some implies spec_eval(
        g1n,
        l1[k]->Some_0,
        env,
    ) == spec_eval(g2n, l2[k]->Some_0, env) by {
        lemma_valid_extend(g1, g1n, env, l1[k]->Some_0);
        lemma_valid_extend(g2, g2n, env, l2[k]->Some_0);
    }
}

/// The latches keep agreeing when both graphs grow.
proof fn lemma_latches_agree_extend(g1: GraphView, g1n: GraphView, g2: GraphView, g2n: GraphView, env: Map<NodeId, Value>)
    requires
        latches_agree(g1, g2, env),
        g1.wf(),
        g2.wf(),
        assigns_state(g1, env),
        assigns_state(g2, env),
        g1.latches == g2.latches,
        g1n.latches == g1.latches,
        g2n.latches == g2.latches,
        node_prefix(g1, g1n),
        node_prefix(g2, g2n),
    ensures
        latches_agree(g1n, g2n, env),
{
    assert forall|k: int| 0 <= k < g1n.latches.len() implies spec_eval(
        g1n,
        g1n.node_of(#[trigger] g1n.latches[k]).spec_right(),
        env,
    ) == spec_eval(g2n, g2n.node_of(g2n.latches[k]).spec_right(), env) by {
        let x = g1.latches[k];
        assert(g1.node_of(x).is_latch());
        assert(g2.node_of(x).is_latch());
        assert(g1n.node_of(x) == g1.node_of(x));
        assert(g2n.node_of(x) == g2.node_of(x));
        lemma_valid_extend(g1, g1n, env, g1.node_of(x).spec_right());
        lemma_valid_extend(g2, g2n, env, g2.node_of(x).spec_right());
    }
}

/// The outputs keep agreeing when both graphs grow.
proof fn lemma_outputs_agree_extend(g1: GraphView, g1n: GraphView, g2: GraphView, g2n: GraphView, env: Map<NodeId, Value>)
    requires
        outputs_agree(g1, g2, env),
        g1.wf(),
        g2.wf(),
        assigns_state(g1, env),
        assigns_state(g2, env),
        g1n.outputs == g1.outputs,
        g2n.outputs == g2.outputs,
        node_prefix(g1, g1n),
        node_prefix(g2, g2n),
    ensures
        outputs_agree(g1n, g2n, env),
{
    assert forall|k: int| 0 <= k < g1n.outputs.len() implies spec_eval(g1n, #[trigger] g1n.outputs[k], env)
        == spec_eval(g2n, g2n.outputs[k], env) by {
        lemma_valid_extend(g1, g1n, env, g1.outputs[k]);
        lemma_valid_extend(g2, g2n, env, g2.outputs[k]);
    }
}

/// Agreeing tables give agreeing signals for every literal.
proof fn lemma_lits_get_agree(
    l1: Seq<Option<NodeId>>,
    g1: GraphView,
    l2: Seq<Option<NodeId>>,
    g2: GraphView,
    env: Map<NodeId, Value>,
    lit: usize,
)
    requires
        lits_agree(l1, g1, l2, g2, env),
        g1.wf(),
        g2.wf(),
        assigns_state(g1, env),
        assigns_state(g2, env),
        lits_valid(l1, g1),
        lits_valid(l2, g2),
    ensures
        lits_get(l1, lit) is Some <==> lits_get(l2, lit) is Some,
        lits_get(l1, lit) is Some ==> {
            &&& g1.valid_signal(lits_get(l1, lit)->Some_0)
            &&& g2.valid_signal(lits_get(l2, lit)->Some_0)
            &&& spec_eval(g1, lits_get(l1, lit)->Some_0, env) == spec_eval(g2, lits_get(l2, lit)->Some_0, env)
        },
{
    let r = lit - lit % 2;
    if r < l1.len() && l1[r] is Some {
        let x1 = l1[r]->Some_0;
        let x2 = l2[r]->Some_0;
        lemma_lits_get_valid(l1, lit, g1);
        lemma_lits_get_valid(l2, lit, g2);
        if lit % 2 == 1 {
            lemma_assigned_defined(g1, env, x1);
            lemma_assigned_defined(g2, env, x2);
            lemma_eval_invert(g1, x1, env);
            lemma_eval_invert(g2, x2, env);
        }
    }
}

/// Recording agreeing signals for a literal keeps the tables agreeing.
proof fn lemma_lits_add_agree(
    l1: Seq<Option<NodeId>>,
    g1: GraphView,
    l2: Seq<Option<NodeId>>,
    g2: GraphView,
    env: Map<NodeId, Value>,
    lit: usize,
    id1: NodeId,
    id2: NodeId,
)
    requires
        lits_agree(l1, g1, l2, g2, env),
        g1.wf(),
        g2.wf(),
        assigns_state(g1, env),
        assigns_state(g2, env),
        g1.valid_signal(id1),
        g2.valid_signal(id2),
        spec_eval(g1, id1, env) == spec_eval(g2, id2, env),
    ensures
        lits_agree(lits_add(l1, lit, id1), g1, lits_add(l2, lit, id2), g2, env),
{
    let n1 = lits_add(l1, lit, id1);
    let n2 = lits_add(l2, lit, id2);
    lemma_assigned_defined(g1, env, id1);
    lemma_assigned_defined(g2, env, id2);
    lemma_eval_invert(g1, id1, env);
    lemma_eval_invert(g2, id2, env);
    let u: int = if lit % 2 == 0 {
        lit as int
    } else {
        lit - 1
    };
    assert forall|k: int| 0 <= k < n1.len() implies ((#[trigger] n1[k]) is Some <==> n2[k] is Some) by {
        if k != u && k < l1.len() {
            assert(n1[k] == l1[k]);
            assert(n2[k] == l2[k]);
        }
    }
    assert forall|k: int| 0 <= k < n1.len() && (#[trigger] n1[k]) is Some implies spec_eval(
        g1,
        n1[k]->Some_0,
        env,
    ) == spec_eval(g2, n2[k]->Some_0, env) by {
        if k != u {
            assert(n1[k] == l1[k]);
            assert(n2[k] == l2[k]);
        }
    }
}

/// The latches that the parser still has to resolve stay latch nodes when
/// the graph grows.
proof fn lemma_pending_latches_kept(g: GraphView, g2: GraphView, li: Seq<(NodeId, usize)>)
    requires
        node_prefix(g, g2),
        forall|k: int|
            0 <= k < li.len() ==> {
                &&& g.has_node(#[trigger] li[k].0)
                &&& g.node_of(li[k].0).is_latch()
            },
    ensures
        forall|k: int|
            0 <= k < li.len() ==> {
                &&& g2.has_node(#[trigger] li[k].0)
                &&& g2.node_of(li[k].0).is_latch()
            },
{
    assert forall|k: int| 0 <= k < li.len() implies {
        &&& g2.has_node(#[trigger] li[k].0)
        &&& g2.node_of(li[k].0).is_latch()
    } by {
        assert(g2.nodes[li[k].0.spec_index()] == g.nodes[li[k].0.spec_index()]);
    }
}

/// An input line keeps the ASCII parser's invariant.
proof fn lemma_input_step_inv(data: Seq<u8>, s: AsciiState)
    requires
        state_inv(s),
        input_step(data, s) is Ok,
    ensures
        state_inv(input_step(data, s)->Ok_0),
{
    let (lit, p) = spec_number_line(data, s.pos)->Ok_0;
    let (b2, id) = spec_add_input(s.b);
    lemma_add_input_wf(s.b);
    lemma_lits_valid_extend(s.lits, s.b.graph, b2.graph);
    lemma_lits_add_valid(s.lits, lit, id, b2.graph);
    lemma_pending_latches_kept(s.b.graph, b2.graph, s.latch_inputs);
}

/// A latch line keeps the ASCII parser's invariant.
proof fn lemma_latch_step_inv(data: Seq<u8>, s: AsciiState)
    requires
        state_inv(s),
        latch_step(data, s) is Ok,
    ensures
        state_inv(latch_step(data, s)->Ok_0),
{
    let s2 = latch_step(data, s)->Ok_0;
    let ((lit, input_lit), p) = super::ascii_parser::spec_latch_line(data, s.pos)->Ok_0;
    let (b2, id) = spec_add_latch(s.b, NodeId::from_val(0));
    lemma_add_latch_wf(s.b, NodeId::from_val(0));
    lemma_lits_valid_extend(s.lits, s.b.graph, b2.graph);
    lemma_lits_add_valid(s.lits, lit, id, b2.graph);
    lemma_pending_latches_kept(s.b.graph, b2.graph, s.latch_inputs);
    assert forall|k: int| 0 <= k < s2.latch_inputs.len() implies {
        &&& s2.b.graph.has_node(#[trigger] s2.latch_inputs[k].0)
        &&& s2.b.graph.node_of(s2.latch_inputs[k].0).is_latch()
    } by {
        if k < s.latch_inputs.len() {
            assert(s2.latch_inputs[k] == s.latch_inputs[k]);
        }
    }
}

/// An output line keeps the ASCII parser's invariant.
proof fn lemma_output_step_inv(data: Seq<u8>, s: AsciiState)
    requires
        state_inv(s),
        output_step(data, s) is Ok,
    ensures
        state_inv(output_step(data, s)->Ok_0),
{
}

/// The two parses (without and with `pre_optimize`) are in step: they have
/// read as far, have the same inputs, latches and pending items, and their
/// literals, outputs and latch next states compute the same values under
/// `env`.
pub open spec fn ascii_agree(s1: AsciiState, s2: AsciiState, env: Map<NodeId, Value>) -> bool {
    &&& state_inv(s1)
    &&& state_inv(s2)
    &&& s1.pos == s2.pos
    &&& s1.latch_inputs == s2.latch_inputs
    &&& s1.output_lits == s2.output_lits
    &&& s1.b.graph.inputs == s2.b.graph.inputs
    &&& s1.b.graph.latches == s2.b.graph.latches
    &&& assigns_state(s1.b.graph, env)
    &&& s2.b.graph.nodes.len() <= s1.b.graph.nodes.len()
    &&& lits_agree(s1.lits, s1.b.graph, s2.lits, s2.b.graph, env)
    &&& latches_agree(s1.b.graph, s2.b.graph, env)
    &&& outputs_agree(s1.b.graph, s2.b.graph, env)
}

/// An AND line read by both parses keeps them in step.
proof fn lemma_and_step_agree(data: Seq<u8>, s1: AsciiState, s2: AsciiState, env: Map<NodeId, Value>)
    requires
        ascii_agree(s1, s2, env),
        and_step(data, s1, false) is Ok,
    ensures
        and_step(data, s2, true) is Ok,
        ascii_agree(and_step(data, s1, false)->Ok_0, and_step(data, s2, true)->Ok_0, env),
{
    let g1 = s1.b.graph;
    let g2 = s2.b.graph;
    assert(assigns_state(g2, env));
    let ((lhs, rhs0, rhs1), p) = spec_and_line(data, s1.pos)->Ok_0;
    lemma_lits_get_agree(s1.lits, g1, s2.lits, g2, env, rhs0);
    lemma_lits_get_agree(s1.lits, g1, s2.lits, g2, env, rhs1);
    let left1 = lits_get(s1.lits, rhs0)->Some_0;
    let right1 = lits_get(s1.lits, rhs1)->Some_0;
    let left2 = lits_get(s2.lits, rhs0)->Some_0;
    let right2 = lits_get(s2.lits, rhs1)->Some_0;
    let (b1, id1) = spec_add_and_raw(s1.b, left1, right1);
    let (b2, id2) = spec_and_optimized(s2.b, left2, right2);
    lemma_add_and_raw_wf(s1.b, left1, right1);
    lemma_and_optimized_wf(s2.b, left2, right2);
    lemma_assigned_defined(g1, env, left1);
    lemma_assigned_defined(g1, env, right1);
    lemma_assigned_defined(g2, env, left2);
    lemma_assigned_defined(g2, env, right2);
    assert(!env.contains_key(id1)) by {
        if env.contains_key(id1) {
            if g1.inputs.contains(id1) {
                let k = choose|k: int| 0 <= k < g1.inputs.len() && g1.inputs[k] == id1;
                assert(g1.has_node(g1.inputs[k]));
            } else {
                let k = choose|k: int| 0 <= k < g1.latches.len() && g1.latches[k] == id1;
                assert(g1.has_node(g1.latches[k]));
            }
        }
    }
    lemma_and_raw_computes_and(s1.b, left1, right1, env);
    assert(assigns_state(b2.graph, env));
    lemma_assigned_skips_ands(b2.graph, env);
    lemma_and_optimized_computes_and(s2.b, left2, right2, env);
    assert(assigns_state(b1.graph, env));
    lemma_lits_agree_extend(s1.lits, g1, b1.graph, s2.lits, g2, b2.graph, env);
    lemma_latches_agree_extend(g1, b1.graph, g2, b2.graph, env);
    lemma_outputs_agree_extend(g1, b1.graph, g2, b2.graph, env);
    lemma_lits_valid_extend(s1.lits, g1, b1.graph);
    lemma_lits_valid_extend(s2.lits, g2, b2.graph);
    lemma_lits_add_valid(s1.lits, lhs, id1, b1.graph);
    lemma_lits_add_valid(s2.lits, lhs, id2, b2.graph);
    lemma_lits_add_agree(s1.lits, b1.graph, s2.lits, b2.graph, env, lhs, id1, id2);
    lemma_pending_latches_kept(g1, b1.graph, s1.latch_inputs);
    lemma_pending_latches_kept(g2, b2.graph, s2.latch_inputs);
}

/// Replacing a latch node, which `env` gives a value to, keeps the value of
/// every stored signal.
proof fn lemma_valid_replace_latch(g: GraphView, g2: GraphView, latch: NodeId, env: Map<NodeId, Value>, x: NodeId)
    requires
        g.wf(),
        assigns_state(g, env),
        g.has_node(latch),
        g.node_of(latch).is_latch(),
        g.valid_signal(x),
        g2.nodes.len() == g.nodes.len(),
        forall|j: int| 0 <= j < g.nodes.len() && j != latch.spec_index() ==> g2.nodes[j] == g.nodes[j],
    ensures
        defined(g2, x, env),
        spec_eval(g2, x, env) == spec_eval(g, x, env),
{
    let i = latch.spec_index();
    let y = NodeId::spec_from_index(i);
    lemma_index_roundtrip(i, latch);
    assert(env.contains_key(y)) by {
        assert(!g.nodes[i].is_and());
        if g.inputs.contains(y) {
            let k = choose|k: int| 0 <= k < g.inputs.len() && g.inputs[k] == y;
            assert(g.node_of(g.inputs[k]).is_input());
        } else {
            let k = choose|k: int| 0 <= k < g.latches.len() && g.latches[k] == y;
            assert(env.contains_key(g.latches[k]));
        }
    }
    lemma_assigned_defined(g, env, x);
    lemma_defined_replace_assigned(g, g2, i, x, env);
}

/// Resolving the pending latches in both parses keeps them agreeing.
proof fn lemma_resolve_latches_agree(
    b1: BuilderView,
    lits1: Seq<Option<NodeId>>,
    b2: BuilderView,
    lits2: Seq<Option<NodeId>>,
    li: Seq<(NodeId, usize)>,
    env: Map<NodeId, Value>,
)
    requires
        b1.wf(),
        b2.wf(),
        lits_valid(lits1, b1.graph),
        lits_valid(lits2, b2.graph),
        forall|k: int|
            0 <= k < li.len() ==> {
                &&& b1.graph.has_node(#[trigger] li[k].0)
                &&& b1.graph.node_of(li[k].0).is_latch()
                &&& b2.graph.has_node(li[k].0)
                &&& b2.graph.node_of(li[k].0).is_latch()
            },
        b1.graph.inputs == b2.graph.inputs,
        b1.graph.latches == b2.graph.latches,
        assigns_state(b1.graph, env),
        lits_agree(lits1, b1.graph, lits2, b2.graph, env),
        latches_agree(b1.graph, b2.graph, env),
        outputs_agree(b1.graph, b2.graph, env),
        resolve_latches(b1, lits1, li) is Ok,
    ensures
        resolve_latches(b2, lits2, li) is Ok,
        ({
            let r1 = resolve_latches(b1, lits1, li)->Ok_0;
            let r2 = resolve_latches(b2, lits2, li)->Ok_0;
            &&& r1.wf()
            &&& r2.wf()
            &&& r1.graph.inputs == b1.graph.inputs
            &&& r1.graph.latches == b1.graph.latches
            &&& r2.graph.inputs == b2.graph.inputs
            &&& r2.graph.latches == b2.graph.latches
            &&& r1.graph.nodes.len() == b1.graph.nodes.len()
            &&& r2.graph.nodes.len() == b2.graph.nodes.len()
            &&& lits_agree(lits1, r1.graph, lits2, r2.graph, env)
            &&& latches_agree(r1.graph, r2.graph, env)
            &&& outputs_agree(r1.graph, r2.graph, env)
        }),
    decreases li.len(),
{
    if li.len() == 0 {
        return;
    }
    let g1 = b1.graph;
    let g2 = b2.graph;
    assert(assigns_state(g2, env));
    let latch = li[0].0;
    assert(g1.has_node(li[0].0));
    lemma_lits_get_agree(lits1, g1, lits2, g2, env, li[0].1);
    let x1 = lits_get(lits1, li[0].1)->Some_0;
    let x2 = lits_get(lits2, li[0].1)->Some_0;
    lemma_set_latch_input_wf(b1, latch, x1);
    lemma_set_latch_input_wf(b2, latch, x2);
    let n1 = spec_set_latch_input(b1, latch, x1);
    let n2 = spec_set_latch_input(b2, latch, x2);
    let h1 = n1.graph;
    let h2 = n2.graph;
    lemma_valid_replace_latch(g1, h1, latch, env, x1);
    lemma_valid_replace_latch(g2, h2, latch, env, x2);
    assert(lits_agree(lits1, h1, lits2, h2, env)) by {
        assert forall|k: int| 0 <= k < lits1.len() && (#[trigger] lits1[k]) is Some implies spec_eval(
            h1,
            lits1[k]->Some_0,
            env,
        ) == spec_eval(h2, lits2[k]->Some_0, env) by {
            lemma_valid_replace_latch(g1, h1, latch, env, lits1[k]->Some_0);
            lemma_valid_replace_latch(g2, h2, latch, env, lits2[k]->Some_0);
        }
    }
    assert(outputs_agree(h1, h2, env)) by {
        assert forall|k: int| 0 <= k < h1.outputs.len() implies spec_eval(h1, #[trigger] h1.outputs[k], env)
            == spec_eval(h2, h2.outputs[k], env) by {
            lemma_valid_replace_latch(g1, h1, latch, env, g1.outputs[k]);
            lemma_valid_replace_latch(g2, h2, latch, env, g2.outputs[k]);
        }
    }
    assert(latches_agree(h1, h2, env)) by {
        assert forall|k: int| 0 <= k < h1.latches.len() implies spec_eval(
            h1,
            h1.node_of(#[trigger] h1.latches[k]).spec_right(),
            env,
        ) == spec_eval(h2, h2.node_of(h2.latches[k]).spec_right(), env) by {
            let y = g1.latches[k];
            if y.spec_index() != latch.spec_index() {
                assert(h1.node_of(y) == g1.node_of(y));
                assert(h2.node_of(y) == g2.node_of(y));
                lemma_valid_replace_latch(g1, h1, latch, env, g1.node_of(y).spec_right());
                lemma_valid_replace_latch(g2, h2, latch, env, g2.node_of(y).spec_right());
            } else {
                assert(h1.node_of(y) == h1.node_of(latch));
                assert(h2.node_of(y) == h2.node_of(latch));
            }
        }
    }
    lemma_lits_valid_extend(lits1, g1, h1);
    lemma_lits_valid_extend(lits2, g2, h2);
    let rest = li.drop_first();
    assert forall|k: int| 0 <= k < rest.len() implies {
        &&& h1.has_node(#[trigger] rest[k].0)
        &&& h1.node_of(rest[k].0).is_latch()
        &&& h2.has_node(rest[k].0)
        &&& h2.node_of(rest[k].0).is_latch()
    } by {
        assert(rest[k] == li[k + 1]);
        let z = li[k + 1].0;
        assert(g1.has_node(z));
        if z.spec_index() != latch.spec_index() {
            assert(h1.nodes[z.spec_index()] == g1.nodes[z.spec_index()]);
            assert(h2.nodes[z.spec_index()] == g2.nodes[z.spec_index()]);
        }
    }
    assert(assigns_state(h1, env));
    lemma_resolve_latches_agree(n1, lits1, n2, lits2, rest, env);
}

/// Resolving the pending outputs in both parses keeps them agreeing.
proof fn lemma_resolve_outputs_agree(
    b1: BuilderView,
    lits1: Seq<Option<NodeId>>,
    b2: BuilderView,
    lits2: Seq<Option<NodeId>>,
    ol: Seq<usize>,
    env: Map<NodeId, Value>,
)
    requires
        b1.wf(),
        b2.wf(),
        lits_valid(lits1, b1.graph),
        lits_valid(lits2, b2.graph),
        b1.graph.inputs == b2.graph.inputs,
        b1.graph.latches == b2.graph.latches,
        assigns_state(b1.graph, env),
        lits_agree(lits1, b1.graph, lits2, b2.graph, env),
        latches_agree(b1.graph, b2.graph, env),
        outputs_agree(b1.graph, b2.graph, env),
        resolve_outputs(b1, lits1, ol) is Ok,
    ensures
        resolve_outputs(b2, lits2, ol) is Ok,
        ({
            let r1 = resolve_outputs(b1, lits1, ol)->Ok_0;
            let r2 = resolve_outputs(b2, lits2, ol)->Ok_0;
            &&& r1.wf()
            &&& r2.wf()
            &&& r1.graph.inputs == b1.graph.inputs
            &&& r1.graph.latches == b1.graph.latches
            &&& r2.graph.inputs == b2.graph.inputs
            &&& r2.graph.latches == b2.graph.latches
            &&& latches_agree(r1.graph, r2.graph, env)
            &&& outputs_agree(r1.graph, r2.graph, env)
        }),
    decreases ol.len(),
{
    if ol.len() == 0 {
        return;
    }
    let g1 = b1.graph;
    let g2 = b2.graph;
    assert(assigns_state(g2, env));
    lemma_lits_get_agree(lits1, g1, lits2, g2, env, ol[0]);
    let x1 = lits_get(lits1, ol[0])->Some_0;
    let x2 = lits_get(lits2, ol[0])->Some_0;
    let n1 = spec_add_output(b1, x1);
    let n2 = spec_add_output(b2, x2);
    let h1 = n1.graph;
    let h2 = n2.graph;
    lemma_add_output_wf(b1, x1);
    lemma_add_output_wf(b2, x2);
    lemma_lits_agree_extend(lits1, g1, h1, lits2, g2, h2, env);
    lemma_latches_agree_extend(g1, h1, g2, h2, env);
    assert(outputs_agree(h1, h2, env)) by {
        lemma_valid_extend(g1, h1, env, x1);
        lemma_valid_extend(g2, h2, env, x2);
        assert forall|k: int| 0 <= k < h1.outputs.len() implies spec_eval(h1, #[trigger] h1.outputs[k], env)
            == spec_eval(h2, h2.outputs[k], env) by {
            if k < g1.outputs.len() {
                lemma_valid_extend(g1, h1, env, g1.outputs[k]);
                lemma_valid_extend(g2, h2, env, g2.outputs[k]);
            }
        }
    }
    lemma_lits_valid_extend(lits1, g1, h1);
    lemma_lits_valid_extend(lits2, g2, h2);
    assert(assigns_state(h1, env));
    lemma_resolve_outputs_agree(n1, lits1, n2, lits2, ol.drop_first(), env);
}

/// Resolving latches keeps the input and latch lists.
proof fn lemma_resolve_latches_lists(b: BuilderView, lits: Seq<Option<NodeId>>, li: Seq<(NodeId, usize)>)
    requires
        resolve_latches(b, lits, li) is Ok,
    ensures
        resolve_latches(b, lits, li)->Ok_0.graph.inputs == b.graph.inputs,
        resolve_latches(b, lits, li)->Ok_0.graph.latches == b.graph.latches,
    decreases li.len(),
{
    if li.len() > 0 {
        let x = lits_get(lits, li[0].1)->Some_0;
        lemma_resolve_latches_lists(spec_set_latch_input(b, li[0].0, x), lits, li.drop_first());
    }
}

/// Resolving outputs keeps the input and latch lists.
proof fn lemma_resolve_outputs_lists(b: BuilderView, lits: Seq<Option<NodeId>>, ol: Seq<usize>)
    requires
        resolve_outputs(b, lits, ol) is Ok,
    ensures
        resolve_outputs(b, lits, ol)->Ok_0.graph.inputs == b.graph.inputs,
        resolve_outputs(b, lits, ol)->Ok_0.graph.latches == b.graph.latches,
    decreases ol.len(),
{
    if ol.len() > 0 {
        let x = lits_get(lits, ol[0])->Some_0;
        lemma_resolve_outputs_lists(spec_add_output(b, x), lits, ol.drop_first());
    }
}

/// The ASCII parser's state after the input, latch and output lines.
pub open spec fn ascii_front(data: Seq<u8>, pos: int, h: AigerHeader) -> Result<AsciiState, AigerError> {
    let s0 = AsciiState {
        pos,
        b: BuilderView { graph: GraphView::empty(), hash: Map::empty() },
        lits: lits_initial(),
        latch_inputs: seq![],
        output_lits: seq![],
    };
    match repeat(input_stepper(data), s0, h.num_inputs as nat) {
        Err(e) => Err(e),
        Ok(s1) => match repeat(latch_stepper(data), s1, h.num_latches as nat) {
            Err(e) => Err(e),
            Ok(s2) => repeat(output_stepper(data), s2, h.num_outputs as nat),
        },
    }
}

#[verifier::spinoff_prover]
#[verifier::rlimit(40)]
proof fn lemma_ascii_front_inv(data: Seq<u8>, pos: int, h: AigerHeader)
    requires
        ascii_front(data, pos, h) is Ok,
    ensures
        state_inv(ascii_front(data, pos, h)->Ok_0),
{
    let s0 = AsciiState {
        pos,
        b: BuilderView { graph: GraphView::empty(), hash: Map::empty() },
        lits: lits_initial(),
        latch_inputs: seq![],
        output_lits: seq![],
    };
    assert(state_inv(s0)) by {
        assert(lits_initial()[0] == Some(NodeId::from_val(0)));
        assert(lits_initial()[1] == Some(NodeId::from_val(1)));
    }
    let inv = |s: AsciiState| state_inv(s);
    assert forall|s: AsciiState| inv(s) && (#[trigger] input_stepper(data)(s)) is Ok implies inv(
        input_stepper(data)(s)->Ok_0,
    ) by {
        lemma_input_step_inv(data, s);
    }
    lemma_repeat_inv(input_stepper(data), inv, s0, h.num_inputs as nat);
    let s1 = repeat(input_stepper(data), s0, h.num_inputs as nat)->Ok_0;
    assert forall|s: AsciiState| inv(s) && (#[trigger] latch_stepper(data)(s)) is Ok implies inv(
        latch_stepper(data)(s)->Ok_0,
    ) by {
        lemma_latch_step_inv(data, s);
    }
    lemma_repeat_inv(latch_stepper(data), inv, s1, h.num_latches as nat);
    let s2 = repeat(latch_stepper(data), s1, h.num_latches as nat)->Ok_0;
    assert forall|s: AsciiState| inv(s) && (#[trigger] output_stepper(data)(s)) is Ok implies inv(
        output_stepper(data)(s)->Ok_0,
    ) by {
        lemma_output_step_inv(data, s);
    }
    lemma_repeat_inv(output_stepper(data), inv, s2, h.num_outputs as nat);
}

/// The AND lines keep the input and latch lists.
proof fn lemma_ascii_ands_lists(data: Seq<u8>, s: AsciiState, n: nat)
    requires
        repeat(and_stepper(data, false), s, n) is Ok,
    ensures
        repeat(and_stepper(data, false), s, n)->Ok_0.b.graph.inputs == s.b.graph.inputs,
        repeat(and_stepper(data, false), s, n)->Ok_0.b.graph.latches == s.b.graph.latches,
{
    let step = and_stepper(data, false);
    let same_lists = |t: AsciiState| t.b.graph.inputs == s.b.graph.inputs && t.b.graph.latches == s.b.graph.latches;
    assert forall|t: AsciiState| same_lists(t) && (#[trigger] step(t)) is Ok implies same_lists(step(t)->Ok_0) by {
    }
    lemma_repeat_inv(step, same_lists, s, n);
}

/// The AND lines read by both parses from a common state keep them in step.
proof fn lemma_ascii_ands_agree(data: Seq<u8>, s: AsciiState, n: nat, env: Map<NodeId, Value>)
    requires
        state_inv(s),
        assigns_state(s.b.graph, env),
        repeat(and_stepper(data, false), s, n) is Ok,
    ensures
        repeat(and_stepper(data, true), s, n) is Ok,
        ascii_agree(repeat(and_stepper(data, false), s, n)->Ok_0, repeat(and_stepper(data, true), s, n)->Ok_0, env),
{
    let step1 = and_stepper(data, false);
    let step2 = and_stepper(data, true);
    assert(ascii_agree(s, s, env));
    let rel = |a: AsciiState, b: AsciiState| ascii_agree(a, b, env);
    assert forall|a: AsciiState, b: AsciiState|
        rel(a, b) && (#[trigger] step1(a)) is Ok implies (#[trigger] step2(b)) is Ok && rel(
        step1(a)->Ok_0,
        step2(b)->Ok_0,
    ) by {
        lemma_and_step_agree(data, a, b, env);
    }
    lemma_repeat_rel(step1, step2, rel, s, s, n);
}

/// Reading an ASCII body with and without `pre_optimize` gives graphs with
/// the same inputs and latches, whose outputs and latch next states compute
/// the same values under every assignment of the inputs and latches.
proof fn lemma_ascii_pre_optimize(data: Seq<u8>, pos: int, h: AigerHeader, env: Map<NodeId, Value>)
    requires
        spec_parse_ascii(data, pos, h, false) is Ok,
        assigns_state(spec_parse_ascii(data, pos, h, false)->Ok_0.0, env),
    ensures
        spec_parse_ascii(data, pos, h, true) is Ok,
        ({
            let g1 = spec_parse_ascii(data, pos, h, false)->Ok_0.0;
            let g2 = spec_parse_ascii(data, pos, h, true)->Ok_0.0;
            &&& g1.wf()
            &&& g2.wf()
            &&& g1.inputs == g2.inputs
            &&& g1.latches == g2.latches
            &&& latches_agree(g1, g2, env)
            &&& outputs_agree(g1, g2, env)
        }),
{
    assert(ascii_front(data, pos, h) is Ok);
    let s3 = ascii_front(data, pos, h)->Ok_0;
    lemma_ascii_front_inv(data, pos, h);
    let n = h.num_and_gates as nat;
    assert(repeat(and_stepper(data, false), s3, n) is Ok);
    let s4 = repeat(and_stepper(data, false), s3, n)->Ok_0;
    lemma_ascii_ands_lists(data, s3, n);
    lemma_resolve_latches_lists(s4.b, s4.lits, s4.latch_inputs);
    let b5 = resolve_latches(s4.b, s4.lits, s4.latch_inputs)->Ok_0;
    lemma_resolve_outputs_lists(b5, s4.lits, s4.output_lits);
    assert(assigns_state(s3.b.graph, env));
    lemma_ascii_ands_agree(data, s3, n, env);
    let t4 = repeat(and_stepper(data, true), s3, n)->Ok_0;
    lemma_resolve_latches_agree(s4.b, s4.lits, t4.b, t4.lits, s4.latch_inputs, env);
    let c5 = resolve_latches(t4.b, t4.lits, t4.latch_inputs)->Ok_0;
    lemma_lits_valid_extend(s4.lits, s4.b.graph, b5.graph);
    lemma_lits_valid_extend(t4.lits, t4.b.graph, c5.graph);
    lemma_resolve_outputs_agree(b5, s4.lits, c5, t4.lits, s4.output_lits, env);
}

/// Both literal maps record the same literals, and the signals recorded
/// for a literal compute the same value in the two graphs under `env`.
pub open spec fn map_agree(
    m1: Map<usize, NodeId>,
    g1: GraphView,
    m2: Map<usize, NodeId>,
    g2: GraphView,
    env: Map<NodeId, Value>,
) -> bool {
    &&& m1.dom() == m2.dom()
    &&& forall|k: usize| #[trigger] m1.contains_key(k) ==> spec_eval(g1, m1[k], env) == spec_eval(g2, m2[k], env)
}

/// The literal maps keep agreeing when both graphs grow.
proof fn lemma_map_agree_extend(
    m1: Map<usize, NodeId>,
    g1: GraphView,
    g1n: GraphView,
    m2: Map<usize, NodeId>,
    g2: GraphView,
    g2n: GraphView,
    env: Map<NodeId, Value>,
)
    requires
        map_agree(m1, g1, m2, g2, env),
        g1.wf(),
        g2.wf(),
        assigns_state(g1, env),
        assigns_state(g2, env),
        map_valid(m1, g1),
        map_valid(m2, g2),
        node_prefix(g1, g1n),
        node_prefix(g2, g2n),
    ensures
        map_agree(m1, g1n, m2, g2n, env),
        map_valid(m1, g1n),
        map_valid(m2, g2n),
{
    assert forall|k: usize| #[trigger] m1.contains_key(k) implies spec_eval(g1n, m1[k], env) == spec_eval(
        g2n,
        m2[k],
        env,
    ) by {
        assert(m2.contains_key(k));
        lemma_valid_extend(g1, g1n, env, m1[k]);
        lemma_valid_extend(g2, g2n, env, m2[k]);
    }
}

/// Agreeing maps give agreeing signals for every literal.
proof fn lemma_lookup_agree(
    m1: Map<usize, NodeId>,
    g1: GraphView,
    m2: Map<usize, NodeId>,
    g2: GraphView,
    env: Map<NodeId, Value>,
    lit: usize,
)
    requires
        map_agree(m1, g1, m2, g2, env),
        g1.wf(),
        g2.wf(),
        assigns_state(g1, env),
        assigns_state(g2, env),
        map_valid(m1, g1),
        map_valid(m2, g2),
    ensures
        spec_lookup(m1, lit) is Some <==> spec_lookup(m2, lit) is Some,
        spec_lookup(m1, lit) is Some ==> {
            &&& g1.valid_signal(spec_lookup(m1, lit)->Some_0)
            &&& g2.valid_signal(spec_lookup(m2, lit)->Some_0)
            &&& spec_eval(g1, spec_lookup(m1, lit)->Some_0, env) == spec_eval(
                g2,
                spec_lookup(m2, lit)->Some_0,
                env,
            )
        },
{
    assert(m1.contains_key(lit) == m2.contains_key(lit));
    let r = (lit - lit % 2) as usize;
    assert(m1.contains_key(r) == m2.contains_key(r));
    if spec_lookup(m1, lit) is Some {
        lemma_lookup_valid(m1, lit, g1);
        lemma_lookup_valid(m2, lit, g2);
        if !m1.contains_key(lit) && lit % 2 == 1 {
            lemma_assigned_defined(g1, env, m1[r]);
            lemma_assigned_defined(g2, env, m2[r]);
            lemma_eval_invert(g1, m1[r], env);
            lemma_eval_invert(g2, m2[r], env);
        }
    }
}

/// Recording agreeing signals for a literal keeps the maps agreeing.
proof fn lemma_map_insert_agree(
    m1: Map<usize, NodeId>,
    g1: GraphView,
    m2: Map<usize, NodeId>,
    g2: GraphView,
    env: Map<NodeId, Value>,
    lit: usize,
    id1: NodeId,
    id2: NodeId,
)
    requires
        map_agree(m1, g1, m2, g2, env),
        map_valid(m1, g1),
        map_valid(m2, g2),
        g1.valid_signal(id1),
        g2.valid_signal(id2),
        spec_eval(g1, id1, env) == spec_eval(g2, id2, env),
    ensures
        map_agree(m1.insert(lit, id1), g1, m2.insert(lit, id2), g2, env),
        map_valid(m1.insert(lit, id1), g1),
        map_valid(m2.insert(lit, id2), g2),
{
    assert(m1.insert(lit, id1).dom() =~= m2.insert(lit, id2).dom());
}

/// An input keeps the binary parser's invariant.
proof fn lemma_bin_input_step_inv(s: BinState, k: nat)
    requires
        bin_inv(s),
        bin_input_step(s, k) is Ok,
    ensures
        bin_inv(bin_input_step(s, k)->Ok_0),
{
    let (b2, id) = spec_add_input(s.b);
    lemma_add_input_wf(s.b);
    lemma_pending_latches_kept(s.b.graph, b2.graph, s.latch_inputs);
}

/// A latch line keeps the binary parser's invariant.
proof fn lemma_bin_latch_step_inv(data: Seq<u8>, num_inputs: nat, s: BinState, k: nat)
    requires
        bin_inv(s),
        bin_latch_step(data, num_inputs, s, k) is Ok,
    ensures
        bin_inv(bin_latch_step(data, num_inputs, s, k)->Ok_0),
{
    let s2 = bin_latch_step(data, num_inputs, s, k)->Ok_0;
    let (b2, id) = spec_add_latch(s.b, NodeId::from_val(0));
    lemma_add_latch_wf(s.b, NodeId::from_val(0));
    lemma_pending_latches_kept(s.b.graph, b2.graph, s.latch_inputs);
    assert forall|j: int| 0 <= j < s2.latch_inputs.len() implies {
        &&& s2.b.graph.has_node(#[trigger] s2.latch_inputs[j].0)
        &&& s2.b.graph.node_of(s2.latch_inputs[j].0).is_latch()
    } by {
        if j < s.latch_inputs.len() {
            assert(s2.latch_inputs[j] == s.latch_inputs[j]);
        }
    }
}

/// An output line keeps the binary parser's invariant.
proof fn lemma_bin_output_step_inv(data: Seq<u8>, s: BinState, k: nat)
    requires
        bin_inv(s),
        bin_output_step(data, s, k) is Ok,
    ensures
        bin_inv(bin_output_step(data, s, k)->Ok_0),
{
}

/// The two binary parses are in step (as [`ascii_agree`] for ASCII).
pub open spec fn bin_agree(s1: BinState, s2: BinState, env: Map<NodeId, Value>) -> bool {
    &&& bin_inv(s1)
    &&& bin_inv(s2)
    &&& s1.pos == s2.pos
    &&& s1.latch_inputs == s2.latch_inputs
    &&& s1.output_lits == s2.output_lits
    &&& s1.b.graph.inputs == s2.b.graph.inputs
    &&& s1.b.graph.latches == s2.b.graph.latches
    &&& assigns_state(s1.b.graph, env)
    &&& s2.b.graph.nodes.len() <= s1.b.graph.nodes.len()
    &&& map_agree(s1.map, s1.b.graph, s2.map, s2.b.graph, env)
    &&& latches_agree(s1.b.graph, s2.b.graph, env)
    &&& outputs_agree(s1.b.graph, s2.b.graph, env)
}

/// An AND gate read by both binary parses keeps them in step.
proof fn lemma_bin_and_step_agree(
    data: Seq<u8>,
    base: nat,
    s1: BinState,
    s2: BinState,
    k: nat,
    env: Map<NodeId, Value>,
)
    requires
        bin_agree(s1, s2, env),
        bin_and_step(data, base, false, s1, k) is Ok,
    ensures
        bin_and_step(data, base, true, s2, k) is Ok,
        bin_agree(bin_and_step(data, base, false, s1, k)->Ok_0, bin_and_step(data, base, true, s2, k)->Ok_0, env),
{
    let g1 = s1.b.graph;
    let g2 = s2.b.graph;
    assert(assigns_state(g2, env));
    let lhs = 2 * (base + k + 1);
    let (delta0, p1) = spec_read_delta(data, s1.pos, 0, 0)->Ok_0;
    let (delta1, p2) = spec_read_delta(data, p1, 0, 0)->Ok_0;
    let rhs0 = (lhs - delta0) as usize;
    let rhs1 = (rhs0 - delta1) as usize;
    lemma_lookup_agree(s1.map, g1, s2.map, g2, env, rhs0);
    lemma_lookup_agree(s1.map, g1, s2.map, g2, env, rhs1);
    let left1 = spec_lookup(s1.map, rhs0)->Some_0;
    let right1 = spec_lookup(s1.map, rhs1)->Some_0;
    let left2 = spec_lookup(s2.map, rhs0)->Some_0;
    let right2 = spec_lookup(s2.map, rhs1)->Some_0;
    let (b1, id1) = spec_add_and_raw(s1.b, left1, right1);
    let (b2, id2) = spec_and_optimized(s2.b, left2, right2);
    lemma_add_and_raw_wf(s1.b, left1, right1);
    lemma_and_optimized_wf(s2.b, left2, right2);
    lemma_assigned_defined(g1, env, left1);
    lemma_assigned_defined(g1, env, right1);
    lemma_assigned_defined(g2, env, left2);
    lemma_assigned_defined(g2, env, right2);
    assert(!env.contains_key(id1)) by {
        if env.contains_key(id1) {
            if g1.inputs.contains(id1) {
                let j = choose|j: int| 0 <= j < g1.inputs.len() && g1.inputs[j] == id1;
                assert(g1.has_node(g1.inputs[j]));
            } else {
                let j = choose|j: int| 0 <= j < g1.latches.len() && g1.latches[j] == id1;
                assert(g1.has_node(g1.latches[j]));
            }
        }
    }
    lemma_and_raw_computes_and(s1.b, left1, right1, env);
    assert(assigns_state(b2.graph, env));
    lemma_assigned_skips_ands(b2.graph, env);
    lemma_and_optimized_computes_and(s2.b, left2, right2, env);
    assert(assigns_state(b1.graph, env));
    lemma_map_agree_extend(s1.map, g1, b1.graph, s2.map, g2, b2.graph, env);
    lemma_latches_agree_extend(g1, b1.graph, g2, b2.graph, env);
    lemma_outputs_agree_extend(g1, b1.graph, g2, b2.graph, env);
    lemma_map_insert_agree(s1.map, b1.graph, s2.map, b2.graph, env, lhs as usize, id1, id2);
    lemma_pending_latches_kept(g1, b1.graph, s1.latch_inputs);
    lemma_pending_latches_kept(g2, b2.graph, s2.latch_inputs);
}

/// Resolving the pending latches in both binary parses keeps them agreeing.
proof fn lemma_bin_resolve_latches_agree(
    b1: BuilderView,
    m1: Map<usize, NodeId>,
    b2: BuilderView,
    m2: Map<usize, NodeId>,
    li: Seq<(NodeId, usize)>,
    env: Map<NodeId, Value>,
)
    requires
        b1.wf(),
        b2.wf(),
        map_valid(m1, b1.graph),
        map_valid(m2, b2.graph),
        forall|k: int|
            0 <= k < li.len() ==> {
                &&& b1.graph.has_node(#[trigger] li[k].0)
                &&& b1.graph.node_of(li[k].0).is_latch()
                &&& b2.graph.has_node(li[k].0)
                &&& b2.graph.node_of(li[k].0).is_latch()
            },
        b1.graph.inputs == b2.graph.inputs,
        b1.graph.latches == b2.graph.latches,
        assigns_state(b1.graph, env),
        map_agree(m1, b1.graph, m2, b2.graph, env),
        latches_agree(b1.graph, b2.graph, env),
        outputs_agree(b1.graph, b2.graph, env),
        bin_resolve_latches(b1, m1, li) is Ok,
    ensures
        bin_resolve_latches(b2, m2, li) is Ok,
        ({
            let r1 = bin_resolve_latches(b1, m1, li)->Ok_0;
            let r2 = bin_resolve_latches(b2, m2, li)->Ok_0;
            &&& r1.wf()
            &&& r2.wf()
            &&& r1.graph.inputs == b1.graph.inputs
            &&& r1.graph.latches == b1.graph.latches
            &&& r2.graph.inputs == b2.graph.inputs
            &&& r2.graph.latches == b2.graph.latches
            &&& r1.graph.nodes.len() == b1.graph.nodes.len()
            &&& r2.graph.nodes.len() == b2.graph.nodes.len()
            &&& map_agree(m1, r1.graph, m2, r2.graph, env)
            &&& latches_agree(r1.graph, r2.graph, env)
            &&& outputs_agree(r1.graph, r2.graph, env)
        }),
    decreases li.len(),
{
    if li.len() == 0 {
        return;
    }
    let g1 = b1.graph;
    let g2 = b2.graph;
    assert(assigns_state(g2, env));
    let latch = li[0].0;
    assert(g1.has_node(li[0].0));
    lemma_lookup_agree(m1, g1, m2, g2, env, li[0].1);
    let x1 = spec_lookup(m1, li[0].1)->Some_0;
    let x2 = spec_lookup(m2, li[0].1)->Some_0;
    lemma_set_latch_input_wf(b1, latch, x1);
    lemma_set_latch_input_wf(b2, latch, x2);
    let n1 = spec_set_latch_input(b1, latch, x1);
    let n2 = spec_set_latch_input(b2, latch, x2);
    let h1 = n1.graph;
    let h2 = n2.graph;
    lemma_valid_replace_latch(g1, h1, latch, env, x1);
    lemma_valid_replace_latch(g2, h2, latch, env, x2);
    assert(map_agree(m1, h1, m2, h2, env)) by {
        assert forall|k: usize| #[trigger] m1.contains_key(k) implies spec_eval(h1, m1[k], env) == spec_eval(
            h2,
            m2[k],
            env,
        ) by {
            assert(m2.contains_key(k));
            lemma_valid_replace_latch(g1, h1, latch, env, m1[k]);
            lemma_valid_replace_latch(g2, h2, latch, env, m2[k]);
        }
    }
    assert(outputs_agree(h1, h2, env)) by {
        assert forall|k: int| 0 <= k < h1.outputs.len() implies spec_eval(h1, #[trigger] h1.outputs[k], env)
            == spec_eval(h2, h2.outputs[k], env) by {
            lemma_valid_replace_latch(g1, h1, latch, env, g1.outputs[k]);
            lemma_valid_replace_latch(g2, h2, latch, env, g2.outputs[k]);
        }
    }
    assert(latches_agree(h1, h2, env)) by {
        assert forall|k: int| 0 <= k < h1.latches.len() implies spec_eval(
            h1,
            h1.node_of(#[trigger] h1.latches[k]).spec_right(),
            env,
        ) == spec_eval(h2, h2.node_of(h2.latches[k]).spec_right(), env) by {
            let y = g1.latches[k];
            if y.spec_index() != latch.spec_index() {
                assert(h1.node_of(y) == g1.node_of(y));
                assert(h2.node_of(y) == g2.node_of(y));
                lemma_valid_replace_latch(g1, h1, latch, env, g1.node_of(y).spec_right());
                lemma_valid_replace_latch(g2, h2, latch, env, g2.node_of(y).spec_right());
            } else {
                assert(h1.node_of(y) == h1.node_of(latch));
                assert(h2.node_of(y) == h2.node_of(latch));
            }
        }
    }
    let rest = li.drop_first();
    assert forall|k: int| 0 <= k < rest.len() implies {
        &&& h1.has_node(#[trigger] rest[k].0)
        &&& h1.node_of(rest[k].0).is_latch()
        &&& h2.has_node(rest[k].0)
        &&& h2.node_of(rest[k].0).is_latch()
    } by {
        assert(rest[k] == li[k + 1]);
        let z = li[k + 1].0;
        assert(g1.has_node(z));
        if z.spec_index() != latch.spec_index() {
            assert(h1.nodes[z.spec_index()] == g1.nodes[z.spec_index()]);
            assert(h2.nodes[z.spec_index()] == g2.nodes[z.spec_index()]);
        }
    }
    assert(assigns_state(h1, env));
    lemma_bin_resolve_latches_agree(n1, m1, n2, m2, rest, env);
}

/// Resolving the pending outputs in both binary parses keeps them agreeing.
proof fn lemma_bin_resolve_outputs_agree(
    b1: BuilderView,
    m1: Map<usize, NodeId>,
    b2: BuilderView,
    m2: Map<usize, NodeId>,
    ol: Seq<usize>,
    env: Map<NodeId, Value>,
)
    requires
        b1.wf(),
        b2.wf(),
        map_valid(m1, b1.graph),
        map_valid(m2, b2.graph),
        b1.graph.inputs == b2.graph.inputs,
        b1.graph.latches == b2.graph.latches,
        assigns_state(b1.graph, env),
        map_agree(m1, b1.graph, m2, b2.graph, env),
        latches_agree(b1.graph, b2.graph, env),
        outputs_agree(b1.graph, b2.graph, env),
        bin_resolve_outputs(b1, m1, ol) is Ok,
    ensures
        bin_resolve_outputs(b2, m2, ol) is Ok,
        ({
            let r1 = bin_resolve_outputs(b1, m1, ol)->Ok_0;
            let r2 = bin_resolve_outputs(b2, m2, ol)->Ok_0;
            &&& r1.wf()
            &&& r2.wf()
            &&& r1.graph.inputs == b1.graph.inputs
            &&& r1.graph.latches == b1.graph.latches
            &&& r2.graph.inputs == b2.graph.inputs
            &&& r2.graph.latches == b2.graph.latches
            &&& latches_agree(r1.graph, r2.graph, env)
            &&& outputs_agree(r1.graph, r2.graph, env)
        }),
    decreases ol.len(),
{
    if ol.len() == 0 {
        return;
    }
    let g1 = b1.graph;
    let g2 = b2.graph;
    assert(assigns_state(g2, env));
    lemma_lookup_agree(m1, g1, m2, g2, env, ol[0]);
    let x1 = spec_lookup(m1, ol[0])->Some_0;
    let x2 = spec_lookup(m2, ol[0])->Some_0;
    let n1 = spec_add_output(b1, x1);
    let n2 = spec_add_output(b2, x2);
    let h1 = n1.graph;
    let h2 = n2.graph;
    lemma_add_output_wf(b1, x1);
    lemma_add_output_wf(b2, x2);
    lemma_map_agree_extend(m1, g1, h1, m2, g2, h2, env);
    lemma_latches_agree_extend(g1, h1, g2, h2, env);
    assert(outputs_agree(h1, h2, env)) by {
        lemma_valid_extend(g1, h1, env, x1);
        lemma_valid_extend(g2, h2, env, x2);
        assert forall|k: int| 0 <= k < h1.outputs.len() implies spec_eval(h1, #[trigger] h1.outputs[k], env)
            == spec_eval(h2, h2.outputs[k], env) by {
            if k < g1.outputs.len() {
                lemma_valid_extend(g1, h1, env, g1.outputs[k]);
                lemma_valid_extend(g2, h2, env, g2.outputs[k]);
            }
        }
    }
    assert(assigns_state(h1, env));
    lemma_bin_resolve_outputs_agree(n1, m1, n2, m2, ol.drop_first(), env);
}

/// Resolving latches keeps the input and latch lists (binary parser).
proof fn lemma_bin_resolve_latches_lists(b: BuilderView, m: Map<usize, NodeId>, li: Seq<(NodeId, usize)>)
    requires
        bin_resolve_latches(b, m, li) is Ok,
    ensures
        bin_resolve_latches(b, m, li)->Ok_0.graph.inputs == b.graph.inputs,
        bin_resolve_latches(b, m, li)->Ok_0.graph.latches == b.graph.latches,
    decreases li.len(),
{
    if li.len() > 0 {
        let x = spec_lookup(m, li[0].1)->Some_0;
        lemma_bin_resolve_latches_lists(spec_set_latch_input(b, li[0].0, x), m, li.drop_first());
    }
}

/// Resolving outputs keeps the input and latch lists (binary parser).
proof fn lemma_bin_resolve_outputs_lists(b: BuilderView, m: Map<usize, NodeId>, ol: Seq<usize>)
    requires
        bin_resolve_outputs(b, m, ol) is Ok,
    ensures
        bin_resolve_outputs(b, m, ol)->Ok_0.graph.inputs == b.graph.inputs,
        bin_resolve_outputs(b, m, ol)->Ok_0.graph.latches == b.graph.latches,
    decreases ol.len(),
{
    if ol.len() > 0 {
        let x = spec_lookup(m, ol[0])->Some_0;
        lemma_bin_resolve_outputs_lists(spec_add_output(b, x), m, ol.drop_first());
    }
}

/// The binary parser's state after the inputs, the latch lines and the
/// output lines.
pub open spec fn bin_front(data: Seq<u8>, pos: int, h: AigerHeader) -> Result<BinState, AigerError> {
    let s0 = BinState {
        pos,
        b: BuilderView { graph: GraphView::empty(), hash: Map::empty() },
        map: map![0usize => NodeId::from_val(0), 1usize => NodeId::from_val(1)],
        latch_inputs: seq![],
        output_lits: seq![],
    };
    match repeat_indexed(bin_input_stepper(), s0, 0, h.num_inputs as nat) {
        Err(e) => Err(e),
        Ok(s1) => match repeat_indexed(bin_latch_stepper(data, h.num_inputs as nat), s1, 0, h.num_latches as nat) {
            Err(e) => Err(e),
            Ok(s2) => repeat_indexed(bin_output_stepper(data), s2, 0, h.num_outputs as nat),
        },
    }
}

#[verifier::spinoff_prover]
#[verifier::rlimit(40)]
proof fn lemma_bin_front_inv(data: Seq<u8>, pos: int, h: AigerHeader)
    requires
        bin_front(data, pos, h) is Ok,
    ensures
        bin_inv(bin_front(data, pos, h)->Ok_0),
{
    let s0 = BinState {
        pos,
        b: BuilderView { graph: GraphView::empty(), hash: Map::empty() },
        map: map![0usize => NodeId::from_val(0), 1usize => NodeId::from_val(1)],
        latch_inputs: seq![],
        output_lits: seq![],
    };
    assert(bin_inv(s0));
    let inv = |s: BinState| bin_inv(s);
    assert forall|s: BinState, k: nat| inv(s) && (#[trigger] bin_input_stepper()(s, k)) is Ok implies inv(
        bin_input_stepper()(s, k)->Ok_0,
    ) by {
        lemma_bin_input_step_inv(s, k);
    }
    lemma_repeat_indexed_inv(bin_input_stepper(), inv, s0, 0, h.num_inputs as nat);
    let s1 = repeat_indexed(bin_input_stepper(), s0, 0, h.num_inputs as nat)->Ok_0;
    let ls = bin_latch_stepper(data, h.num_inputs as nat);
    assert forall|s: BinState, k: nat| inv(s) && (#[trigger] ls(s, k)) is Ok implies inv(ls(s, k)->Ok_0) by {
        lemma_bin_latch_step_inv(data, h.num_inputs as nat, s, k);
    }
    lemma_repeat_indexed_inv(ls, inv, s1, 0, h.num_latches as nat);
    let s2 = repeat_indexed(ls, s1, 0, h.num_latches as nat)->Ok_0;
    assert forall|s: BinState, k: nat| inv(s) && (#[trigger] bin_output_stepper(data)(s, k)) is Ok implies inv(
        bin_output_stepper(data)(s, k)->Ok_0,
    ) by {
        lemma_bin_output_step_inv(data, s, k);
    }
    lemma_repeat_indexed_inv(bin_output_stepper(data), inv, s2, 0, h.num_outputs as nat);
}

/// The AND gates keep the input and latch lists (binary parser).
proof fn lemma_bin_ands_lists(data: Seq<u8>, base: nat, s: BinState, n: nat)
    requires
        repeat_indexed(bin_and_stepper(data, base, false), s, 0, n) is Ok,
    ensures
        repeat_indexed(bin_and_stepper(data, base, false), s, 0, n)->Ok_0.b.graph.inputs == s.b.graph.inputs,
        repeat_indexed(bin_and_stepper(data, base, false), s, 0, n)->Ok_0.b.graph.latches == s.b.graph.latches,
{
    let step = bin_and_stepper(data, base, false);
    let same_lists = |t: BinState| t.b.graph.inputs == s.b.graph.inputs && t.b.graph.latches == s.b.graph.latches;
    assert forall|t: BinState, k: nat| same_lists(t) && (#[trigger] step(t, k)) is Ok implies same_lists(
        step(t, k)->Ok_0,
    ) by {
    }
    lemma_repeat_indexed_inv(step, same_lists, s, 0, n);
}

/// The AND gates read by both binary parses from a common state keep them in
/// step.
proof fn lemma_bin_ands_agree(data: Seq<u8>, base: nat, s: BinState, n: nat, env: Map<NodeId, Value>)
    requires
        bin_inv(s),
        assigns_state(s.b.graph, env),
        repeat_indexed(bin_and_stepper(data, base, false), s, 0, n) is Ok,
    ensures
        repeat_indexed(bin_and_stepper(data, base, true), s, 0, n) is Ok,
        bin_agree(
            repeat_indexed(bin_and_stepper(data, base, false), s, 0, n)->Ok_0,
            repeat_indexed(bin_and_stepper(data, base, true), s, 0, n)->Ok_0,
            env,
        ),
{
    let step1 = bin_and_stepper(data, base, false);
    let step2 = bin_and_stepper(data, base, true);
    assert(bin_agree(s, s, env));
    let rel = |a: BinState, b: BinState| bin_agree(a, b, env);
    assert forall|a: BinState, b: BinState, k: nat|
        rel(a, b) && (#[trigger] step1(a, k)) is Ok implies (#[trigger] step2(b, k)) is Ok && rel(
        step1(a, k)->Ok_0,
        step2(b, k)->Ok_0,
    ) by {
        lemma_bin_and_step_agree(data, base, a, b, k, env);
    }
    lemma_repeat_indexed_rel(step1, step2, rel, s, s, 0, n);
}

/// Reading a binary body with and without `pre_optimize` gives graphs with
/// the same inputs and latches, whose outputs and latch next states compute
/// the same values under every assignment of the inputs and latches.
proof fn lemma_binary_pre_optimize(data: Seq<u8>, pos: int, h: AigerHeader, env: Map<NodeId, Value>)
    requires
        spec_parse_binary(data, pos, h, false) is Ok,
        assigns_state(spec_parse_binary(data, pos, h, false)->Ok_0.0, env),
    ensures
        spec_parse_binary(data, pos, h, true) is Ok,
        ({
            let g1 = spec_parse_binary(data, pos, h, false)->Ok_0.0;
            let g2 = spec_parse_binary(data, pos, h, true)->Ok_0.0;
            &&& g1.wf()
            &&& g2.wf()
            &&& g1.inputs == g2.inputs
            &&& g1.latches == g2.latches
            &&& latches_agree(g1, g2, env)
            &&& outputs_agree(g1, g2, env)
        }),
{
    assert(bin_front(data, pos, h) is Ok);
    let s3 = bin_front(data, pos, h)->Ok_0;
    lemma_bin_front_inv(data, pos, h);
    let n = h.num_and_gates as nat;
    let base = (h.num_inputs + h.num_latches) as nat;
    assert(repeat_indexed(bin_and_stepper(data, base, false), s3, 0, n) is Ok);
    let s4 = repeat_indexed(bin_and_stepper(data, base, false), s3, 0, n)->Ok_0;
    lemma_bin_ands_lists(data, base, s3, n);
    lemma_bin_resolve_latches_lists(s4.b, s4.map, s4.latch_inputs);
    let b5 = bin_resolve_latches(s4.b, s4.map, s4.latch_inputs)->Ok_0;
    lemma_bin_resolve_outputs_lists(b5, s4.map, s4.output_lits);
    assert(assigns_state(s3.b.graph, env));
    lemma_bin_ands_agree(data, base, s3, n, env);
    let t4 = repeat_indexed(bin_and_stepper(data, base, true), s3, 0, n)->Ok_0;
    lemma_bin_resolve_latches_agree(s4.b, s4.map, t4.b, t4.map, s4.latch_inputs, env);
    let c5 = bin_resolve_latches(t4.b, t4.map, t4.latch_inputs)->Ok_0;
    lemma_bin_resolve_outputs_agree(b5, s4.map, c5, t4.map, s4.output_lits, env);
}

/// The circuit law for maps that assign exactly the inputs and latches.
proof fn lemma_same_circuit_assigned(data: Seq<u8>, pos: int, env: Map<NodeId, Value>)
    requires
        spec_run_parser(data, pos, false) is Ok,
        assigns_state(spec_run_parser(data, pos, false)->Ok_0, env),
    ensures
        spec_run_parser(data, pos, true) is Ok,
        ({
            let g1 = spec_run_parser(data, pos, false)->Ok_0;
            let g2 = spec_run_parser(data, pos, true)->Ok_0;
            &&& g1.wf()
            &&& g2.wf()
            &&& g2.inputs == g1.inputs
            &&& g2.latches == g1.latches
            &&& g2.outputs.len() == g1.outputs.len()
            &&& forall|k: int|
                0 <= k < g1.outputs.len() ==> {
                    &&& defined(g1, #[trigger] g1.outputs[k], env)
                    &&& defined(g2, g2.outputs[k], env)
                    &&& spec_eval(g2, g2.outputs[k], env) == spec_eval(g1, g1.outputs[k], env)
                }
            &&& forall|k: int|
                0 <= k < g1.latches.len() ==> {
                    let x1 = g1.node_of(#[trigger] g1.latches[k]).spec_right();
                    let x2 = g2.node_of(g2.latches[k]).spec_right();
                    &&& defined(g1, x1, env)
                    &&& defined(g2, x2, env)
                    &&& spec_eval(g2, x2, env) == spec_eval(g1, x1, env)
                }
        }),
{
    let (h, p) = spec_header(data, pos)->Ok_0;
    if h.is_ascii {
        lemma_ascii_pre_optimize(data, p, h, env);
    } else {
        lemma_binary_pre_optimize(data, p, h, env);
    }
    let g1 = spec_run_parser(data, pos, false)->Ok_0;
    let g2 = spec_run_parser(data, pos, true)->Ok_0;
    assert(assigns_state(g2, env));
    assert forall|k: int| 0 <= k < g1.outputs.len() implies {
        &&& defined(g1, #[trigger] g1.outputs[k], env)
        &&& defined(g2, g2.outputs[k], env)
        &&& spec_eval(g2, g2.outputs[k], env) == spec_eval(g1, g1.outputs[k], env)
    } by {
        lemma_assigned_defined(g1, env, g1.outputs[k]);
        lemma_assigned_defined(g2, env, g2.outputs[k]);
    }
    assert forall|k: int| 0 <= k < g1.latches.len() implies {
        let x1 = g1.node_of(#[trigger] g1.latches[k]).spec_right();
        let x2 = g2.node_of(g2.latches[k]).spec_right();
        &&& defined(g1, x1, env)
        &&& defined(g2, x2, env)
        &&& spec_eval(g2, x2, env) == spec_eval(g1, x1, env)
    } by {
        lemma_assigned_defined(g1, env, g1.node_of(g1.latches[k]).spec_right());
        lemma_assigned_defined(g2, env, g2.node_of(g2.latches[k]).spec_right());
    }
}

/// The signals that `insert_all` gives a value to.
proof fn lemma_insert_all_dom(ids: Seq<NodeId>, vals: Seq<Value>, n: int, base: Map<NodeId, Value>, x: NodeId)
    requires
        0 <= n <= ids.len(),
    ensures
        insert_all(ids, vals, n, base).contains_key(x) <==> (base.contains_key(x) || ids.take(n).contains(x)),
    decreases n,
{
    if n > 0 {
        lemma_insert_all_dom(ids, vals, n - 1, base, x);
        if ids.take(n - 1).contains(x) {
            let k = choose|k: int| 0 <= k < n - 1 && #[trigger] ids.take(n - 1)[k] == x;
            assert(ids.take(n)[k] == x);
        }
        if ids[n - 1] == x {
            assert(ids.take(n)[n - 1] == x);
        }
        if ids.take(n).contains(x) && ids[n - 1] != x {
            let k = choose|k: int| 0 <= k < n && #[trigger] ids.take(n)[k] == x;
            assert(ids.take(n - 1)[k] == x);
        }
    }
}

/// At the start of every cycle exactly the latches have values.
proof fn lemma_env_after_dom(g: GraphView, vs: Seq<Seq<Value>>, x: NodeId)
    ensures
        env_after(g, vs).contains_key(x) <==> g.latches.contains(x),
    decreases vs.len(),
{
    let n = g.latches.len() as int;
    assert(g.latches.take(n) =~= g.latches);
    if vs.len() == 0 {
        lemma_insert_all_dom(g.latches, Seq::new(g.latches.len(), |k: int| 0usize), n, Map::empty(), x);
    } else {
        let env = env_after(g, vs.drop_last());
        lemma_insert_all_dom(g.latches, spec_step(g, env, vs.last()).next_state, n, Map::empty(), x);
    }
}

/// With an input vector that covers every input, a cycle's environment
/// assigns the inputs and latches.
proof fn lemma_cycle_env_assigns(g: GraphView, vs: Seq<Seq<Value>>, vec: Seq<Value>)
    requires
        vec.len() >= g.inputs.len(),
    ensures
        assigns_state(g, cycle_env(g, env_after(g, vs), vec)),
{
    let env = env_after(g, vs);
    let n = g.inputs.len() as int;
    assert(g.inputs.take(n) =~= g.inputs);
    assert forall|x: NodeId| #[trigger] cycle_env(g, env, vec).contains_key(x) <==> (g.inputs.contains(x)
        || g.latches.contains(x)) by {
        lemma_insert_all_dom(g.inputs, vec, n, env, x);
        lemma_env_after_dom(g, vs, x);
    }
    assert forall|k: int| 0 <= k < g.inputs.len() implies cycle_env(g, env, vec).contains_key(
        #[trigger] g.inputs[k],
    ) by {
        assert(g.inputs.contains(g.inputs[k]));
    }
    assert forall|k: int| 0 <= k < g.latches.len() implies cycle_env(g, env, vec).contains_key(
        #[trigger] g.latches[k],
    ) by {
        assert(g.latches.contains(g.latches[k]));
    }
}

/// Law: whenever reading AIGER data without `pre_optimize` succeeds,
/// reading it with `pre_optimize` (which simplifies AND gates and shares
/// equal ones) succeeds too and describes the same circuit: the same inputs
/// and latches and as many outputs, and under every map that gives values to
/// all inputs and latches (and to no AND gate of either graph), each output
/// and each latch's next state computes the same value in both graphs.
pub proof fn lemma_pre_optimize_same_circuit(data: Seq<u8>, pos: int, env: Map<NodeId, Value>)
    requires
        spec_run_parser(data, pos, false) is Ok,
        forall|k: int|
            0 <= k < spec_run_parser(data, pos, false)->Ok_0.inputs.len() ==> env.contains_key(
                #[trigger] spec_run_parser(data, pos, false)->Ok_0.inputs[k],
            ),
        forall|k: int|
            0 <= k < spec_run_parser(data, pos, false)->Ok_0.latches.len() ==> env.contains_key(
                #[trigger] spec_run_parser(data, pos, false)->Ok_0.latches[k],
            ),
        env_skips_ands(spec_run_parser(data, pos, false)->Ok_0, env),
        spec_run_parser(data, pos, true) is Ok ==> env_skips_ands(spec_run_parser(data, pos, true)->Ok_0, env),
    ensures
        spec_run_parser(data, pos, true) is Ok,
        ({
            let g1 = spec_run_parser(data, pos, false)->Ok_0;
            let g2 = spec_run_parser(data, pos, true)->Ok_0;
            &&& g1.wf()
            &&& g2.wf()
            &&& g2.inputs == g1.inputs
            &&& g2.latches == g1.latches
            &&& g2.outputs.len() == g1.outputs.len()
            &&& forall|k: int|
                0 <= k < g1.outputs.len() ==> {
                    &&& defined(g1, #[trigger] g1.outputs[k], env)
                    &&& defined(g2, g2.outputs[k], env)
                    &&& spec_eval(g2, g2.outputs[k], env) == spec_eval(g1, g1.outputs[k], env)
                }
            &&& forall|k: int|
                0 <= k < g1.latches.len() ==> {
                    let x1 = g1.node_of(#[trigger] g1.latches[k]).spec_right();
                    let x2 = g2.node_of(g2.latches[k]).spec_right();
                    &&& defined(g1, x1, env)
                    &&& defined(g2, x2, env)
                    &&& spec_eval(g2, x2, env) == spec_eval(g1, x1, env)
                }
        }),
{
    let g1 = spec_run_parser(data, pos, false)->Ok_0;
    let e2 = state_part(g1, env);
    assert forall|k: int| 0 <= k < g1.inputs.len() implies e2.contains_key(#[trigger] g1.inputs[k]) by {
        assert(g1.inputs.contains(g1.inputs[k]));
    }
    assert forall|k: int| 0 <= k < g1.latches.len() implies e2.contains_key(#[trigger] g1.latches[k]) by {
        assert(g1.latches.contains(g1.latches[k]));
    }
    assert(assigns_state(g1, e2));
    lemma_same_circuit_assigned(data, pos, e2);
    let g2 = spec_run_parser(data, pos, true)->Ok_0;
    lemma_state_part(g1, env);
    lemma_state_part(g2, env);
    assert(state_part(g2, env) =~= e2);
    assert forall|k: int| 0 <= k < g1.outputs.len() implies {
        &&& defined(g1, #[trigger] g1.outputs[k], env)
        &&& defined(g2, g2.outputs[k], env)
        &&& spec_eval(g2, g2.outputs[k], env) == spec_eval(g1, g1.outputs[k], env)
    } by {
        lemma_defined_same_node_values(g1, g1.outputs[k], env, e2);
        lemma_defined_same_node_values(g2, g2.outputs[k], env, e2);
    }
    assert forall|k: int| 0 <= k < g1.latches.len() implies {
        let x1 = g1.node_of(#[trigger] g1.latches[k]).spec_right();
        let x2 = g2.node_of(g2.latches[k]).spec_right();
        &&& defined(g1, x1, env)
        &&& defined(g2, x2, env)
        &&& spec_eval(g2, x2, env) == spec_eval(g1, x1, env)
    } by {
        lemma_defined_same_node_values(g1, g1.node_of(g1.latches[k]).spec_right(), env, e2);
        lemma_defined_same_node_values(g2, g2.node_of(g2.latches[k]).spec_right(), env, e2);
    }
}

/// The two graphs have as many outputs, and under `env` each output and
/// each latch's next state can be evaluated and computes the same value in
/// both.
pub open spec fn same_values_under(g1: GraphView, g2: GraphView, env: Map<NodeId, Value>) -> bool {
    &&& g2.outputs.len() == g1.outputs.len()
    &&& forall|k: int|
        0 <= k < g1.outputs.len() ==> {
            &&& defined(g1, #[trigger] g1.outputs[k], env)
            &&& defined(g2, g2.outputs[k], env)
            &&& spec_eval(g2, g2.outputs[k], env) == spec_eval(g1, g1.outputs[k], env)
        }
    &&& forall|k: int|
        0 <= k < g1.latches.len() ==> {
            let x1 = g1.node_of(#[trigger] g1.latches[k]).spec_right();
            let x2 = g2.node_of(g2.latches[k]).spec_right();
            &&& defined(g1, x1, env)
            &&& defined(g2, x2, env)
            &&& spec_eval(g2, x2, env) == spec_eval(g1, x1, env)
        }
}

/// `env` gives values to all inputs and latches of `g`.
pub open spec fn covers_state(g: GraphView, env: Map<NodeId, Value>) -> bool {
    &&& forall|k: int| 0 <= k < g.inputs.len() ==> env.contains_key(#[trigger] g.inputs[k])
    &&& forall|k: int| 0 <= k < g.latches.len() ==> env.contains_key(#[trigger] g.latches[k])
}

proof fn lemma_state_part_assigns(g: GraphView, env: Map<NodeId, Value>)
    requires
        covers_state(g, env),
    ensures
        assigns_state(g, state_part(g, env)),
{
    let e2 = state_part(g, env);
    assert forall|k: int| 0 <= k < g.inputs.len() implies e2.contains_key(#[trigger] g.inputs[k]) by {
        assert(g.inputs.contains(g.inputs[k]));
    }
    assert forall|k: int| 0 <= k < g.latches.len() implies e2.contains_key(#[trigger] g.latches[k]) by {
        assert(g.latches.contains(g.latches[k]));
    }
}

/// Agreement under the inputs-and-latches part of `env` gives agreement
/// under `env` itself, when `env` gives no value to an AND gate.
proof fn lemma_agree_under_env(g1: GraphView, g2: GraphView, env: Map<NodeId, Value>)
    requires
        g1.wf(),
        g2.wf(),
        g2.inputs == g1.inputs,
        g2.latches == g1.latches,
        covers_state(g1, env),
        env_skips_ands(g1, env),
        env_skips_ands(g2, env),
        latches_agree(g1, g2, state_part(g1, env)),
        outputs_agree(g1, g2, state_part(g1, env)),
    ensures
        same_values_under(g1, g2, env),
{
    let e2 = state_part(g1, env);
    lemma_state_part_assigns(g1, env);
    assert(assigns_state(g2, e2));
    lemma_state_part(g1, env);
    lemma_state_part(g2, env);
    assert(state_part(g2, env) =~= e2);
    assert forall|k: int| 0 <= k < g1.outputs.len() implies {
        &&& defined(g1, #[trigger] g1.outputs[k], env)
        &&& defined(g2, g2.outputs[k], env)
        &&& spec_eval(g2, g2.outputs[k], env) == spec_eval(g1, g1.outputs[k], env)
    } by {
        lemma_assigned_defined(g1, e2, g1.outputs[k]);
        lemma_assigned_defined(g2, e2, g2.outputs[k]);
        lemma_defined_same_node_values(g1, g1.outputs[k], env, e2);
        lemma_defined_same_node_values(g2, g2.outputs[k], env, e2);
    }
    assert forall|k: int| 0 <= k < g1.latches.len() implies {
        let x1 = g1.node_of(#[trigger] g1.latches[k]).spec_right();
        let x2 = g2.node_of(g2.latches[k]).spec_right();
        &&& defined(g1, x1, env)
        &&& defined(g2, x2, env)
        &&& spec_eval(g2, x2, env) == spec_eval(g1, x1, env)
    } by {
        let x1 = g1.node_of(g1.latches[k]).spec_right();
        let x2 = g2.node_of(g2.latches[k]).spec_right();
        lemma_assigned_defined(g1, e2, x1);
        lemma_assigned_defined(g2, e2, x2);
        lemma_defined_same_node_values(g1, x1, env, e2);
        lemma_defined_same_node_values(g2, x2, env, e2);
    }
}

/// Law: whenever reading an ASCII body without `pre_optimize` succeeds,
/// reading it with `pre_optimize` succeeds too and gives the same circuit:
/// the same inputs and latches, and under every map that gives values to
/// all inputs and latches (and to no AND gate of either graph), the same
/// values of the outputs and latch next states.
pub proof fn lemma_ascii_pre_optimize_same_circuit(data: Seq<u8>, pos: int, h: AigerHeader, env: Map<NodeId, Value>)
    requires
        spec_parse_ascii(data, pos, h, false) is Ok,
        covers_state(spec_parse_ascii(data, pos, h, false)->Ok_0.0, env),
        env_skips_ands(spec_parse_ascii(data, pos, h, false)->Ok_0.0, env),
        spec_parse_ascii(data, pos, h, true) is Ok ==> env_skips_ands(
            spec_parse_ascii(data, pos, h, true)->Ok_0.0,
            env,
        ),
    ensures
        spec_parse_ascii(data, pos, h, true) is Ok,
        ({
            let g1 = spec_parse_ascii(data, pos, h, false)->Ok_0.0;
            let g2 = spec_parse_ascii(data, pos, h, true)->Ok_0.0;
            &&& g2.inputs == g1.inputs
            &&& g2.latches == g1.latches
            &&& same_values_under(g1, g2, env)
        }),
{
    let g1 = spec_parse_ascii(data, pos, h, false)->Ok_0.0;
    lemma_state_part_assigns(g1, env);
    lemma_ascii_pre_optimize(data, pos, h, state_part(g1, env));
    let g2 = spec_parse_ascii(data, pos, h, true)->Ok_0.0;
    lemma_agree_under_env(g1, g2, env);
}

/// Law: the same for a binary body: whenever reading it without
/// `pre_optimize` succeeds, reading it with `pre_optimize` succeeds too and
/// gives the same inputs, latches, output values and latch next-state
/// values under every such map.
pub proof fn lemma_binary_pre_optimize_same_circuit(data: Seq<u8>, pos: int, h: AigerHeader, env: Map<NodeId, Value>)
    requires
        spec_parse_binary(data, pos, h, false) is Ok,
        covers_state(spec_parse_binary(data, pos, h, false)->Ok_0.0, env),
        env_skips_ands(spec_parse_binary(data, pos, h, false)->Ok_0.0, env),
        spec_parse_binary(data, pos, h, true) is Ok ==> env_skips_ands(
            spec_parse_binary(data, pos, h, true)->Ok_0.0,
            env,
        ),
    ensures
        spec_parse_binary(data, pos, h, true) is Ok,
        ({
            let g1 = spec_parse_binary(data, pos, h, false)->Ok_0.0;
            let g2 = spec_parse_binary(data, pos, h, true)->Ok_0.0;
            &&& g2.inputs == g1.inputs
            &&& g2.latches == g1.latches
            &&& same_values_under(g1, g2, env)
        }),
{
    let g1 = spec_parse_binary(data, pos, h, false)->Ok_0.0;
    lemma_state_part_assigns(g1, env);
    lemma_binary_pre_optimize(data, pos, h, state_part(g1, env));
    let g2 = spec_parse_binary(data, pos, h, true)->Ok_0.0;
    lemma_agree_under_env(g1, g2, env);
}

/// One cycle of two graphs with the same inputs and latches, whose outputs
/// and next states agree in the cycle's environment, from the same latch
/// values: both can be evaluated and record the same step.
proof fn lemma_same_step(g1: GraphView, g2: GraphView, vs: Seq<Seq<Value>>, vec: Seq<Value>)
    requires
        g1.wf(),
        g2.wf(),
        g2.inputs == g1.inputs,
        g2.latches == g1.latches,
        g2.outputs.len() == g1.outputs.len(),
        ({
            let env1 = cycle_env(g1, env_after(g1, vs), vec);
            &&& forall|k: int|
                0 <= k < g1.outputs.len() ==> {
                    &&& defined(g1, #[trigger] g1.outputs[k], env1)
                    &&& defined(g2, g2.outputs[k], env1)
                    &&& spec_eval(g2, g2.outputs[k], env1) == spec_eval(g1, g1.outputs[k], env1)
                }
            &&& forall|k: int|
                0 <= k < g1.latches.len() ==> {
                    let x1 = g1.node_of(#[trigger] g1.latches[k]).spec_right();
                    let x2 = g2.node_of(g2.latches[k]).spec_right();
                    &&& defined(g1, x1, env1)
                    &&& defined(g2, x2, env1)
                    &&& spec_eval(g2, x2, env1) == spec_eval(g1, x1, env1)
                }
        }),
    ensures
        step_ok(g1, env_after(g1, vs), vec),
        step_ok(g2, env_after(g1, vs), vec),
        spec_step(g1, env_after(g1, vs), vec) == spec_step(g2, env_after(g1, vs), vec),
        next_env(g1, env_after(g1, vs), vec) == next_env(g2, env_after(g1, vs), vec),
{
    let env = env_after(g1, vs);
    assert(cycle_env(g2, env, vec) == cycle_env(g1, env, vec));
    assert forall|k: int| 0 <= k < g1.latches.len() implies {
        &&& defined(g1, #[trigger] g1.latches[k], env)
        &&& defined(g2, g2.latches[k], env)
        &&& spec_eval(g1, g1.latches[k], env) == spec_eval(g2, g2.latches[k], env)
    } by {
        let x = g1.latches[k];
        lemma_env_after_dom(g1, vs, x);
        assert(g1.latches.contains(x));
        assert(eval_fuel(g1, x, env, 1) is Some);
        assert(eval_fuel(g2, x, env, 1) is Some);
        lemma_eval_fuel_spec(g1, x, env, 1);
        lemma_eval_fuel_spec(g2, x, env, 1);
    }
    let env1 = cycle_env(g1, env, vec);
    assert forall|k: int| 0 <= k < g2.outputs.len() implies defined(g2, #[trigger] g2.outputs[k], env1) by {
        assert(defined(g1, g1.outputs[k], env1));
    }
    assert forall|k: int| 0 <= k < g2.latches.len() implies defined(
        g2,
        g2.node_of(#[trigger] g2.latches[k]).spec_right(),
        env1,
    ) by {
        assert(g1.latches[k] == g2.latches[k]);
    }
    let st1 = spec_step(g1, env, vec);
    let st2 = spec_step(g2, env, vec);
    assert(st1.state =~= st2.state);
    assert(st1.outputs =~= st2.outputs);
    assert(st1.next_state =~= st2.next_state);
}

/// Simulating the two graphs cycle by cycle gives the same steps and the
/// same latch values.
proof fn lemma_pre_optimize_trace_rec(data: Seq<u8>, pos: int, vs: Seq<Seq<Value>>)
    requires
        spec_run_parser(data, pos, false) is Ok,
        forall|j: int| 0 <= j < vs.len() ==> (#[trigger] vs[j]).len() >= spec_run_parser(data, pos, false)->Ok_0.inputs.len(),
    ensures
        spec_run_parser(data, pos, true) is Ok,
        ({
            let g1 = spec_run_parser(data, pos, false)->Ok_0;
            let g2 = spec_run_parser(data, pos, true)->Ok_0;
            &&& trace_ok(g1, vs)
            &&& trace_ok(g2, vs)
            &&& spec_trace(g1, vs) == spec_trace(g2, vs)
            &&& env_after(g1, vs) == env_after(g2, vs)
        }),
    decreases vs.len(),
{
    let g1 = spec_run_parser(data, pos, false)->Ok_0;
    if vs.len() == 0 {
        let vec0 = Seq::new(g1.inputs.len(), |k: int| 0usize);
        lemma_cycle_env_assigns(g1, vs, vec0);
        lemma_same_circuit_assigned(data, pos, cycle_env(g1, env_after(g1, vs), vec0));
        let g2 = spec_run_parser(data, pos, true)->Ok_0;
        assert(env_after(g1, vs) == env_after(g2, vs));
        return;
    }
    let prev = vs.drop_last();
    let vec = vs.last();
    assert forall|j: int| 0 <= j < prev.len() implies (#[trigger] prev[j]).len() >= g1.inputs.len() by {
        assert(prev[j] == vs[j]);
    }
    lemma_pre_optimize_trace_rec(data, pos, prev);
    let g2 = spec_run_parser(data, pos, true)->Ok_0;
    assert(vec == vs[vs.len() - 1]);
    lemma_cycle_env_assigns(g1, prev, vec);
    lemma_same_circuit_assigned(data, pos, cycle_env(g1, env_after(g1, prev), vec));
    lemma_same_step(g1, g2, prev, vec);
}

/// Law: whenever reading AIGER data without `pre_optimize` succeeds,
/// simulating the graph read with `pre_optimize` gives the same trace, for
/// input vectors that give a value to every input; every cycle of both
/// simulations can be evaluated.
pub proof fn lemma_pre_optimize_same_trace(data: Seq<u8>, pos: int, vs: Seq<Seq<Value>>)
    requires
        spec_run_parser(data, pos, false) is Ok,
        forall|j: int| 0 <= j < vs.len() ==> (#[trigger] vs[j]).len() >= spec_run_parser(data, pos, false)->Ok_0.inputs.len(),
    ensures
        spec_run_parser(data, pos, true) is Ok,
        trace_ok(spec_run_parser(data, pos, false)->Ok_0, vs),
        trace_ok(spec_run_parser(data, pos, true)->Ok_0, vs),
        spec_trace(spec_run_parser(data, pos, true)->Ok_0, vs) == spec_trace(spec_run_parser(data, pos, false)->Ok_0, vs),
{
    lemma_pre_optimize_trace_rec(data, pos, vs);
}

} // verus!
