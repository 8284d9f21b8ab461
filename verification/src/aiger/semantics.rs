use super::ascii_parser::{and_step, spec_and_line, state_inv, AsciiState};
use super::binary_parser::{
    bin_and_step, bin_and_stepper, bin_input_step, bin_input_stepper, bin_latch_step,
    bin_latch_stepper, bin_output_step, bin_output_stepper, bin_resolve_latches,
    bin_resolve_outputs, spec_parse_binary, BinState,
};
use super::pre_optimize::bin_front;
use super::{lemma_lits_get_valid, lits_add, lits_get, repeat_indexed, spec_lookup, AigerError, AigerHeader};
use crate::graph::eval::{
    assigns_state, defined, lemma_and_optimized_computes_and, lemma_and_raw_computes_and,
    lemma_assigned_defined, lemma_assigned_skips_ands, lemma_eval_invert, spec_eval, Value,
};
use crate::graph::{
    lemma_add_and_raw_wf, lemma_and_optimized_wf, lemma_index_roundtrip, spec_add_and_raw,
    spec_add_output, spec_and_optimized, spec_set_latch_input, AigNode, BuilderView, GraphView, NodeId,
    MAX_GRAPH_INDEX,
};
use vstd::prelude::*;

verus! {

broadcast use crate::graph::group_aig;

/// The value of AIGER literal `lit` under `env`, from the signal recorded
/// for its even partner: an odd literal's value is the complement.
pub open spec fn lit_value(lits: Seq<Option<NodeId>>, g: GraphView, lit: usize, env: Map<NodeId, Value>) -> Value {
    let x = lits[lit - lit % 2]->Some_0;
    if lit % 2 == 1 {
        !spec_eval(g, x, env)
    } else {
        spec_eval(g, x, env)
    }
}

/// The signal that `lits_get` gives for a recorded literal has the
/// literal's value.
proof fn lemma_lits_get_value(lits: Seq<Option<NodeId>>, g: GraphView, lit: usize, env: Map<NodeId, Value>)
    requires
        g.wf(),
        assigns_state(g, env),
        super::lits_valid(lits, g),
        lits_get(lits, lit) is Some,
    ensures
        defined(g, lits_get(lits, lit)->Some_0, env),
        spec_eval(g, lits_get(lits, lit)->Some_0, env) == lit_value(lits, g, lit, env),
{
    let r = lit - lit % 2;
    let x = lits[r]->Some_0;
    lemma_lits_get_valid(lits, lit, g);
    assert(g.valid_signal(x));
    lemma_assigned_defined(g, env, x);
    lemma_eval_invert(g, x, env);
}

/// Law: an AND line `lhs rhs0 rhs1` records for `lhs` a signal whose value,
/// under every assignment of the inputs and latches, is the bitwise AND of
/// the values of `rhs0` and `rhs1`, where an odd literal's value is the
/// complement of its even partner's value; this holds with and without
/// `pre_optimize`.
pub proof fn lemma_and_line_value(data: Seq<u8>, s: AsciiState, pre_optimize: bool, env: Map<NodeId, Value>)
    requires
        state_inv(s),
        and_step(data, s, pre_optimize) is Ok,
        assigns_state(s.b.graph, env),
    ensures
        ({
            let s2 = and_step(data, s, pre_optimize)->Ok_0;
            let (lhs, rhs0, rhs1) = spec_and_line(data, s.pos)->Ok_0.0;
            &&& s2.lits[lhs - lhs % 2] is Some
            &&& defined(s2.b.graph, s2.lits[lhs - lhs % 2]->Some_0, env)
            &&& lit_value(s2.lits, s2.b.graph, lhs, env) == lit_value(s.lits, s.b.graph, rhs0, env)
                & lit_value(s.lits, s.b.graph, rhs1, env)
        }),
{
    let g = s.b.graph;
    let s2 = and_step(data, s, pre_optimize)->Ok_0;
    let (lhs, rhs0, rhs1) = spec_and_line(data, s.pos)->Ok_0.0;
    let left = lits_get(s.lits, rhs0)->Some_0;
    let right = lits_get(s.lits, rhs1)->Some_0;
    lemma_lits_get_value(s.lits, g, rhs0, env);
    lemma_lits_get_value(s.lits, g, rhs1, env);
    lemma_lits_get_valid(s.lits, rhs0, g);
    lemma_lits_get_valid(s.lits, rhs1, g);
    let (b2, id) = if pre_optimize {
        spec_and_optimized(s.b, left, right)
    } else {
        spec_add_and_raw(s.b, left, right)
    };
    assert(s2.b == b2);
    let g2 = b2.graph;
    if pre_optimize {
        lemma_and_optimized_wf(s.b, left, right);
        assert(assigns_state(g2, env));
        lemma_assigned_skips_ands(g2, env);
        lemma_and_optimized_computes_and(s.b, left, right, env);
    } else {
        lemma_add_and_raw_wf(s.b, left, right);
        assert(!env.contains_key(id)) by {
            if env.contains_key(id) {
                if g.inputs.contains(id) {
                    let k = choose|k: int| 0 <= k < g.inputs.len() && g.inputs[k] == id;
                    assert(g.has_node(g.inputs[k]));
                } else {
                    let k = choose|k: int| 0 <= k < g.latches.len() && g.latches[k] == id;
                    assert(g.has_node(g.latches[k]));
                }
            }
        }
        lemma_and_raw_computes_and(s.b, left, right, env);
    }
    assert(s2.lits == lits_add(s.lits, lhs, id));
    assert(s2.lits[lhs - lhs % 2] == if lhs % 2 == 0 {
        Some(id)
    } else {
        Some(id.spec_invert())
    });
    lemma_eval_invert(g2, id, env);
    let v = spec_eval(g2, id, env);
    assert(!!v == v) by (bit_vector);
}

/// A property of a state and the number of steps taken, kept by every
/// successful step, holds after the steps from `i` up to `n`.
proof fn lemma_repeat_indexed_count<S>(
    step: spec_fn(S, nat) -> Result<S, AigerError>,
    inv: spec_fn(S, nat) -> bool,
    st: S,
    i: nat,
    n: nat,
)
    requires
        i <= n,
        inv(st, i),
        forall|s: S, k: nat| inv(s, k) && (#[trigger] step(s, k)) is Ok ==> inv(step(s, k)->Ok_0, k + 1),
        repeat_indexed(step, st, i, n) is Ok,
    ensures
        inv(repeat_indexed(step, st, i, n)->Ok_0, n),
    decreases n - i,
{
    if i < n {
        lemma_repeat_indexed_count(step, inv, step(st, i)->Ok_0, i + 1, n);
    }
}

/// The literal of the `k`-th input of a binary file.
pub open spec fn input_lit(k: int) -> usize {
    (2 * (k + 1)) as usize
}

/// The literal of the `k`-th latch of a binary file with `num_inputs` inputs.
pub open spec fn latch_lit(num_inputs: nat, k: int) -> usize {
    (2 * (num_inputs + k + 1)) as usize
}

/// The literal of the `k`-th AND gate of a binary file with `base` inputs
/// and latches.
pub open spec fn and_lit(base: nat, k: int) -> usize {
    (2 * (base + k + 1)) as usize
}

/// The binary parser's literal map after `ni` inputs, `nl` latches and `na`
/// AND gates of a file with `ti` inputs and `tl` latches: the constants are
/// literals 0 and 1, the `k`-th input is literal `2 * (k + 1)`, the `k`-th
/// latch is literal `2 * (ti + k + 1)`, the `k`-th AND gate is literal
/// `2 * (ti + tl + k + 1)`, and no other odd literal is recorded.
pub open spec fn bin_layout(s: BinState, ti: nat, tl: nat, ni: nat, nl: nat, na: nat) -> bool {
    let g = s.b.graph;
    &&& g.inputs.len() == ni
    &&& g.latches.len() == nl
    &&& s.latch_inputs.len() == nl
    &&& g.outputs.len() == 0
    &&& (nl > 0 ==> ni == ti)
    &&& (na > 0 ==> ni == ti && nl == tl)
    &&& g.nodes.len() >= ni + nl
    &&& (na == 0 ==> g.nodes.len() == ni + nl)
    &&& s.map.contains_key(0usize) && s.map[0usize] == NodeId::from_val(0)
    &&& s.map.contains_key(1usize) && s.map[1usize] == NodeId::from_val(1)
    &&& forall|key: usize| #[trigger] s.map.contains_key(key) ==> key == 1 || key % 2 == 0
    &&& forall|k: int|
        0 <= k < ni ==> {
            &&& #[trigger] input_lit(k) == 2 * (k + 1)
            &&& s.map.contains_key(input_lit(k))
            &&& s.map[input_lit(k)] == g.inputs[k]
        }
    &&& forall|k: int|
        0 <= k < nl ==> {
            &&& #[trigger] latch_lit(ti, k) == 2 * (ti + k + 1)
            &&& s.map.contains_key(latch_lit(ti, k))
            &&& s.map[latch_lit(ti, k)] == g.latches[k]
        }
    &&& (nl > 0 ==> ti + nl <= MAX_GRAPH_INDEX + 1)
    &&& forall|k: int|
        0 <= k < nl ==> {
            &&& #[trigger] g.latches[k] == NodeId::spec_from_index(ti + k)
            &&& s.latch_inputs[k].0 == g.latches[k]
        }
    &&& forall|k: int|
        0 <= k < na ==> {
            &&& #[trigger] and_lit(ti + tl, k) == 2 * (ti + tl + k + 1)
            &&& s.map.contains_key(and_lit(ti + tl, k))
        }
}

proof fn lemma_bin_input_layout(s: BinState, ti: nat, tl: nat, k: nat)
    requires
        bin_layout(s, ti, tl, k, 0, 0),
        bin_input_step(s, k) is Ok,
    ensures
        bin_layout(bin_input_step(s, k)->Ok_0, ti, tl, k + 1, 0, 0),
{
    let s2 = bin_input_step(s, k)->Ok_0;
    let g2 = s2.b.graph;
    let key = input_lit(k as int);
    assert(key == 2 * (k + 1));
    assert forall|j: int| 0 <= j < k + 1 implies {
        &&& #[trigger] input_lit(j) == 2 * (j + 1)
        &&& s2.map.contains_key(input_lit(j))
        &&& s2.map[input_lit(j)] == g2.inputs[j]
    } by {
        if j < k {
            assert(input_lit(j) == 2 * (j + 1));
            assert(s.b.graph.inputs[j] == g2.inputs[j]);
        }
    }
}

proof fn lemma_bin_latch_layout(data: Seq<u8>, s: BinState, ti: nat, tl: nat, k: nat)
    requires
        bin_layout(s, ti, tl, ti, k, 0),
        bin_latch_step(data, ti, s, k) is Ok,
    ensures
        bin_layout(bin_latch_step(data, ti, s, k)->Ok_0, ti, tl, ti, k + 1, 0),
{
    let s2 = bin_latch_step(data, ti, s, k)->Ok_0;
    let g = s.b.graph;
    let g2 = s2.b.graph;
    let key = latch_lit(ti, k as int);
    assert(key == 2 * (ti + k + 1));
    assert forall|j: int| 0 <= j < ti implies {
        &&& #[trigger] input_lit(j) == 2 * (j + 1)
        &&& s2.map.contains_key(input_lit(j))
        &&& s2.map[input_lit(j)] == g2.inputs[j]
    } by {
        assert(input_lit(j) == 2 * (j + 1));
        assert(g.inputs[j] == g2.inputs[j]);
    }
    assert forall|j: int| 0 <= j < k + 1 implies {
        &&& #[trigger] latch_lit(ti, j) == 2 * (ti + j + 1)
        &&& s2.map.contains_key(latch_lit(ti, j))
        &&& s2.map[latch_lit(ti, j)] == g2.latches[j]
    } by {
        if j < k {
            assert(latch_lit(ti, j) == 2 * (ti + j + 1));
            assert(g.latches[j] == g2.latches[j]);
        }
    }
    assert forall|j: int| 0 <= j < k + 1 implies {
        &&& #[trigger] g2.latches[j] == NodeId::spec_from_index(ti + j)
        &&& s2.latch_inputs[j].0 == g2.latches[j]
    } by {
        if j < k {
            assert(g.latches[j] == g2.latches[j]);
            assert(s.latch_inputs[j] == s2.latch_inputs[j]);
        }
    }
}

proof fn lemma_bin_and_layout(data: Seq<u8>, pre_optimize: bool, s: BinState, ti: nat, tl: nat, k: nat)
    requires
        bin_layout(s, ti, tl, ti, tl, k),
        bin_and_step(data, ti + tl, pre_optimize, s, k) is Ok,
    ensures
        bin_layout(bin_and_step(data, ti + tl, pre_optimize, s, k)->Ok_0, ti, tl, ti, tl, k + 1),
{
    let s2 = bin_and_step(data, ti + tl, pre_optimize, s, k)->Ok_0;
    let g = s.b.graph;
    let g2 = s2.b.graph;
    let key = and_lit(ti + tl, k as int);
    assert(key == 2 * (ti + tl + k + 1));
    assert(g2.inputs == g.inputs && g2.latches == g.latches && g2.outputs == g.outputs);
    assert(g2.nodes.len() >= g.nodes.len());
    assert forall|j: int| 0 <= j < ti implies {
        &&& #[trigger] input_lit(j) == 2 * (j + 1)
        &&& s2.map.contains_key(input_lit(j))
        &&& s2.map[input_lit(j)] == g2.inputs[j]
    } by {
        assert(input_lit(j) == 2 * (j + 1));
    }
    assert forall|j: int| 0 <= j < tl implies {
        &&& #[trigger] latch_lit(ti, j) == 2 * (ti + j + 1)
        &&& s2.map.contains_key(latch_lit(ti, j))
        &&& s2.map[latch_lit(ti, j)] == g2.latches[j]
    } by {
        assert(latch_lit(ti, j) == 2 * (ti + j + 1));
    }
    assert forall|j: int| 0 <= j < tl implies {
        &&& #[trigger] g2.latches[j] == NodeId::spec_from_index(ti + j)
        &&& s2.latch_inputs[j].0 == g2.latches[j]
    } by {
        assert(g.latches[j] == g2.latches[j]);
    }
    assert forall|j: int| 0 <= j < k + 1 implies {
        &&& #[trigger] and_lit(ti + tl, j) == 2 * (ti + tl + j + 1)
        &&& s2.map.contains_key(and_lit(ti + tl, j))
    } by {
        if j < k {
            assert(and_lit(ti + tl, j) == 2 * (ti + tl + j + 1));
        }
    }
}

/// The binary parser's state after the AND gates.
pub open spec fn bin_ands(data: Seq<u8>, pos: int, h: AigerHeader, pre_optimize: bool) -> Result<BinState, AigerError> {
    match bin_front(data, pos, h) {
        Err(e) => Err(e),
        Ok(s3) => repeat_indexed(
            bin_and_stepper(data, (h.num_inputs + h.num_latches) as nat, pre_optimize),
            s3,
            0,
            h.num_and_gates as nat,
        ),
    }
}

proof fn lemma_bin_front_layout(data: Seq<u8>, pos: int, h: AigerHeader)
    requires
        bin_front(data, pos, h) is Ok,
    ensures
        bin_layout(bin_front(data, pos, h)->Ok_0, h.num_inputs as nat, h.num_latches as nat, h.num_inputs as nat, h.num_latches as nat, 0),
        bin_front(data, pos, h)->Ok_0.output_lits.len() == h.num_outputs,
{
    let ti = h.num_inputs as nat;
    let tl = h.num_latches as nat;
    let s0 = BinState {
        pos,
        b: BuilderView { graph: GraphView::empty(), hash: Map::empty() },
        map: map![0usize => NodeId::from_val(0), 1usize => NodeId::from_val(1)],
        latch_inputs: seq![],
        output_lits: seq![],
    };
    assert(bin_layout(s0, ti, tl, 0, 0, 0));
    assert(s0.output_lits.len() == 0);
    let inv1 = |s: BinState, k: nat| bin_layout(s, ti, tl, k, 0, 0) && s.output_lits.len() == 0;
    assert forall|s: BinState, k: nat| inv1(s, k) && (#[trigger] bin_input_stepper()(s, k)) is Ok implies inv1(
        bin_input_stepper()(s, k)->Ok_0,
        k + 1,
    ) by {
        lemma_bin_input_layout(s, ti, tl, k);
    }
    lemma_repeat_indexed_count(bin_input_stepper(), inv1, s0, 0, ti);
    let s1 = repeat_indexed(bin_input_stepper(), s0, 0, ti)->Ok_0;
    let ls = bin_latch_stepper(data, ti);
    let inv2 = |s: BinState, k: nat| bin_layout(s, ti, tl, ti, k, 0) && s.output_lits.len() == 0;
    assert forall|s: BinState, k: nat| inv2(s, k) && (#[trigger] ls(s, k)) is Ok implies inv2(ls(s, k)->Ok_0, k + 1) by {
        lemma_bin_latch_layout(data, s, ti, tl, k);
    }
    lemma_repeat_indexed_count(ls, inv2, s1, 0, tl);
    let s2 = repeat_indexed(ls, s1, 0, tl)->Ok_0;
    let os = bin_output_stepper(data);
    let inv3 = |s: BinState, k: nat| bin_layout(s, ti, tl, ti, tl, 0) && s.output_lits.len() == k;
    assert forall|s: BinState, k: nat| inv3(s, k) && (#[trigger] os(s, k)) is Ok implies inv3(os(s, k)->Ok_0, k + 1) by {
        let s2 = os(s, k)->Ok_0;
        assert forall|j: int| 0 <= j < ti implies {
            &&& #[trigger] input_lit(j) == 2 * (j + 1)
            &&& s2.map.contains_key(input_lit(j))
            &&& s2.map[input_lit(j)] == s2.b.graph.inputs[j]
        } by {
            assert(input_lit(j) == 2 * (j + 1));
        }
        assert forall|j: int| 0 <= j < tl implies {
            &&& #[trigger] latch_lit(ti, j) == 2 * (ti + j + 1)
            &&& s2.map.contains_key(latch_lit(ti, j))
            &&& s2.map[latch_lit(ti, j)] == s2.b.graph.latches[j]
        } by {
            assert(latch_lit(ti, j) == 2 * (ti + j + 1));
        }
        assert forall|j: int| 0 <= j < tl implies {
            &&& #[trigger] s2.b.graph.latches[j] == NodeId::spec_from_index(ti + j)
            &&& s2.latch_inputs[j].0 == s2.b.graph.latches[j]
        } by {
            assert(s.b.graph.latches[j] == s2.b.graph.latches[j]);
        }
    }
    assert(inv3(s2, 0));
    lemma_repeat_indexed_count(os, inv3, s2, 0, h.num_outputs as nat);
}

proof fn lemma_bin_ands_layout(data: Seq<u8>, pos: int, h: AigerHeader, pre_optimize: bool)
    requires
        bin_ands(data, pos, h, pre_optimize) is Ok,
    ensures
        bin_front(data, pos, h) is Ok,
        bin_layout(
            bin_ands(data, pos, h, pre_optimize)->Ok_0,
            h.num_inputs as nat,
            h.num_latches as nat,
            h.num_inputs as nat,
            h.num_latches as nat,
            h.num_and_gates as nat,
        ),
        bin_ands(data, pos, h, pre_optimize)->Ok_0.output_lits.len() == h.num_outputs,
{
    let ti = h.num_inputs as nat;
    let tl = h.num_latches as nat;
    lemma_bin_front_layout(data, pos, h);
    let s3 = bin_front(data, pos, h)->Ok_0;
    let st = bin_and_stepper(data, ti + tl, pre_optimize);
    let o = h.num_outputs;
    let inv = |s: BinState, k: nat| bin_layout(s, ti, tl, ti, tl, k) && s.output_lits.len() == o;
    assert forall|s: BinState, k: nat| inv(s, k) && (#[trigger] st(s, k)) is Ok implies inv(st(s, k)->Ok_0, k + 1) by {
        lemma_bin_and_layout(data, pre_optimize, s, ti, tl, k);
    }
    assert((h.num_inputs + h.num_latches) as nat == ti + tl);
    lemma_repeat_indexed_count(st, inv, s3, 0, h.num_and_gates as nat);
}

/// In a laid-out map, every literal up to the last AND gate's resolves;
/// the inputs' and latches' literals resolve to them, and the odd partners
/// to their inversions.
proof fn lemma_layout_lookup(s: BinState, ti: nat, tl: nat, na: nat, lit: usize)
    requires
        bin_layout(s, ti, tl, ti, tl, na),
    ensures
        lit <= 2 * (ti + tl + na) + 1 ==> spec_lookup(s.map, lit) is Some,
        forall|k: int| 0 <= k < ti && (lit == 2 * (k + 1) || lit == 2 * (k + 1) + 1) ==> spec_lookup(s.map, lit)
            == Some(if lit % 2 == 0 { s.b.graph.inputs[k] } else { s.b.graph.inputs[k].spec_invert() }),
        forall|k: int| 0 <= k < tl && (lit == 2 * (ti + k + 1) || lit == 2 * (ti + k + 1) + 1) ==> spec_lookup(s.map, lit)
            == Some(if lit % 2 == 0 { s.b.graph.latches[k] } else { s.b.graph.latches[k].spec_invert() }),
{
    let r = (lit - lit % 2) as usize;
    if lit <= 2 * (ti + tl + na) + 1 {
        if r == 0 {
        } else {
            let v: int = r / 2 - 1;
            if v < ti {
                assert(input_lit(v) == 2 * (v + 1));
            } else if v < ti + tl {
                assert(latch_lit(ti, v - ti) == 2 * (ti + (v - ti) + 1));
            } else {
                assert(and_lit(ti + tl, v - ti - tl) == 2 * (ti + tl + (v - ti - tl) + 1));
            }
        }
    }
    assert forall|k: int| 0 <= k < ti && (lit == 2 * (k + 1) || lit == 2 * (k + 1) + 1) implies spec_lookup(s.map, lit)
        == Some(if lit % 2 == 0 { s.b.graph.inputs[k] } else { s.b.graph.inputs[k].spec_invert() }) by {
        assert(input_lit(k) == 2 * (k + 1));
        if lit % 2 == 1 {
            assert(!s.map.contains_key(lit));
        }
    }
    assert forall|k: int| 0 <= k < tl && (lit == 2 * (ti + k + 1) || lit == 2 * (ti + k + 1) + 1) implies spec_lookup(s.map, lit)
        == Some(if lit % 2 == 0 { s.b.graph.latches[k] } else { s.b.graph.latches[k].spec_invert() }) by {
        assert(latch_lit(ti, k) == 2 * (ti + k + 1));
        if lit % 2 == 1 {
            assert(!s.map.contains_key(lit));
        }
    }
}

/// Some pending latch of `li` is the node at graph index `i`.
pub open spec fn touches(li: Seq<(NodeId, usize)>, i: int) -> bool {
    exists|k: int| 0 <= k < li.len() && (#[trigger] li[k]).0.spec_index() == i
}

proof fn lemma_bin_resolve_latches_nodes(b: BuilderView, m: Map<usize, NodeId>, li: Seq<(NodeId, usize)>)
    requires
        forall|k: int| 0 <= k < li.len() ==> (#[trigger] spec_lookup(m, li[k].1)) is Some,
        forall|k: int| 0 <= k < li.len() ==> 0 <= (#[trigger] li[k]).0.spec_index() < b.graph.nodes.len(),
        forall|i: int, j: int|
            0 <= i < j < li.len() ==> (#[trigger] li[i]).0.spec_index() != (#[trigger] li[j]).0.spec_index(),
    ensures
        bin_resolve_latches(b, m, li) is Ok,
        ({
            let r = bin_resolve_latches(b, m, li)->Ok_0;
            &&& r.graph.nodes.len() == b.graph.nodes.len()
            &&& r.graph.inputs == b.graph.inputs
            &&& r.graph.latches == b.graph.latches
            &&& r.graph.outputs == b.graph.outputs
            &&& forall|k: int|
                0 <= k < li.len() ==> r.graph.nodes[(#[trigger] li[k]).0.spec_index()].spec_right()
                    == spec_lookup(m, li[k].1)->Some_0
            &&& forall|i: int| 0 <= i < b.graph.nodes.len() && !touches(li, i) ==> #[trigger] r.graph.nodes[i] == b.graph.nodes[i]
        }),
    decreases li.len(),
{
    if li.len() == 0 {
        return;
    }
    assert(spec_lookup(m, li[0].1) is Some);
    let x = spec_lookup(m, li[0].1)->Some_0;
    let id = li[0].0;
    assert(0 <= li[0].0.spec_index() < b.graph.nodes.len());
    let b1 = spec_set_latch_input(b, id, x);
    let rest = li.drop_first();
    assert forall|k: int| 0 <= k < rest.len() implies (#[trigger] spec_lookup(m, rest[k].1)) is Some by {
        assert(rest[k] == li[k + 1]);
        assert(spec_lookup(m, li[k + 1].1) is Some);
    }
    assert forall|k: int| 0 <= k < rest.len() implies 0 <= (#[trigger] rest[k]).0.spec_index() < b1.graph.nodes.len() by {
        assert(rest[k] == li[k + 1]);
    }
    assert forall|i: int, j: int| 0 <= i < j < rest.len() implies (#[trigger] rest[i]).0.spec_index()
        != (#[trigger] rest[j]).0.spec_index() by {
        assert(rest[i] == li[i + 1]);
        assert(rest[j] == li[j + 1]);
    }
    lemma_bin_resolve_latches_nodes(b1, m, rest);
    let r = bin_resolve_latches(b, m, li)->Ok_0;
    assert(r == bin_resolve_latches(b1, m, rest)->Ok_0);
    let i0 = id.spec_index();
    assert(!touches(rest, i0)) by {
        if touches(rest, i0) {
            let k = choose|k: int| 0 <= k < rest.len() && (#[trigger] rest[k]).0.spec_index() == i0;
            assert(rest[k] == li[k + 1]);
            assert(li[0].0.spec_index() != li[k + 1].0.spec_index());
        }
    }
    assert(b1.graph.nodes[i0] == AigNode::from_parts(b.graph.node_of(id).spec_left(), x));
    assert forall|k: int| 0 <= k < li.len() implies r.graph.nodes[(#[trigger] li[k]).0.spec_index()].spec_right()
        == spec_lookup(m, li[k].1)->Some_0 by {
        if k > 0 {
            assert(rest[k - 1] == li[k]);
        } else {
            assert(r.graph.nodes[i0] == b1.graph.nodes[i0]);
            AigNode::lemma_from_parts(b.graph.node_of(id).spec_left(), x);
            assert(b1.graph.nodes[i0].spec_right() == x);
        }
    }
    assert forall|i: int| 0 <= i < b.graph.nodes.len() && !touches(li, i) implies #[trigger] r.graph.nodes[i]
        == b.graph.nodes[i] by {
        assert(i != i0) by {
            if i == i0 {
                assert(li[0].0.spec_index() == i);
            }
        }
        assert(!touches(rest, i)) by {
            if touches(rest, i) {
                let k = choose|k: int| 0 <= k < rest.len() && (#[trigger] rest[k]).0.spec_index() == i;
                assert(rest[k] == li[k + 1]);
                assert(li[k + 1].0.spec_index() == i);
            }
        }
    }
}

proof fn lemma_bin_resolve_outputs_list(b: BuilderView, m: Map<usize, NodeId>, ol: Seq<usize>)
    requires
        forall|k: int| 0 <= k < ol.len() ==> (#[trigger] spec_lookup(m, ol[k])) is Some,
    ensures
        bin_resolve_outputs(b, m, ol) is Ok,
        ({
            let r = bin_resolve_outputs(b, m, ol)->Ok_0;
            &&& r.graph.nodes == b.graph.nodes
            &&& r.graph.inputs == b.graph.inputs
            &&& r.graph.latches == b.graph.latches
            &&& r.graph.outputs == b.graph.outputs + Seq::new(ol.len(), |k: int| spec_lookup(m, ol[k])->Some_0)
        }),
    decreases ol.len(),
{
    if ol.len() == 0 {
        assert(b.graph.outputs + Seq::new(0, |k: int| spec_lookup(m, ol[k])->Some_0) =~= b.graph.outputs);
        return;
    }
    assert(spec_lookup(m, ol[0]) is Some);
    let x = spec_lookup(m, ol[0])->Some_0;
    let b1 = spec_add_output(b, x);
    let rest = ol.drop_first();
    assert forall|k: int| 0 <= k < rest.len() implies (#[trigger] spec_lookup(m, rest[k])) is Some by {
        assert(rest[k] == ol[k + 1]);
        assert(spec_lookup(m, ol[k + 1]) is Some);
    }
    lemma_bin_resolve_outputs_list(b1, m, rest);
    let r = bin_resolve_outputs(b, m, ol)->Ok_0;
    assert(r == bin_resolve_outputs(b1, m, rest)->Ok_0);
    assert(r.graph.outputs =~= b.graph.outputs + Seq::new(ol.len(), |k: int| spec_lookup(m, ol[k])->Some_0)) by {
        assert forall|k: int| 0 <= k < ol.len() implies r.graph.outputs[b.graph.outputs.len() + k] == spec_lookup(
            m,
            ol[k],
        )->Some_0 by {
            if k > 0 {
                assert(rest[k - 1] == ol[k]);
                assert(r.graph.outputs[b1.graph.outputs.len() + (k - 1)] == spec_lookup(m, rest[k - 1])->Some_0);
            }
        }
    }
}

/// Law (literal layout of binary AIGER): after the AND gates of a binary
/// body, literal `2 * (k + 1)` names the `k`-th input and `2 * (I + k + 1)`
/// the `k`-th latch (the odd literal just above each names its inversion),
/// and every literal up to `2 * (I + L + A) + 1` names a signal.  So when
/// every latch and output literal is at most `2 * (I + L + A) + 1`, the body
/// is read successfully, each latch's next state is the signal of its
/// literal and each output is the signal of its literal.
pub proof fn lemma_binary_literals(data: Seq<u8>, pos: int, h: AigerHeader, pre_optimize: bool)
    requires
        bin_ands(data, pos, h, pre_optimize) is Ok,
    ensures
        ({
            let s = bin_ands(data, pos, h, pre_optimize)->Ok_0;
            let g = s.b.graph;
            let ni = h.num_inputs as int;
            let nl = h.num_latches as int;
            let top = 2 * (ni + nl + h.num_and_gates) + 1;
            &&& g.inputs.len() == ni
            &&& g.latches.len() == nl
            &&& s.latch_inputs.len() == nl
            &&& s.output_lits.len() == h.num_outputs
            &&& forall|k: int|
                0 <= k < ni ==> {
                    &&& spec_lookup(s.map, (2 * (k + 1)) as usize) == Some(#[trigger] g.inputs[k])
                    &&& spec_lookup(s.map, (2 * (k + 1) + 1) as usize) == Some(g.inputs[k].spec_invert())
                }
            &&& forall|k: int|
                0 <= k < nl ==> {
                    &&& spec_lookup(s.map, (2 * (ni + k + 1)) as usize) == Some(#[trigger] g.latches[k])
                    &&& spec_lookup(s.map, (2 * (ni + k + 1) + 1) as usize) == Some(g.latches[k].spec_invert())
                }
            &&& forall|lit: usize| lit <= top ==> (#[trigger] spec_lookup(s.map, lit)) is Some
            &&& ((forall|k: int| 0 <= k < nl ==> (#[trigger] s.latch_inputs[k]).1 <= top) && (forall|k: int|
                0 <= k < h.num_outputs ==> #[trigger] s.output_lits[k] <= top)) ==> {
                &&& spec_parse_binary(data, pos, h, pre_optimize) is Ok
                &&& ({
                    let gf = spec_parse_binary(data, pos, h, pre_optimize)->Ok_0.0;
                    &&& gf.inputs == g.inputs
                    &&& gf.latches == g.latches
                    &&& gf.outputs.len() == h.num_outputs
                    &&& forall|k: int|
                        0 <= k < nl ==> gf.node_of(#[trigger] gf.latches[k]).spec_right() == spec_lookup(
                            s.map,
                            s.latch_inputs[k].1,
                        )->Some_0
                    &&& forall|k: int|
                        0 <= k < h.num_outputs ==> #[trigger] gf.outputs[k] == spec_lookup(
                            s.map,
                            s.output_lits[k],
                        )->Some_0
                })
            }
        }),
{
    let ti = h.num_inputs as nat;
    let tl = h.num_latches as nat;
    let na = h.num_and_gates as nat;
    lemma_bin_ands_layout(data, pos, h, pre_optimize);
    let s = bin_ands(data, pos, h, pre_optimize)->Ok_0;
    let g = s.b.graph;
    let top = 2 * (ti + tl + na) + 1;
    assert forall|k: int| 0 <= k < ti implies {
        &&& spec_lookup(s.map, (2 * (k + 1)) as usize) == Some(#[trigger] g.inputs[k])
        &&& spec_lookup(s.map, (2 * (k + 1) + 1) as usize) == Some(g.inputs[k].spec_invert())
    } by {
        assert(input_lit(k) == 2 * (k + 1));
        lemma_layout_lookup(s, ti, tl, na, (2 * (k + 1)) as usize);
        lemma_layout_lookup(s, ti, tl, na, (2 * (k + 1) + 1) as usize);
    }
    assert forall|k: int| 0 <= k < tl implies {
        &&& spec_lookup(s.map, (2 * (ti + k + 1)) as usize) == Some(#[trigger] g.latches[k])
        &&& spec_lookup(s.map, (2 * (ti + k + 1) + 1) as usize) == Some(g.latches[k].spec_invert())
    } by {
        assert(latch_lit(ti, k) == 2 * (ti + k + 1));
        lemma_layout_lookup(s, ti, tl, na, (2 * (ti + k + 1)) as usize);
        lemma_layout_lookup(s, ti, tl, na, (2 * (ti + k + 1) + 1) as usize);
    }
    assert forall|lit: usize| lit <= top implies (#[trigger] spec_lookup(s.map, lit)) is Some by {
        lemma_layout_lookup(s, ti, tl, na, lit);
    }
    if (forall|k: int| 0 <= k < tl ==> (#[trigger] s.latch_inputs[k]).1 <= top) && (forall|k: int|
        0 <= k < h.num_outputs ==> #[trigger] s.output_lits[k] <= top) {
        let li = s.latch_inputs;
        assert forall|k: int| 0 <= k < li.len() implies (#[trigger] spec_lookup(s.map, li[k].1)) is Some by {
            assert(li[k].1 <= top);
            lemma_layout_lookup(s, ti, tl, na, li[k].1);
        }
        assert forall|k: int| 0 <= k < li.len() implies 0 <= (#[trigger] li[k]).0.spec_index() < s.b.graph.nodes.len() by {
            assert(g.latches[k] == NodeId::spec_from_index(ti + k));
            lemma_index_roundtrip(ti + k, g.latches[k]);
        }
        assert forall|i: int, j: int| 0 <= i < j < li.len() implies (#[trigger] li[i]).0.spec_index()
            != (#[trigger] li[j]).0.spec_index() by {
            assert(g.latches[i] == NodeId::spec_from_index(ti + i));
            assert(g.latches[j] == NodeId::spec_from_index(ti + j));
            lemma_index_roundtrip(ti + i, g.latches[i]);
            lemma_index_roundtrip(ti + j, g.latches[j]);
        }
        lemma_bin_resolve_latches_nodes(s.b, s.map, li);
        let b5 = bin_resolve_latches(s.b, s.map, li)->Ok_0;
        let ol = s.output_lits;
        assert forall|k: int| 0 <= k < ol.len() implies (#[trigger] spec_lookup(s.map, ol[k])) is Some by {
            assert(ol[k] <= top);
            lemma_layout_lookup(s, ti, tl, na, ol[k]);
        }
        lemma_bin_resolve_outputs_list(b5, s.map, ol);
        assert(spec_parse_binary(data, pos, h, pre_optimize) is Ok);
        let gf = spec_parse_binary(data, pos, h, pre_optimize)->Ok_0.0;
        assert(gf == bin_resolve_outputs(b5, s.map, ol)->Ok_0.graph);
        assert forall|k: int| 0 <= k < tl implies gf.node_of(#[trigger] gf.latches[k]).spec_right() == spec_lookup(
            s.map,
            s.latch_inputs[k].1,
        )->Some_0 by {
            assert(li[k].0 == g.latches[k]);
            assert(gf.latches[k] == g.latches[k]);
            assert(gf.nodes == b5.graph.nodes);
        }
        assert forall|k: int| 0 <= k < h.num_outputs implies #[trigger] gf.outputs[k] == spec_lookup(
            s.map,
            s.output_lits[k],
        )->Some_0 by {
            assert(gf.outputs[0 + k] == (b5.graph.outputs + Seq::new(ol.len(), |j: int| spec_lookup(s.map, ol[j])->Some_0))[k]);
        }
    }
}

} // verus!
