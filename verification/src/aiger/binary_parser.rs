use super::{
    lemma_lookup_valid, lookup_aiger_literal, map_valid, read_one_number_line, repeat_indexed,
    spec_lookup, spec_number_line, AigerError, AigerHeader,
};
use crate::graph::{
    and_optimized_pushes, lemma_set_latch_input_wf, spec_add_and_raw, spec_add_input,
    spec_add_latch, spec_add_output, spec_and_optimized, spec_set_latch_input, AigBuilder,
    AigGraph, BuilderView, GraphView, NodeId, MAX_GRAPH_INDEX,
};
use crate::text::ByteReader;
use std::collections::HashMap;
use vstd::arithmetic::power2::{lemma2_to64, lemma_pow2_adds, lemma_pow2_pos, lemma_pow2_strictly_increases, pow2};
use vstd::bits::{lemma_usize_pow2_no_overflow, lemma_usize_shl_is_mul};
use vstd::prelude::*;

verus! {

broadcast use crate::graph::group_aig;

/// The little-endian base-128 number at `pos` (seven bits per byte, the high
/// bit set on every byte but the last), accumulated into `value` from bit
/// `shift` on, and the position after it.
pub open spec fn spec_read_delta(data: Seq<u8>, pos: int, value: usize, shift: u32) -> Result<
    (usize, int),
    AigerError,
>
    decreases data.len() - pos,
{
    if pos < 0 || pos >= data.len() {
        Err(AigerError::UnexpectedEof)
    } else if shift >= usize::BITS {
        Err(AigerError::InvalidDelta)
    } else {
        let byte = data[pos];
        let chunk = (byte & 0x7f) as usize;
        let v = value | (chunk << shift);
        if byte & 0x80 == 0 {
            Ok((v, pos + 1))
        } else {
            spec_read_delta(data, pos + 1, v, (shift + 7) as u32)
        }
    }
}

/// Decodes one binary-encoded delta of an AND gate.
#[verifier::loop_isolation(false)]
fn read_delta(reader: &mut ByteReader) -> (r: Result<usize, AigerError>)
    ensures
        final(reader)@.data == old(reader)@.data,
        match spec_read_delta(old(reader)@.data, old(reader)@.pos, 0, 0) {
            Ok((v, p)) => r == Ok::<usize, AigerError>(v) && final(reader)@.pos == p,
            Err(e) => r == Err::<usize, AigerError>(e),
        },
{
    let ghost data = reader@.data;
    let ghost pos0 = reader@.pos;
    let mut value: usize = 0usize;
    let mut shift: u32 = 0u32;
    loop
        invariant
            reader@.data == data,
            shift < usize::BITS + 7,
            spec_read_delta(data, pos0, 0, 0) == spec_read_delta(data, reader@.pos, value, shift),
        decreases data.len() - reader@.pos,
    {
        let byte = match reader.read_byte() {
            Some(b) => b,
            None => return Err(AigerError::UnexpectedEof),
        };
        if shift >= usize::BITS {
            return Err(AigerError::InvalidDelta);
        }
        // removes the top bit and keeps only the lower 7 bits
        let chunk: usize = (byte & 0b01111111) as usize;
        // inserts that 7-bit chunk into the correct place in the final number
        value = value | (chunk << shift);
        if (byte & 0b10000000) == 0 {
            return Ok(value);
        }
        shift = shift + 7;
    }
}

} // verus!

verus! {

/// The state of the binary parser between items.
pub struct BinState {
    pub pos: int,
    pub b: BuilderView,
    pub map: Map<usize, NodeId>,
    pub latch_inputs: Seq<(NodeId, usize)>,
    pub output_lits: Seq<usize>,
}

/// The `k`-th input: literal `2 * (k + 1)`, read from no line.
pub open spec fn bin_input_step(s: BinState, k: nat) -> Result<BinState, AigerError> {
    if 2 * (k + 1) > usize::MAX {
        Err(AigerError::LiteralOverflow)
    } else if s.b.graph.nodes.len() > MAX_GRAPH_INDEX {
        Err(AigerError::TooManyNodes)
    } else {
        let (b2, id) = spec_add_input(s.b);
        Ok(BinState { b: b2, map: s.map.insert((2 * (k + 1)) as usize, id), ..s })
    }
}

/// The `k`-th latch: literal `2 * (num_inputs + k + 1)`; its line holds the
/// literal of its next state, resolved after the AND gates.
pub open spec fn bin_latch_step(data: Seq<u8>, num_inputs: nat, s: BinState, k: nat) -> Result<BinState, AigerError> {
    match spec_number_line(data, s.pos) {
        Err(e) => Err(e),
        Ok((input_lit, p)) => if 2 * (num_inputs + k + 1) > usize::MAX {
            Err(AigerError::LiteralOverflow)
        } else if s.b.graph.nodes.len() > MAX_GRAPH_INDEX {
            Err(AigerError::TooManyNodes)
        } else {
            let (b2, id) = spec_add_latch(s.b, NodeId::from_val(0));
            Ok(
                BinState {
                    pos: p,
                    b: b2,
                    map: s.map.insert((2 * (num_inputs + k + 1)) as usize, id),
                    latch_inputs: s.latch_inputs.push((id, input_lit)),
                    ..s
                },
            )
        },
    }
}

/// One output line: its literal is resolved after the AND gates.
pub open spec fn bin_output_step(data: Seq<u8>, s: BinState, k: nat) -> Result<BinState, AigerError> {
    match spec_number_line(data, s.pos) {
        Err(e) => Err(e),
        Ok((lit, p)) => Ok(BinState { pos: p, output_lits: s.output_lits.push(lit), ..s }),
    }
}

/// The `k`-th AND gate: literal `lhs = 2 * (base + k + 1)`, children
/// `lhs - delta0` and `lhs - delta0 - delta1` for the two deltas read.
pub open spec fn bin_and_step(data: Seq<u8>, base: nat, pre_optimize: bool, s: BinState, k: nat) -> Result<
    BinState,
    AigerError,
> {
    let lhs = 2 * (base + k + 1);
    if lhs > usize::MAX {
        Err(AigerError::LiteralOverflow)
    } else {
        match spec_read_delta(data, s.pos, 0, 0) {
            Err(e) => Err(e),
            Ok((delta0, p1)) => match spec_read_delta(data, p1, 0, 0) {
                Err(e) => Err(e),
                Ok((delta1, p2)) => if delta0 > lhs || delta1 > lhs - delta0 {
                    Err(AigerError::InvalidDelta)
                } else {
                    let rhs0 = (lhs - delta0) as usize;
                    let rhs1 = (rhs0 - delta1) as usize;
                    match (spec_lookup(s.map, rhs0), spec_lookup(s.map, rhs1)) {
                        (Some(left), Some(right)) => {
                            let (b2, id) = if pre_optimize {
                                spec_and_optimized(s.b, left, right)
                            } else {
                                spec_add_and_raw(s.b, left, right)
                            };
                            if s.b.graph.nodes.len() > MAX_GRAPH_INDEX && (!pre_optimize
                                || and_optimized_pushes(s.b, left, right)) {
                                Err(AigerError::TooManyNodes)
                            } else {
                                Ok(BinState { pos: p2, b: b2, map: s.map.insert(lhs as usize, id), ..s })
                            }
                        },
                        _ => Err(AigerError::UndefinedLiteral),
                    }
                },
            },
        }
    }
}

pub open spec fn bin_input_stepper() -> spec_fn(BinState, nat) -> Result<BinState, AigerError> {
    |s: BinState, k: nat| bin_input_step(s, k)
}

pub open spec fn bin_latch_stepper(data: Seq<u8>, num_inputs: nat) -> spec_fn(BinState, nat) -> Result<
    BinState,
    AigerError,
> {
    |s: BinState, k: nat| bin_latch_step(data, num_inputs, s, k)
}

pub open spec fn bin_output_stepper(data: Seq<u8>) -> spec_fn(BinState, nat) -> Result<BinState, AigerError> {
    |s: BinState, k: nat| bin_output_step(data, s, k)
}

pub open spec fn bin_and_stepper(data: Seq<u8>, base: nat, pre_optimize: bool) -> spec_fn(BinState, nat) -> Result<
    BinState,
    AigerError,
> {
    |s: BinState, k: nat| bin_and_step(data, base, pre_optimize, s, k)
}

/// Sets the next state of each recorded latch to its literal's signal.
pub open spec fn bin_resolve_latches(b: BuilderView, m: Map<usize, NodeId>, li: Seq<(NodeId, usize)>) -> Result<
    BuilderView,
    AigerError,
>
    decreases li.len(),
{
    if li.len() == 0 {
        Ok(b)
    } else {
        match spec_lookup(m, li[0].1) {
            None => Err(AigerError::UndefinedLiteral),
            Some(x) => bin_resolve_latches(spec_set_latch_input(b, li[0].0, x), m, li.drop_first()),
        }
    }
}

/// Adds the signal of each recorded output literal as an output.
pub open spec fn bin_resolve_outputs(b: BuilderView, m: Map<usize, NodeId>, ol: Seq<usize>) -> Result<
    BuilderView,
    AigerError,
>
    decreases ol.len(),
{
    if ol.len() == 0 {
        Ok(b)
    } else {
        match spec_lookup(m, ol[0]) {
            None => Err(AigerError::UndefinedLiteral),
            Some(x) => bin_resolve_outputs(spec_add_output(b, x), m, ol.drop_first()),
        }
    }
}

/// The graph that the binary body at `pos` describes for header `h`, and the
/// position after the AND gates.
pub open spec fn spec_parse_binary(data: Seq<u8>, pos: int, h: AigerHeader, pre_optimize: bool) -> Result<
    (GraphView, int),
    AigerError,
> {
    let s0 = BinState {
        pos,
        b: BuilderView { graph: GraphView::empty(), hash: Map::empty() },
        map: map![0usize => NodeId::from_val(0), 1usize => NodeId::from_val(1)],
        latch_inputs: seq![],
        output_lits: seq![],
    };
    match repeat_indexed(bin_input_stepper(), s0, 0, h.num_inputs as nat) {
        Err(e) => Err(e),
        Ok(s1) => match repeat_indexed(bin_latch_stepper(data, h.num_inputs as nat), s1, 0, h.num_latches as nat) {
            Err(e) => Err(e),
            Ok(s2) => match repeat_indexed(bin_output_stepper(data), s2, 0, h.num_outputs as nat) {
                Err(e) => Err(e),
                Ok(s3) => match repeat_indexed(
                    bin_and_stepper(data, (h.num_inputs + h.num_latches) as nat, pre_optimize),
                    s3,
                    0,
                    h.num_and_gates as nat,
                ) {
                    Err(e) => Err(e),
                    Ok(s4) => match bin_resolve_latches(s4.b, s4.map, s4.latch_inputs) {
                        Err(e) => Err(e),
                        Ok(b5) => match bin_resolve_outputs(b5, s4.map, s4.output_lits) {
                            Err(e) => Err(e),
                            Ok(b6) => Ok((b6.graph, s4.pos)),
                        },
                    },
                },
            },
        },
    }
}

/// The parser's own invariant.
pub open spec fn bin_inv(s: BinState) -> bool {
    &&& s.b.wf()
    &&& map_valid(s.map, s.b.graph)
    &&& forall|k: int|
        0 <= k < s.latch_inputs.len() ==> {
            &&& s.b.graph.has_node(#[trigger] s.latch_inputs[k].0)
            &&& s.b.graph.node_of(s.latch_inputs[k].0).is_latch()
        }
}

pub open spec fn mk_bin_state(
    pos: int,
    b: BuilderView,
    map: Map<usize, NodeId>,
    latch_inputs: Seq<(NodeId, usize)>,
    output_lits: Seq<usize>,
) -> BinState {
    BinState { pos, b, map, latch_inputs, output_lits }
}

pub open spec fn bin_phase_post(r: Result<(), AigerError>, expected: Result<BinState, AigerError>, after: BinState) -> bool {
    match expected {
        Ok(s) => r is Ok && after == s && bin_inv(after),
        Err(e) => r == Err::<(), AigerError>(e),
    }
}

proof fn lemma_map_valid_insert(m: Map<usize, NodeId>, g: GraphView, g2: GraphView, k: usize, id: NodeId)
    requires
        map_valid(m, g),
        g.nodes.len() <= g2.nodes.len(),
        g2.valid_signal(id),
    ensures
        map_valid(m.insert(k, id), g2),
{
}

proof fn lemma_latches_kept(g: GraphView, g2: GraphView, li: Seq<(NodeId, usize)>)
    requires
        g.nodes.len() <= g2.nodes.len(),
        forall|j: int| 0 <= j < g.nodes.len() ==> g2.nodes[j] == g.nodes[j],
        forall|k: int|
            0 <= k < li.len() ==> {
                &&& g.has_node(#[trigger] li[k].0)
                &&& g.node_of(li[k].0).is_latch()
            },
    ensures
        forall|k: int|
            0 <= k < li.len() ==> {
                &&& g2.has_node(#[trigger] li[k].0)
                &&& g2.node_of(li[k].0).is_latch()
            },
{
    assert forall|k: int| 0 <= k < li.len() implies {
        &&& g2.has_node(#[trigger] li[k].0)
        &&& g2.node_of(li[k].0).is_latch()
    } by {
        assert(g2.nodes[li[k].0.spec_index()] == g.nodes[li[k].0.spec_index()]);
    }
}

#[verifier::loop_isolation(false)]
fn bin_parse_inputs(
    n: usize,
    graph: &mut AigBuilder,
    lit_to_node: &mut HashMap<usize, NodeId>,
    latch_inputs: &Vec<(NodeId, usize)>,
    output_lits: &Vec<usize>,
    reader: &ByteReader,
) -> (r: Result<(), AigerError>)
    requires
        bin_inv(mk_bin_state(reader@.pos, old(graph)@, old(lit_to_node)@, latch_inputs@, output_lits@)),
    ensures
        bin_phase_post(
            r,
            repeat_indexed(
                bin_input_stepper(),
                mk_bin_state(reader@.pos, old(graph)@, old(lit_to_node)@, latch_inputs@, output_lits@),
                0,
                n as nat,
            ),
            mk_bin_state(reader@.pos, final(graph)@, final(lit_to_node)@, latch_inputs@, output_lits@),
        ),
{
    broadcast use vstd::std_specs::hash::group_hash_axioms;

    let ghost s0 = mk_bin_state(reader@.pos, graph@, lit_to_node@, latch_inputs@, output_lits@);
    let mut input_index: usize = 0;
    while input_index < n
        invariant
            input_index <= n,
            repeat_indexed(bin_input_stepper(), s0, 0, n as nat) == repeat_indexed(
                bin_input_stepper(),
                mk_bin_state(reader@.pos, graph@, lit_to_node@, latch_inputs@, output_lits@),
                input_index as nat,
                n as nat,
            ),
            bin_inv(mk_bin_state(reader@.pos, graph@, lit_to_node@, latch_inputs@, output_lits@)),
        decreases n - input_index,
    {
        if input_index >= usize::MAX / 2 {
            return Err(AigerError::LiteralOverflow);
        }
        let input_lit: usize = 2 * (input_index + 1);
        if graph.num_nodes() > MAX_GRAPH_INDEX {
            return Err(AigerError::TooManyNodes);
        }
        let ghost gb = graph@;
        let ghost mb = lit_to_node@;
        let input_id = graph.add_input();
        lit_to_node.insert(input_lit, input_id);
        proof {
            lemma_map_valid_insert(mb, gb.graph, graph@.graph, input_lit, input_id);
            lemma_latches_kept(gb.graph, graph@.graph, latch_inputs@);
        }
        input_index = input_index + 1;
    }
    Ok(())
}

} // verus!

verus! {

#[verifier::loop_isolation(false)]
fn bin_parse_latches(
    n: usize,
    num_inputs: usize,
    reader: &mut ByteReader,
    graph: &mut AigBuilder,
    lit_to_node: &mut HashMap<usize, NodeId>,
    latch_inputs: &mut Vec<(NodeId, usize)>,
    output_lits: &Vec<usize>,
) -> (r: Result<(), AigerError>)
    requires
        bin_inv(mk_bin_state(old(reader)@.pos, old(graph)@, old(lit_to_node)@, old(latch_inputs)@, output_lits@)),
    ensures
        final(reader)@.data == old(reader)@.data,
        bin_phase_post(
            r,
            repeat_indexed(
                bin_latch_stepper(old(reader)@.data, num_inputs as nat),
                mk_bin_state(old(reader)@.pos, old(graph)@, old(lit_to_node)@, old(latch_inputs)@, output_lits@),
                0,
                n as nat,
            ),
            mk_bin_state(final(reader)@.pos, final(graph)@, final(lit_to_node)@, final(latch_inputs)@, output_lits@),
        ),
{
    broadcast use vstd::std_specs::hash::group_hash_axioms;

    let ghost data = reader@.data;
    let ghost s0 = mk_bin_state(reader@.pos, graph@, lit_to_node@, latch_inputs@, output_lits@);
    let mut latch_index: usize = 0;
    while latch_index < n
        invariant
            reader@.data == data,
            latch_index <= n,
            repeat_indexed(bin_latch_stepper(data, num_inputs as nat), s0, 0, n as nat) == repeat_indexed(
                bin_latch_stepper(data, num_inputs as nat),
                mk_bin_state(reader@.pos, graph@, lit_to_node@, latch_inputs@, output_lits@),
                latch_index as nat,
                n as nat,
            ),
            bin_inv(mk_bin_state(reader@.pos, graph@, lit_to_node@, latch_inputs@, output_lits@)),
        decreases n - latch_index,
    {
        let latch_input_lit = match read_one_number_line(reader) {
            Ok(v) => v,
            Err(e) => return Err(e),
        };
        if num_inputs >= usize::MAX - latch_index || num_inputs + latch_index + 1 > usize::MAX / 2 {
            return Err(AigerError::LiteralOverflow);
        }
        let latch_lit: usize = 2 * (num_inputs + latch_index + 1);
        if graph.num_nodes() > MAX_GRAPH_INDEX {
            return Err(AigerError::TooManyNodes);
        }
        let ghost gb = graph@;
        let ghost mb = lit_to_node@;
        let ghost old_li = latch_inputs@;
        let latch_id = graph.add_latch(NodeId::false_id());
        lit_to_node.insert(latch_lit, latch_id);
        latch_inputs.push((latch_id, latch_input_lit));
        proof {
            lemma_map_valid_insert(mb, gb.graph, graph@.graph, latch_lit, latch_id);
            lemma_latches_kept(gb.graph, graph@.graph, old_li);
            assert forall|k: int| 0 <= k < latch_inputs@.len() implies {
                &&& graph@.graph.has_node(#[trigger] latch_inputs@[k].0)
                &&& graph@.graph.node_of(latch_inputs@[k].0).is_latch()
            } by {
                if k < old_li.len() {
                    assert(latch_inputs@[k] == old_li[k]);
                }
            }
        }
        latch_index = latch_index + 1;
    }
    Ok(())
}

#[verifier::loop_isolation(false)]
fn bin_parse_outputs(
    n: usize,
    reader: &mut ByteReader,
    graph: &AigBuilder,
    lit_to_node: &HashMap<usize, NodeId>,
    latch_inputs: &Vec<(NodeId, usize)>,
    output_lits: &mut Vec<usize>,
) -> (r: Result<(), AigerError>)
    requires
        bin_inv(mk_bin_state(old(reader)@.pos, graph@, lit_to_node@, latch_inputs@, old(output_lits)@)),
    ensures
        final(reader)@.data == old(reader)@.data,
        bin_phase_post(
            r,
            repeat_indexed(
                bin_output_stepper(old(reader)@.data),
                mk_bin_state(old(reader)@.pos, graph@, lit_to_node@, latch_inputs@, old(output_lits)@),
                0,
                n as nat,
            ),
            mk_bin_state(final(reader)@.pos, graph@, lit_to_node@, latch_inputs@, final(output_lits)@),
        ),
{
    let ghost data = reader@.data;
    let ghost s0 = mk_bin_state(reader@.pos, graph@, lit_to_node@, latch_inputs@, output_lits@);
    let mut i: usize = 0;
    while i < n
        invariant
            reader@.data == data,
            i <= n,
            repeat_indexed(bin_output_stepper(data), s0, 0, n as nat) == repeat_indexed(
                bin_output_stepper(data),
                mk_bin_state(reader@.pos, graph@, lit_to_node@, latch_inputs@, output_lits@),
                i as nat,
                n as nat,
            ),
            bin_inv(mk_bin_state(reader@.pos, graph@, lit_to_node@, latch_inputs@, output_lits@)),
        decreases n - i,
    {
        let output_lit = match read_one_number_line(reader) {
            Ok(v) => v,
            Err(e) => return Err(e),
        };
        output_lits.push(output_lit);
        i = i + 1;
    }
    Ok(())
}

#[verifier::loop_isolation(false)]
fn bin_parse_ands(
    n: usize,
    base: usize,
    pre_optimize: bool,
    reader: &mut ByteReader,
    graph: &mut AigBuilder,
    lit_to_node: &mut HashMap<usize, NodeId>,
    latch_inputs: &Vec<(NodeId, usize)>,
    output_lits: &Vec<usize>,
) -> (r: Result<(), AigerError>)
    requires
        bin_inv(mk_bin_state(old(reader)@.pos, old(graph)@, old(lit_to_node)@, latch_inputs@, output_lits@)),
    ensures
        final(reader)@.data == old(reader)@.data,
        bin_phase_post(
            r,
            repeat_indexed(
                bin_and_stepper(old(reader)@.data, base as nat, pre_optimize),
                mk_bin_state(old(reader)@.pos, old(graph)@, old(lit_to_node)@, latch_inputs@, output_lits@),
                0,
                n as nat,
            ),
            mk_bin_state(final(reader)@.pos, final(graph)@, final(lit_to_node)@, latch_inputs@, output_lits@),
        ),
{
    broadcast use vstd::std_specs::hash::group_hash_axioms;

    let ghost data = reader@.data;
    let ghost s0 = mk_bin_state(reader@.pos, graph@, lit_to_node@, latch_inputs@, output_lits@);
    let mut and_index: usize = 0;
    while and_index < n
        invariant
            reader@.data == data,
            and_index <= n,
            repeat_indexed(bin_and_stepper(data, base as nat, pre_optimize), s0, 0, n as nat) == repeat_indexed(
                bin_and_stepper(data, base as nat, pre_optimize),
                mk_bin_state(reader@.pos, graph@, lit_to_node@, latch_inputs@, output_lits@),
                and_index as nat,
                n as nat,
            ),
            bin_inv(mk_bin_state(reader@.pos, graph@, lit_to_node@, latch_inputs@, output_lits@)),
        decreases n - and_index,
    {
        if base >= usize::MAX - and_index || base + and_index + 1 > usize::MAX / 2 {
            return Err(AigerError::LiteralOverflow);
        }
        let lhs_lit: usize = 2 * (base + and_index + 1);
        let delta0 = match read_delta(reader) {
            Ok(d) => d,
            Err(e) => return Err(e),
        };
        let delta1 = match read_delta(reader) {
            Ok(d) => d,
            Err(e) => return Err(e),
        };
        if delta0 > lhs_lit || delta1 > lhs_lit - delta0 {
            return Err(AigerError::InvalidDelta);
        }
        let rhs0_lit: usize = lhs_lit - delta0;
        let rhs1_lit: usize = rhs0_lit - delta1;
        let left = match lookup_aiger_literal(rhs0_lit, lit_to_node) {
            Ok(id) => id,
            Err(e) => return Err(e),
        };
        let right = match lookup_aiger_literal(rhs1_lit, lit_to_node) {
            Ok(id) => id,
            Err(e) => return Err(e),
        };
        proof {
            lemma_lookup_valid(lit_to_node@, rhs0_lit, graph@.graph);
            lemma_lookup_valid(lit_to_node@, rhs1_lit, graph@.graph);
        }
        let ghost gb = graph@;
        let ghost mb = lit_to_node@;
        let and_id = if pre_optimize {
            if graph.num_nodes() > MAX_GRAPH_INDEX && graph.and_would_push(left, right) {
                return Err(AigerError::TooManyNodes);
            }
            graph.add_and_optimized(left, right)
        } else {
            if graph.num_nodes() > MAX_GRAPH_INDEX {
                return Err(AigerError::TooManyNodes);
            }
            graph.add_and_raw(left, right)
        };
        lit_to_node.insert(lhs_lit, and_id);
        proof {
            lemma_map_valid_insert(mb, gb.graph, graph@.graph, lhs_lit, and_id);
            lemma_latches_kept(gb.graph, graph@.graph, latch_inputs@);
        }
        and_index = and_index + 1;
    }
    Ok(())
}

#[verifier::loop_isolation(false)]
fn bin_resolve_latch_inputs(
    graph: &mut AigBuilder,
    lit_to_node: &HashMap<usize, NodeId>,
    latch_inputs: &Vec<(NodeId, usize)>,
) -> (r: Result<(), AigerError>)
    requires
        old(graph)@.wf(),
        map_valid(lit_to_node@, old(graph)@.graph),
        forall|j: int|
            0 <= j < latch_inputs@.len() ==> {
                &&& old(graph)@.graph.has_node(#[trigger] latch_inputs@[j].0)
                &&& old(graph)@.graph.node_of(latch_inputs@[j].0).is_latch()
            },
    ensures
        match bin_resolve_latches(old(graph)@, lit_to_node@, latch_inputs@) {
            Ok(b) => r is Ok && final(graph)@ == b && b.wf() && map_valid(lit_to_node@, b.graph),
            Err(e) => r == Err::<(), AigerError>(e),
        },
{
    let ghost b0 = graph@;
    let mut k: usize = 0;
    assert(latch_inputs@.skip(0) =~= latch_inputs@);
    while k < latch_inputs.len()
        invariant
            k <= latch_inputs@.len(),
            bin_resolve_latches(b0, lit_to_node@, latch_inputs@) == bin_resolve_latches(
                graph@,
                lit_to_node@,
                latch_inputs@.skip(k as int),
            ),
            graph@.wf(),
            graph@.graph.nodes.len() == b0.graph.nodes.len(),
            map_valid(lit_to_node@, graph@.graph),
            forall|j: int|
                k <= j < latch_inputs@.len() ==> {
                    &&& graph@.graph.has_node(#[trigger] latch_inputs@[j].0)
                    &&& graph@.graph.node_of(latch_inputs@[j].0).is_latch()
                },
        decreases latch_inputs@.len() - k,
    {
        let (latch_id, latch_input_lit) = latch_inputs[k];
        assert(latch_inputs@.skip(k as int)[0] == latch_inputs@[k as int]);
        let latch_input_id = match lookup_aiger_literal(latch_input_lit, lit_to_node) {
            Ok(id) => id,
            Err(e) => return Err(e),
        };
        proof {
            lemma_lookup_valid(lit_to_node@, latch_input_lit, graph@.graph);
            lemma_set_latch_input_wf(graph@, latch_id, latch_input_id);
        }
        let ghost gb = graph@;
        graph.node(latch_id).set_latch_input(latch_input_id);
        proof {
            assert(graph@.graph.nodes =~= spec_set_latch_input(gb, latch_id, latch_input_id).graph.nodes);
            assert(graph@ == spec_set_latch_input(gb, latch_id, latch_input_id));
            assert(latch_inputs@.skip(k as int).drop_first() =~= latch_inputs@.skip(k + 1));
            assert forall|j: int| k + 1 <= j < latch_inputs@.len() implies {
                &&& graph@.graph.has_node(#[trigger] latch_inputs@[j].0)
                &&& graph@.graph.node_of(latch_inputs@[j].0).is_latch()
            } by {
                if latch_inputs@[j].0.spec_index() != latch_id.spec_index() {
                    assert(graph@.graph.nodes[latch_inputs@[j].0.spec_index()]
                        == gb.graph.nodes[latch_inputs@[j].0.spec_index()]);
                }
            }
        }
        k = k + 1;
    }
    Ok(())
}

#[verifier::loop_isolation(false)]
fn bin_resolve_output_lits(
    graph: &mut AigBuilder,
    lit_to_node: &HashMap<usize, NodeId>,
    output_lits: &Vec<usize>,
) -> (r: Result<(), AigerError>)
    requires
        old(graph)@.wf(),
        map_valid(lit_to_node@, old(graph)@.graph),
    ensures
        match bin_resolve_outputs(old(graph)@, lit_to_node@, output_lits@) {
            Ok(b) => r is Ok && final(graph)@ == b && b.wf(),
            Err(e) => r == Err::<(), AigerError>(e),
        },
{
    let ghost b0 = graph@;
    let mut k: usize = 0;
    assert(output_lits@.skip(0) =~= output_lits@);
    while k < output_lits.len()
        invariant
            k <= output_lits@.len(),
            bin_resolve_outputs(b0, lit_to_node@, output_lits@) == bin_resolve_outputs(
                graph@,
                lit_to_node@,
                output_lits@.skip(k as int),
            ),
            graph@.wf(),
            map_valid(lit_to_node@, graph@.graph),
        decreases output_lits@.len() - k,
    {
        let output_lit = output_lits[k];
        assert(output_lits@.skip(k as int)[0] == output_lits@[k as int]);
        let output_id = match lookup_aiger_literal(output_lit, lit_to_node) {
            Ok(id) => id,
            Err(e) => return Err(e),
        };
        proof {
            lemma_lookup_valid(lit_to_node@, output_lit, graph@.graph);
        }
        graph.add_output(output_id);
        assert(output_lits@.skip(k as int).drop_first() =~= output_lits@.skip(k + 1));
        k = k + 1;
    }
    Ok(())
}

/// Builds the graph that the binary AIGER body after `header` describes:
/// inputs, latches and AND gates get consecutive literals, latch and output
/// lines hold literals, and each AND gate is two delta-encoded numbers.
pub fn parse_binary_aiger_into_graph(
    header: AigerHeader,
    reader: &mut ByteReader,
    pre_optimize: bool,
) -> (r: Result<AigGraph, AigerError>)
    ensures
        final(reader)@.data == old(reader)@.data,
        match spec_parse_binary(old(reader)@.data, old(reader)@.pos, header, pre_optimize) {
            Ok((g, p)) => (r matches Ok(graph) && graph@ == g) && final(reader)@.pos == p,
            Err(e) => r == Err::<AigGraph, AigerError>(e),
        },
        r matches Ok(graph) ==> graph@.wf(),
{
    broadcast use vstd::std_specs::hash::group_hash_axioms;

    let mut graph = AigBuilder::new();
    let mut lit_to_node: HashMap<usize, NodeId> = HashMap::new();
    lit_to_node.insert(0, NodeId::false_id());
    lit_to_node.insert(1, NodeId::true_id());
    let mut latch_inputs: Vec<(NodeId, usize)> = Vec::new();
    let mut output_lits: Vec<usize> = Vec::new();
    assert(lit_to_node@ =~= map![0usize => NodeId::from_val(0), 1usize => NodeId::from_val(1)]);
    assert(graph@ == BuilderView { graph: GraphView::empty(), hash: Map::empty() });
    assert(latch_inputs@ =~= seq![]);
    assert(output_lits@ =~= seq![]);
    bin_parse_inputs(header.num_inputs, &mut graph, &mut lit_to_node, &latch_inputs, &output_lits, reader)?;
    // like in ascii parser, save latches for later
    bin_parse_latches(
        header.num_latches,
        header.num_inputs,
        reader,
        &mut graph,
        &mut lit_to_node,
        &mut latch_inputs,
        &output_lits,
    )?;
    // same idea for outputs
    bin_parse_outputs(header.num_outputs, reader, &graph, &lit_to_node, &latch_inputs, &mut output_lits)?;
    let base = if header.num_inputs <= usize::MAX - header.num_latches {
        header.num_inputs + header.num_latches
    } else if header.num_and_gates > 0 {
        return Err(AigerError::LiteralOverflow);
    } else {
        0
    };
    bin_parse_ands(
        header.num_and_gates,
        base,
        pre_optimize,
        reader,
        &mut graph,
        &mut lit_to_node,
        &latch_inputs,
        &output_lits,
    )?;
    // resolve latches
    bin_resolve_latch_inputs(&mut graph, &lit_to_node, &latch_inputs)?;
    // resolve outputs
    bin_resolve_output_lits(&mut graph, &lit_to_node, &output_lits)?;
    Ok(graph.build())
}

} // verus!

verus! {

/// The little-endian base-128 encoding of `x`: seven bits per byte, the high
/// bit set on every byte but the last.
pub open spec fn delta_encoding(x: nat) -> Seq<u8>
    decreases x,
{
    if x < 128 {
        seq![x as u8]
    } else {
        seq![(x % 128 + 128) as u8] + delta_encoding(x / 128)
    }
}

/// Adding a chunk above the bits of `value` by shifting and or-ing it in.
proof fn lemma_or_shifted(value: usize, c: usize, s: u32)
    requires
        s < usize::BITS,
        value < pow2(s as nat),
        c * pow2(s as nat) <= usize::MAX,
    ensures
        value | (c << s) == value + c * pow2(s as nat),
{
    let s2 = s as usize;
    lemma_usize_pow2_no_overflow(s as nat);
    lemma_usize_shl_is_mul(c, s2);
    lemma_usize_shl_is_mul(1, s2);
    assert(c << s == c << s2) by (bit_vector)
        requires
            s < 64,
            s2 == s as usize,
    ;
    assert(value | (c << s2) == value + (c << s2)) by (bit_vector)
        requires
            s2 < usize::BITS,
            value < (1usize << s2),
    ;
}

proof fn lemma_usize_bits_bound(n: nat)
    requires
        pow2(n) <= usize::MAX,
    ensures
        n < usize::BITS,
{
    lemma2_to64();
    if n >= usize::BITS {
        if n > usize::BITS {
            lemma_pow2_strictly_increases(usize::BITS as nat, n);
        }
    }
}

proof fn lemma_read_delta_encoding(data: Seq<u8>, pos: int, value: usize, shift: u32, y: nat)
    requires
        0 <= pos,
        pos + delta_encoding(y).len() <= data.len(),
        data.subrange(pos, pos + delta_encoding(y).len()) == delta_encoding(y),
        shift < usize::BITS,
        value < pow2(shift as nat),
        value + y * pow2(shift as nat) <= usize::MAX,
    ensures
        spec_read_delta(data, pos, value, shift) == Ok::<(usize, int), AigerError>(
            ((value + y * pow2(shift as nat)) as usize, pos + delta_encoding(y).len()),
        ),
    decreases y,
{
    let enc = delta_encoding(y);
    let p = pow2(shift as nat);
    lemma_pow2_pos(shift as nat);
    assert(data[pos] == enc[0]) by {
        assert(data.subrange(pos, pos + enc.len())[0] == data[pos]);
    }
    let byte = data[pos];
    let chunk = (byte & 0x7f) as usize;
    if y < 128 {
        let b = y as u8;
        assert(byte == b);
        assert(b & 0x7f == b && b & 0x80 == 0) by (bit_vector)
            requires
                b < 128,
        ;
        assert(chunk * p <= y * p) by (nonlinear_arith)
            requires
                chunk <= y,
        ;
        lemma_or_shifted(value, chunk, shift);
    } else {
        let r = y % 128;
        let b = (r + 128) as u8;
        assert(byte == b);
        assert(b & 0x7f == (b - 128) as u8 && b & 0x80 != 0) by (bit_vector)
            requires
                128 <= b,
        ;
        assert(chunk == r);
        let q = y / 128;
        assert(y == 128 * q + r);
        assert(q > 0);
        lemma_pow2_adds(shift as nat, 7);
        lemma2_to64();
        let p7 = pow2((shift + 7) as nat);
        assert(p7 == p * 128);
        assert(r * p + q * p7 == y * p) by (nonlinear_arith)
            requires
                p7 == p * 128,
                y == 128 * q + r,
        ;
        assert(p7 <= y * p) by (nonlinear_arith)
            requires
                p7 == p * 128,
                y >= 128,
        ;
        lemma_usize_bits_bound((shift + 7) as nat);
        assert(r * p <= y * p) by (nonlinear_arith)
            requires
                r <= y,
        ;
        lemma_or_shifted(value, chunk, shift);
        let v = (value + r * p) as usize;
        assert(v < p7) by (nonlinear_arith)
            requires
                value < p,
                r < 128,
                p7 == p * 128,
                v == value + r * p,
        ;
        let rest = delta_encoding(q);
        assert(enc == seq![b] + rest);
        assert(data.subrange(pos + 1, pos + 1 + rest.len()) =~= rest) by {
            assert forall|i: int| 0 <= i < rest.len() implies data.subrange(pos + 1, pos + 1 + rest.len())[i]
                == rest[i] by {
                assert(data.subrange(pos, pos + enc.len())[i + 1] == enc[i + 1]);
            }
        }
        lemma_read_delta_encoding(data, pos + 1, v, (shift + 7) as u32, q);
    }
}

/// Law: decoding the encoding of a number followed by any bytes gives the
/// number back and stops just after its encoding.
pub proof fn lemma_read_delta_roundtrip(x: usize, rest: Seq<u8>)
    ensures
        spec_read_delta(delta_encoding(x as nat) + rest, 0, 0, 0) == Ok::<(usize, int), AigerError>(
            (x, delta_encoding(x as nat).len() as int),
        ),
{
    let enc = delta_encoding(x as nat);
    let data = enc + rest;
    assert(data.subrange(0, enc.len() as int) =~= enc);
    lemma2_to64();
    lemma_read_delta_encoding(data, 0, 0, 0, x as nat);
}

/// Law: data whose bytes all have the high bit set, and too few of them to
/// shift past the width of a `usize`, ends inside the number.
pub proof fn lemma_read_delta_eof(data: Seq<u8>, pos: int, value: usize, shift: u32)
    requires
        0 <= pos,
        forall|i: int| pos <= i < data.len() ==> #[trigger] data[i] & 0x80 != 0,
        pos >= data.len() || shift + 7 * (data.len() - pos - 1) < usize::BITS,
    ensures
        spec_read_delta(data, pos, value, shift) == Err::<(usize, int), AigerError>(AigerError::UnexpectedEof),
    decreases data.len() - pos,
{
    if pos < data.len() {
        let byte = data[pos];
        let chunk = (byte & 0x7f) as usize;
        lemma_read_delta_eof(data, pos + 1, value | (chunk << shift), (shift + 7) as u32);
    }
}

} // verus!
