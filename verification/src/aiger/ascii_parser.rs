use super::{
    lits_add, lits_get, lits_initial, read_one_number_line, repeat, spec_number_line, AigerError,
    AigerHeader, Literals,
};
use crate::graph::{
    and_optimized_pushes, lemma_set_latch_input_wf, spec_add_and_raw, spec_add_input,
    spec_add_latch, spec_add_output, spec_and_optimized, spec_set_latch_input, AigBuilder,
    AigGraph, BuilderView, GraphView, NodeId, MAX_GRAPH_INDEX,
};
use crate::text::{
    line_at, line_end, parse_usize, parse_usize_bytes, split_whitespace, tokens, ByteReader,
};
use vstd::prelude::*;

verus! {

broadcast use crate::graph::group_aig;

/// The two numbers of the latch line at `pos` (further fields are ignored).
pub open spec fn spec_latch_line(data: Seq<u8>, pos: int) -> Result<((usize, usize), int), AigerError> {
    let line = line_at(data, pos);
    let parts = tokens(line);
    if !vstd::utf8::valid_utf8(line) {
        Err(AigerError::InvalidUtf8)
    } else if line.len() == 0 {
        Err(AigerError::EmptyLine)
    } else if parts.len() == 0 {
        Err(AigerError::LatchLineFormat)
    } else if parse_usize(parts[0]) is None {
        Err(AigerError::InvalidNumber)
    } else if parts.len() < 2 {
        Err(AigerError::LatchLineFormat)
    } else if parse_usize(parts[1]) is None {
        Err(AigerError::InvalidNumber)
    } else {
        Ok(((parse_usize(parts[0]).unwrap(), parse_usize(parts[1]).unwrap()), line_end(data, pos)))
    }
}

/// The three numbers of the AND line at `pos`.
pub open spec fn spec_and_line(data: Seq<u8>, pos: int) -> Result<((usize, usize, usize), int), AigerError> {
    let line = line_at(data, pos);
    let parts = tokens(line);
    if !vstd::utf8::valid_utf8(line) {
        Err(AigerError::InvalidUtf8)
    } else if line.len() == 0 {
        Err(AigerError::EmptyLine)
    } else if parts.len() != 3 {
        Err(AigerError::AndLineFormat)
    } else if parse_usize(parts[0]) is None || parse_usize(parts[1]) is None || parse_usize(parts[2]) is None {
        Err(AigerError::InvalidNumber)
    } else {
        Ok(
            (
                (
                    parse_usize(parts[0]).unwrap(),
                    parse_usize(parts[1]).unwrap(),
                    parse_usize(parts[2]).unwrap(),
                ),
                line_end(data, pos),
            ),
        )
    }
}

/// The state of the ASCII parser between lines.
pub struct AsciiState {
    pub pos: int,
    pub b: BuilderView,
    pub lits: Seq<Option<NodeId>>,
    pub latch_inputs: Seq<(NodeId, usize)>,
    pub output_lits: Seq<usize>,
}

/// One input line: a new input named by the line's literal.
pub open spec fn input_step(data: Seq<u8>, s: AsciiState) -> Result<AsciiState, AigerError> {
    match spec_number_line(data, s.pos) {
        Err(e) => Err(e),
        Ok((lit, p)) => if s.b.graph.nodes.len() > MAX_GRAPH_INDEX {
            Err(AigerError::TooManyNodes)
        } else if lit == usize::MAX {
            Err(AigerError::LiteralOverflow)
        } else {
            let (b2, id) = spec_add_input(s.b);
            Ok(AsciiState { pos: p, b: b2, lits: lits_add(s.lits, lit, id), ..s })
        },
    }
}

/// One latch line: a new latch (next state false for now) named by the
/// first literal; the second literal is resolved after the AND gates.
pub open spec fn latch_step(data: Seq<u8>, s: AsciiState) -> Result<AsciiState, AigerError> {
    match spec_latch_line(data, s.pos) {
        Err(e) => Err(e),
        Ok(((lit, input_lit), p)) => if s.b.graph.nodes.len() > MAX_GRAPH_INDEX {
            Err(AigerError::TooManyNodes)
        } else if lit == usize::MAX {
            Err(AigerError::LiteralOverflow)
        } else {
            let (b2, id) = spec_add_latch(s.b, NodeId::from_val(0));
            Ok(
                AsciiState {
                    pos: p,
                    b: b2,
                    lits: lits_add(s.lits, lit, id),
                    latch_inputs: s.latch_inputs.push((id, input_lit)),
                    ..s
                },
            )
        },
    }
}

/// One output line: its literal is resolved after the AND gates.
pub open spec fn output_step(data: Seq<u8>, s: AsciiState) -> Result<AsciiState, AigerError> {
    match spec_number_line(data, s.pos) {
        Err(e) => Err(e),
        Ok((lit, p)) => Ok(AsciiState { pos: p, output_lits: s.output_lits.push(lit), ..s }),
    }
}

/// One AND line: the AND of the two right-hand literals, named by the left
/// one.
pub open spec fn and_step(data: Seq<u8>, s: AsciiState, pre_optimize: bool) -> Result<AsciiState, AigerError> {
    match spec_and_line(data, s.pos) {
        Err(e) => Err(e),
        Ok(((lhs, rhs0, rhs1), p)) => match (lits_get(s.lits, rhs0), lits_get(s.lits, rhs1)) {
            (Some(left), Some(right)) => {
                let (b2, id) = if pre_optimize {
                    spec_and_optimized(s.b, left, right)
                } else {
                    spec_add_and_raw(s.b, left, right)
                };
                if s.b.graph.nodes.len() > MAX_GRAPH_INDEX && (!pre_optimize || and_optimized_pushes(
                    s.b,
                    left,
                    right,
                )) {
                    Err(AigerError::TooManyNodes)
                } else if lhs == usize::MAX {
                    Err(AigerError::LiteralOverflow)
                } else {
                    Ok(AsciiState { pos: p, b: b2, lits: lits_add(s.lits, lhs, id), ..s })
                }
            },
            _ => Err(AigerError::UnknownLiteral),
        },
    }
}

pub open spec fn input_stepper(data: Seq<u8>) -> spec_fn(AsciiState) -> Result<AsciiState, AigerError> {
    |s: AsciiState| input_step(data, s)
}

pub open spec fn latch_stepper(data: Seq<u8>) -> spec_fn(AsciiState) -> Result<AsciiState, AigerError> {
    |s: AsciiState| latch_step(data, s)
}

pub open spec fn output_stepper(data: Seq<u8>) -> spec_fn(AsciiState) -> Result<AsciiState, AigerError> {
    |s: AsciiState| output_step(data, s)
}

pub open spec fn and_stepper(data: Seq<u8>, pre_optimize: bool) -> spec_fn(AsciiState) -> Result<
    AsciiState,
    AigerError,
> {
    |s: AsciiState| and_step(data, s, pre_optimize)
}

/// Sets the next state of each recorded latch to its literal's signal.
pub open spec fn resolve_latches(
    b: BuilderView,
    lits: Seq<Option<NodeId>>,
    li: Seq<(NodeId, usize)>,
) -> Result<BuilderView, AigerError>
    decreases li.len(),
{
    if li.len() == 0 {
        Ok(b)
    } else {
        match lits_get(lits, li[0].1) {
            None => Err(AigerError::UnknownLiteral),
            Some(x) => resolve_latches(spec_set_latch_input(b, li[0].0, x), lits, li.drop_first()),
        }
    }
}

/// Adds the signal of each recorded output literal as an output.
pub open spec fn resolve_outputs(b: BuilderView, lits: Seq<Option<NodeId>>, ol: Seq<usize>) -> Result<
    BuilderView,
    AigerError,
>
    decreases ol.len(),
{
    if ol.len() == 0 {
        Ok(b)
    } else {
        match lits_get(lits, ol[0]) {
            None => Err(AigerError::UnknownLiteral),
            Some(x) => resolve_outputs(spec_add_output(b, x), lits, ol.drop_first()),
        }
    }
}

/// The graph that the ASCII body at `pos` describes for header `h`, and the
/// position after the AND lines.
pub open spec fn spec_parse_ascii(data: Seq<u8>, pos: int, h: AigerHeader, pre_optimize: bool) -> Result<
    (GraphView, int),
    AigerError,
> {
    let s0 = AsciiState {
        pos,
        b: BuilderView { graph: GraphView::empty(), hash: Map::empty() },
        lits: lits_initial(),
        latch_inputs: seq![],
        output_lits: seq![],
    };
    match repeat(input_stepper(data), s0, h.num_inputs as nat) {
        Err(e) => Err(e),
        Ok(s1) => match repeat(latch_stepper(data), s1, h.num_latches as nat) {
            Err(e) => Err(e),
            Ok(s2) => match repeat(output_stepper(data), s2, h.num_outputs as nat) {
                Err(e) => Err(e),
                Ok(s3) => match repeat(and_stepper(data, pre_optimize), s3, h.num_and_gates as nat) {
                    Err(e) => Err(e),
                    Ok(s4) => match resolve_latches(s4.b, s4.lits, s4.latch_inputs) {
                        Err(e) => Err(e),
                        Ok(b5) => match resolve_outputs(b5, s4.lits, s4.output_lits) {
                            Err(e) => Err(e),
                            Ok(b6) => Ok((b6.graph, s4.pos)),
                        },
                    },
                },
            },
        },
    }
}

} // verus!

verus! {

/// The parser's own invariant: the builder is well formed, every literal
/// names a stored signal, and every pending latch is a latch node.
pub open spec fn state_inv(s: AsciiState) -> bool {
    &&& s.b.wf()
    &&& super::lits_valid(s.lits, s.b.graph)
    &&& forall|k: int|
        0 <= k < s.latch_inputs.len() ==> {
            &&& s.b.graph.has_node(#[trigger] s.latch_inputs[k].0)
            &&& s.b.graph.node_of(s.latch_inputs[k].0).is_latch()
        }
}

fn read_latch_line(reader: &mut ByteReader) -> (r: Result<(usize, usize), AigerError>)
    ensures
        final(reader)@.data == old(reader)@.data,
        final(reader)@.pos == line_end(old(reader)@.data, old(reader)@.pos),
        match spec_latch_line(old(reader)@.data, old(reader)@.pos) {
            Ok((v, p)) => r == Ok::<(usize, usize), AigerError>(v) && final(reader)@.pos == p,
            Err(e) => r == Err::<(usize, usize), AigerError>(e),
        },
{
    let line = super::read_text_line(reader)?;
    if line.len() == 0 {
        return Err(AigerError::EmptyLine);
    }
    let parts = split_whitespace(line.as_slice());
    assert(parts@.len() == tokens(line@).len());
    if parts.len() == 0 {
        return Err(AigerError::LatchLineFormat);
    }
    assert(parts@[0]@ == tokens(line@)[0]) by {
        assert(parts@.map_values(|t: Vec<u8>| t@)[0] == parts@[0]@);
    }
    let latch = match parse_usize_bytes(parts[0].as_slice()) {
        Some(n) => n,
        None => return Err(AigerError::InvalidNumber),
    };
    if parts.len() < 2 {
        return Err(AigerError::LatchLineFormat);
    }
    assert(parts@[1]@ == tokens(line@)[1]) by {
        assert(parts@.map_values(|t: Vec<u8>| t@)[1] == parts@[1]@);
    }
    let input = match parse_usize_bytes(parts[1].as_slice()) {
        Some(n) => n,
        None => return Err(AigerError::InvalidNumber),
    };
    Ok((latch, input))
}

fn read_and_line(reader: &mut ByteReader) -> (r: Result<(usize, usize, usize), AigerError>)
    ensures
        final(reader)@.data == old(reader)@.data,
        final(reader)@.pos == line_end(old(reader)@.data, old(reader)@.pos),
        match spec_and_line(old(reader)@.data, old(reader)@.pos) {
            Ok((v, p)) => r == Ok::<(usize, usize, usize), AigerError>(v) && final(reader)@.pos == p,
            Err(e) => r == Err::<(usize, usize, usize), AigerError>(e),
        },
{
    let line = super::read_text_line(reader)?;
    if line.len() == 0 {
        return Err(AigerError::EmptyLine);
    }
    let parts = split_whitespace(line.as_slice());
    assert(parts@.len() == tokens(line@).len());
    if parts.len() != 3 {
        return Err(AigerError::AndLineFormat);
    }
    assert forall|k: int| 0 <= k < 3 implies parts@[k]@ == tokens(line@)[k] by {
        assert(parts@.map_values(|t: Vec<u8>| t@)[k] == parts@[k]@);
    }
    let lhs = match parse_usize_bytes(parts[0].as_slice()) {
        Some(n) => n,
        None => return Err(AigerError::InvalidNumber),
    };
    let rhs0 = match parse_usize_bytes(parts[1].as_slice()) {
        Some(n) => n,
        None => return Err(AigerError::InvalidNumber),
    };
    let rhs1 = match parse_usize_bytes(parts[2].as_slice()) {
        Some(n) => n,
        None => return Err(AigerError::InvalidNumber),
    };
    Ok((lhs, rhs0, rhs1))
}

pub open spec fn mk_state(
    pos: int,
    b: BuilderView,
    lits: Seq<Option<NodeId>>,
    latch_inputs: Seq<(NodeId, usize)>,
    output_lits: Seq<usize>,
) -> AsciiState {
    AsciiState { pos, b, lits, latch_inputs, output_lits }
}

/// How a phase of the parser ends: as the specification's phase does.
pub open spec fn phase_post(r: Result<(), AigerError>, expected: Result<AsciiState, AigerError>, after: AsciiState) -> bool {
    match expected {
        Ok(s) => r is Ok && after == s && state_inv(after),
        Err(e) => r == Err::<(), AigerError>(e),
    }
}

#[verifier::loop_isolation(false)]
fn parse_inputs(
    n: usize,
    reader: &mut ByteReader,
    graph: &mut AigBuilder,
    literals: &mut Literals,
    latch_inputs: &Vec<(NodeId, usize)>,
    output_lits: &Vec<usize>,
) -> (r: Result<(), AigerError>)
    requires
        state_inv(mk_state(old(reader)@.pos, old(graph)@, old(literals)@, latch_inputs@, output_lits@)),
    ensures
        final(reader)@.data == old(reader)@.data,
        phase_post(
            r,
            repeat(
                input_stepper(old(reader)@.data),
                mk_state(old(reader)@.pos, old(graph)@, old(literals)@, latch_inputs@, output_lits@),
                n as nat,
            ),
            mk_state(final(reader)@.pos, final(graph)@, final(literals)@, latch_inputs@, output_lits@),
        ),
{
    let ghost data = reader@.data;
    let ghost s0 = mk_state(reader@.pos, graph@, literals@, latch_inputs@, output_lits@);
    let mut i: usize = 0;
    while i < n
        invariant
            reader@.data == data,
            i <= n,
            repeat(input_stepper(data), s0, n as nat) == repeat(
                input_stepper(data),
                mk_state(reader@.pos, graph@, literals@, latch_inputs@, output_lits@),
                (n - i) as nat,
            ),
            state_inv(mk_state(reader@.pos, graph@, literals@, latch_inputs@, output_lits@)),
        decreases n - i,
    {
        let input_lit = match read_one_number_line(reader) {
            Ok(v) => v,
            Err(e) => return Err(e),
        };
        if graph.num_nodes() > MAX_GRAPH_INDEX {
            return Err(AigerError::TooManyNodes);
        }
        if input_lit == usize::MAX {
            return Err(AigerError::LiteralOverflow);
        }
        let ghost gb = graph@;
        let input_id = graph.add_input();
        proof {
            super::lemma_lits_valid_extend(literals@, gb.graph, graph@.graph);
            super::lemma_lits_add_valid(literals@, input_lit, input_id, graph@.graph);
            let g2 = graph@.graph;
            assert forall|k: int| 0 <= k < latch_inputs@.len() implies {
                &&& g2.has_node(#[trigger] latch_inputs@[k].0)
                &&& g2.node_of(latch_inputs@[k].0).is_latch()
            } by {
                assert(g2.nodes[latch_inputs@[k].0.spec_index()] == gb.graph.nodes[latch_inputs@[k].0.spec_index()]);
            }
        }
        literals.add(input_lit, input_id);
        i = i + 1;
    }
    Ok(())
}

#[verifier::loop_isolation(false)]
fn parse_latches(
    n: usize,
    reader: &mut ByteReader,
    graph: &mut AigBuilder,
    literals: &mut Literals,
    latch_inputs: &mut Vec<(NodeId, usize)>,
    output_lits: &Vec<usize>,
) -> (r: Result<(), AigerError>)
    requires
        state_inv(mk_state(old(reader)@.pos, old(graph)@, old(literals)@, old(latch_inputs)@, output_lits@)),
    ensures
        final(reader)@.data == old(reader)@.data,
        phase_post(
            r,
            repeat(
                latch_stepper(old(reader)@.data),
                mk_state(old(reader)@.pos, old(graph)@, old(literals)@, old(latch_inputs)@, output_lits@),
                n as nat,
            ),
            mk_state(final(reader)@.pos, final(graph)@, final(literals)@, final(latch_inputs)@, output_lits@),
        ),
{
    let ghost data = reader@.data;
    let ghost s0 = mk_state(reader@.pos, graph@, literals@, latch_inputs@, output_lits@);
    let mut i: usize = 0;
    while i < n
        invariant
            reader@.data == data,
            i <= n,
            repeat(latch_stepper(data), s0, n as nat) == repeat(
                latch_stepper(data),
                mk_state(reader@.pos, graph@, literals@, latch_inputs@, output_lits@),
                (n - i) as nat,
            ),
            state_inv(mk_state(reader@.pos, graph@, literals@, latch_inputs@, output_lits@)),
        decreases n - i,
    {
        let (latch_lit, latch_input_lit) = match read_latch_line(reader) {
            Ok(v) => v,
            Err(e) => return Err(e),
        };
        if graph.num_nodes() > MAX_GRAPH_INDEX {
            return Err(AigerError::TooManyNodes);
        }
        if latch_lit == usize::MAX {
            return Err(AigerError::LiteralOverflow);
        }
        let ghost gb = graph@;
        let ghost old_li = latch_inputs@;
        let latch_id = graph.add_latch(NodeId::false_id());
        proof {
            super::lemma_lits_valid_extend(literals@, gb.graph, graph@.graph);
            super::lemma_lits_add_valid(literals@, latch_lit, latch_id, graph@.graph);
        }
        literals.add(latch_lit, latch_id);
        latch_inputs.push((latch_id, latch_input_lit));
        proof {
            let g2 = graph@.graph;
            assert forall|k: int| 0 <= k < latch_inputs@.len() implies {
                &&& g2.has_node(#[trigger] latch_inputs@[k].0)
                &&& g2.node_of(latch_inputs@[k].0).is_latch()
            } by {
                if k < old_li.len() {
                    assert(latch_inputs@[k] == old_li[k]);
                    assert(g2.nodes[latch_inputs@[k].0.spec_index()] == gb.graph.nodes[latch_inputs@[k].0.spec_index()]);
                }
            }
        }
        i = i + 1;
    }
    Ok(())
}

#[verifier::loop_isolation(false)]
fn parse_outputs(
    n: usize,
    reader: &mut ByteReader,
    graph: &AigBuilder,
    literals: &Literals,
    latch_inputs: &Vec<(NodeId, usize)>,
    output_lits: &mut Vec<usize>,
) -> (r: Result<(), AigerError>)
    requires
        state_inv(mk_state(old(reader)@.pos, graph@, literals@, latch_inputs@, old(output_lits)@)),
    ensures
        final(reader)@.data == old(reader)@.data,
        phase_post(
            r,
            repeat(
                output_stepper(old(reader)@.data),
                mk_state(old(reader)@.pos, graph@, literals@, latch_inputs@, old(output_lits)@),
                n as nat,
            ),
            mk_state(final(reader)@.pos, graph@, literals@, latch_inputs@, final(output_lits)@),
        ),
{
    let ghost data = reader@.data;
    let ghost s0 = mk_state(reader@.pos, graph@, literals@, latch_inputs@, output_lits@);
    let mut i: usize = 0;
    while i < n
        invariant
            reader@.data == data,
            i <= n,
            repeat(output_stepper(data), s0, n as nat) == repeat(
                output_stepper(data),
                mk_state(reader@.pos, graph@, literals@, latch_inputs@, output_lits@),
                (n - i) as nat,
            ),
            state_inv(mk_state(reader@.pos, graph@, literals@, latch_inputs@, output_lits@)),
        decreases n - i,
    {
        let output_lit = match read_one_number_line(reader) {
            Ok(v) => v,
            Err(e) => return Err(e),
        };
        output_lits.push(output_lit);
        i = i + 1;
    }
    Ok(())
}

#[verifier::loop_isolation(false)]
fn parse_ands(
    n: usize,
    pre_optimize: bool,
    reader: &mut ByteReader,
    graph: &mut AigBuilder,
    literals: &mut Literals,
    latch_inputs: &Vec<(NodeId, usize)>,
    output_lits: &Vec<usize>,
) -> (r: Result<(), AigerError>)
    requires
        state_inv(mk_state(old(reader)@.pos, old(graph)@, old(literals)@, latch_inputs@, output_lits@)),
    ensures
        final(reader)@.data == old(reader)@.data,
        phase_post(
            r,
            repeat(
                and_stepper(old(reader)@.data, pre_optimize),
                mk_state(old(reader)@.pos, old(graph)@, old(literals)@, latch_inputs@, output_lits@),
                n as nat,
            ),
            mk_state(final(reader)@.pos, final(graph)@, final(literals)@, latch_inputs@, output_lits@),
        ),
{
    let ghost data = reader@.data;
    let ghost s0 = mk_state(reader@.pos, graph@, literals@, latch_inputs@, output_lits@);
    let mut i: usize = 0;
    while i < n
        invariant
            reader@.data == data,
            i <= n,
            repeat(and_stepper(data, pre_optimize), s0, n as nat) == repeat(
                and_stepper(data, pre_optimize),
                mk_state(reader@.pos, graph@, literals@, latch_inputs@, output_lits@),
                (n - i) as nat,
            ),
            state_inv(mk_state(reader@.pos, graph@, literals@, latch_inputs@, output_lits@)),
        decreases n - i,
    {
        let (lhs_lit, rhs0_lit, rhs1_lit) = match read_and_line(reader) {
            Ok(v) => v,
            Err(e) => return Err(e),
        };
        let left = match literals.get(rhs0_lit) {
            Some(id) => id,
            None => return Err(AigerError::UnknownLiteral),
        };
        let right = match literals.get(rhs1_lit) {
            Some(id) => id,
            None => return Err(AigerError::UnknownLiteral),
        };
        proof {
            super::lemma_lits_get_valid(literals@, rhs0_lit, graph@.graph);
            super::lemma_lits_get_valid(literals@, rhs1_lit, graph@.graph);
        }
        let ghost gb = graph@;
        let and_id = if pre_optimize {
            if graph.num_nodes() > MAX_GRAPH_INDEX && graph.and_would_push(left, right) {
                return Err(AigerError::TooManyNodes);
            }
            graph.add_and_optimized(left, right)
        } else {
            if graph.num_nodes() > MAX_GRAPH_INDEX {
                return Err(AigerError::TooManyNodes);
            }
            graph.add_and_raw(left, right)
        };
        if lhs_lit == usize::MAX {
            return Err(AigerError::LiteralOverflow);
        }
        proof {
            super::lemma_lits_valid_extend(literals@, gb.graph, graph@.graph);
            super::lemma_lits_add_valid(literals@, lhs_lit, and_id, graph@.graph);
            let g2 = graph@.graph;
            assert forall|k: int| 0 <= k < latch_inputs@.len() implies {
                &&& g2.has_node(#[trigger] latch_inputs@[k].0)
                &&& g2.node_of(latch_inputs@[k].0).is_latch()
            } by {
                assert(g2.nodes[latch_inputs@[k].0.spec_index()] == gb.graph.nodes[latch_inputs@[k].0.spec_index()]);
            }
        }
        literals.add(lhs_lit, and_id);
        i = i + 1;
    }
    Ok(())
}

#[verifier::loop_isolation(false)]
fn resolve_latch_inputs(graph: &mut AigBuilder, literals: &Literals, latch_inputs: &Vec<(NodeId, usize)>) -> (r:
    Result<(), AigerError>)
    requires
        old(graph)@.wf(),
        super::lits_valid(literals@, old(graph)@.graph),
        forall|j: int|
            0 <= j < latch_inputs@.len() ==> {
                &&& old(graph)@.graph.has_node(#[trigger] latch_inputs@[j].0)
                &&& old(graph)@.graph.node_of(latch_inputs@[j].0).is_latch()
            },
    ensures
        match resolve_latches(old(graph)@, literals@, latch_inputs@) {
            Ok(b) => r is Ok && final(graph)@ == b && b.wf() && super::lits_valid(literals@, b.graph),
            Err(e) => r == Err::<(), AigerError>(e),
        },
{
    let ghost b0 = graph@;
    let mut k: usize = 0;
    assert(latch_inputs@.skip(0) =~= latch_inputs@);
    while k < latch_inputs.len()
        invariant
            k <= latch_inputs@.len(),
            resolve_latches(b0, literals@, latch_inputs@) == resolve_latches(graph@, literals@, latch_inputs@.skip(k as int)),
            graph@.wf(),
            graph@.graph.nodes.len() == b0.graph.nodes.len(),
            super::lits_valid(literals@, graph@.graph),
            forall|j: int|
                k <= j < latch_inputs@.len() ==> {
                    &&& graph@.graph.has_node(#[trigger] latch_inputs@[j].0)
                    &&& graph@.graph.node_of(latch_inputs@[j].0).is_latch()
                },
        decreases latch_inputs@.len() - k,
    {
        let (latch_id, latch_input_lit) = latch_inputs[k];
        assert(latch_inputs@.skip(k as int)[0] == latch_inputs@[k as int]);
        let latch_input_id = match literals.get(latch_input_lit) {
            Some(id) => id,
            None => return Err(AigerError::UnknownLiteral),
        };
        proof {
            super::lemma_lits_get_valid(literals@, latch_input_lit, graph@.graph);
            lemma_set_latch_input_wf(graph@, latch_id, latch_input_id);
        }
        let ghost gb = graph@;
        graph.node(latch_id).set_latch_input(latch_input_id);
        proof {
            assert(graph@.graph.nodes =~= spec_set_latch_input(gb, latch_id, latch_input_id).graph.nodes);
            assert(graph@ == spec_set_latch_input(gb, latch_id, latch_input_id));
            assert(latch_inputs@.skip(k as int).drop_first() =~= latch_inputs@.skip(k + 1));
            assert forall|j: int| k + 1 <= j < latch_inputs@.len() implies {
                &&& graph@.graph.has_node(#[trigger] latch_inputs@[j].0)
                &&& graph@.graph.node_of(latch_inputs@[j].0).is_latch()
            } by {
                if latch_inputs@[j].0.spec_index() != latch_id.spec_index() {
                    assert(graph@.graph.nodes[latch_inputs@[j].0.spec_index()] == gb.graph.nodes[latch_inputs@[j].0.spec_index()]);
                }
            }
        }
        k = k + 1;
    }
    Ok(())
}

#[verifier::loop_isolation(false)]
fn resolve_output_lits(graph: &mut AigBuilder, literals: &Literals, output_lits: &Vec<usize>) -> (r: Result<
    (),
    AigerError,
>)
    requires
        old(graph)@.wf(),
        super::lits_valid(literals@, old(graph)@.graph),
    ensures
        match resolve_outputs(old(graph)@, literals@, output_lits@) {
            Ok(b) => r is Ok && final(graph)@ == b && b.wf(),
            Err(e) => r == Err::<(), AigerError>(e),
        },
{
    let ghost b0 = graph@;
    let mut k: usize = 0;
    assert(output_lits@.skip(0) =~= output_lits@);
    while k < output_lits.len()
        invariant
            k <= output_lits@.len(),
            resolve_outputs(b0, literals@, output_lits@) == resolve_outputs(graph@, literals@, output_lits@.skip(k as int)),
            graph@.wf(),
            super::lits_valid(literals@, graph@.graph),
        decreases output_lits@.len() - k,
    {
        let output_lit = output_lits[k];
        assert(output_lits@.skip(k as int)[0] == output_lits@[k as int]);
        let output_id = match literals.get(output_lit) {
            Some(id) => id,
            None => return Err(AigerError::UnknownLiteral),
        };
        proof {
            super::lemma_lits_get_valid(literals@, output_lit, graph@.graph);
        }
        graph.add_output(output_id);
        assert(output_lits@.skip(k as int).drop_first() =~= output_lits@.skip(k + 1));
        k = k + 1;
    }
    Ok(())
}

/// Builds the graph that the ASCII AIGER body after `header` describes.
pub fn parse_ascii_aiger_into_graph(
    header: AigerHeader,
    reader: &mut ByteReader,
    pre_optimize: bool,
) -> (r: Result<AigGraph, AigerError>)
    ensures
        final(reader)@.data == old(reader)@.data,
        match spec_parse_ascii(old(reader)@.data, old(reader)@.pos, header, pre_optimize) {
            Ok((g, p)) => (r matches Ok(graph) && graph@ == g) && final(reader)@.pos == p,
            Err(e) => r == Err::<AigGraph, AigerError>(e),
        },
        r matches Ok(graph) ==> graph@.wf(),
{
    let mut graph = AigBuilder::new();
    let mut literals = Literals::new();
    let mut latch_inputs: Vec<(NodeId, usize)> = Vec::new();
    let mut output_lits: Vec<usize> = Vec::new();
    assert(graph@ == BuilderView { graph: GraphView::empty(), hash: Map::empty() });
    assert(latch_inputs@ =~= seq![]);
    assert(output_lits@ =~= seq![]);
    parse_inputs(header.num_inputs, reader, &mut graph, &mut literals, &latch_inputs, &output_lits)?;
    parse_latches(header.num_latches, reader, &mut graph, &mut literals, &mut latch_inputs, &output_lits)?;
    parse_outputs(header.num_outputs, reader, &graph, &literals, &latch_inputs, &mut output_lits)?;
    parse_ands(header.num_and_gates, pre_optimize, reader, &mut graph, &mut literals, &latch_inputs, &output_lits)?;
    // now resolve latches!
    resolve_latch_inputs(&mut graph, &literals, &latch_inputs)?;
    // now resolve outputs!
    resolve_output_lits(&mut graph, &literals, &output_lits)?;
    Ok(graph.build())
}

} // verus!
