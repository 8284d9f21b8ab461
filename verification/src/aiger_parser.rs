use crate::aig_graph::{spec_and_optimized, AigGraph, AigGraphView, AigNode, NodeId, MAX_INDEX};
use crate::aiger::repeat;
use crate::text::{
    is_valid_utf8, line_at, line_end, parse_usize, parse_usize_bytes, split_whitespace, tokens,
    trim, trim_bytes, ByteReader,
};
use std::collections::HashMap;
use vstd::prelude::*;

verus! {

broadcast use crate::aig_graph::group_old_aig;

/// The header fields, in the order in which they are read.
#[derive(Debug, Clone, Copy, PartialEq, Eq, Structural)]
pub enum HeaderField {
    M,
    I,
    L,
    O,
    A,
}

/// The part of the file that was being read.
#[derive(Debug, Clone, Copy, PartialEq, Eq, Structural)]
pub enum Section {
    Input,
    Output,
    AndGate,
}

/// The literal of an AND line.
#[derive(Debug, Clone, Copy, PartialEq, Eq, Structural)]
pub enum AndPart {
    Lhs,
    Rhs0,
    Rhs1,
}

/// Why reading an AIGER file failed.
#[derive(Debug, Clone, Copy, PartialEq, Eq, Structural)]
pub enum ParseError {
    /// A line is not valid UTF-8.
    InvalidUtf8,
    /// The header line does not have six fields.
    HeaderFormat,
    /// The header tag is neither `aag` nor `aig`.
    InvalidTag,
    /// A header field is not a number.
    InvalidHeaderNumber(HeaderField),
    /// `I + L + A` does not fit in a `usize`.
    HeaderOverflow,
    /// `M < I + L + A`.
    LayoutViolation,
    /// The file is binary AIGER.
    BinaryNotSupported,
    /// The header declares latches.
    LatchesNotSupported,
    /// The data ended while reading a section.
    UnexpectedEof(Section),
    /// A line that must hold one number does not.
    InvalidLine(Section),
    /// An input literal that is not a positive even literal.
    InputLiteralNotEven(usize),
    /// A literal defined twice.
    DuplicateLiteral(usize),
    /// An AND gate's left-hand side that is not a positive even literal.
    AndLhsNotEven(usize),
    /// An AND line that does not have three fields.
    InvalidAndLine,
    /// A field of an AND line that is not a number.
    InvalidAndLiteral(AndPart),
    /// A literal (first) that refers to an undefined literal (second).
    UndefinedLiteral(usize, usize),
    /// More nodes than a `NodeId` can name.
    TooManyNodes,
}

#[derive(Debug)]
pub struct AigerHeader {
    pub is_ascii: bool,
    pub m: usize,
    pub i: usize,
    pub l: usize,
    pub o: usize,
    pub a: usize,
}

/// The header that the line at `pos` describes, and the position after it.
pub open spec fn spec_header(data: Seq<u8>, pos: int) -> Result<(AigerHeader, int), ParseError> {
    let line = line_at(data, pos);
    let parts = tokens(line);
    if !vstd::utf8::valid_utf8(line) {
        Err(ParseError::InvalidUtf8)
    } else if parts.len() != 6 {
        Err(ParseError::HeaderFormat)
    } else if parts[0] != seq![97u8, 97u8, 103u8] && parts[0] != seq![97u8, 105u8, 103u8] {
        Err(ParseError::InvalidTag)
    } else if parse_usize(parts[1]) is None {
        Err(ParseError::InvalidHeaderNumber(HeaderField::M))
    } else if parse_usize(parts[2]) is None {
        Err(ParseError::InvalidHeaderNumber(HeaderField::I))
    } else if parse_usize(parts[3]) is None {
        Err(ParseError::InvalidHeaderNumber(HeaderField::L))
    } else if parse_usize(parts[4]) is None {
        Err(ParseError::InvalidHeaderNumber(HeaderField::O))
    } else if parse_usize(parts[5]) is None {
        Err(ParseError::InvalidHeaderNumber(HeaderField::A))
    } else {
        let m = parse_usize(parts[1]).unwrap();
        let i = parse_usize(parts[2]).unwrap();
        let l = parse_usize(parts[3]).unwrap();
        let o = parse_usize(parts[4]).unwrap();
        let a = parse_usize(parts[5]).unwrap();
        if i + l + a > usize::MAX {
            Err(ParseError::HeaderOverflow)
        } else if m < i + l + a {
            Err(ParseError::LayoutViolation)
        } else {
            Ok(
                (
                    AigerHeader { is_ascii: parts[0] == seq![97u8, 97u8, 103u8], m, i, l, o, a },
                    line_end(data, pos),
                ),
            )
        }
    }
}

fn read_text_line(reader: &mut ByteReader) -> (r: Result<Vec<u8>, ParseError>)
    ensures
        final(reader)@.data == old(reader)@.data,
        final(reader)@.pos == line_end(old(reader)@.data, old(reader)@.pos),
        match r {
            Ok(line) => line@ == line_at(old(reader)@.data, old(reader)@.pos) && vstd::utf8::valid_utf8(line@),
            Err(e) => e == ParseError::InvalidUtf8 && !vstd::utf8::valid_utf8(
                line_at(old(reader)@.data, old(reader)@.pos),
            ),
        },
{
    let line = reader.read_line();
    if !is_valid_utf8(line.as_slice()) {
        return Err(ParseError::InvalidUtf8);
    }
    Ok(line)
}

fn is_tag(t: &Vec<u8>, c: u8) -> (b: bool)
    ensures
        b == (t@ == seq![97u8, c, 103u8]),
{
    let r = t.len() == 3 && t[0] == 97 && t[1] == c && t[2] == 103;
    if r {
        assert(t@ =~= seq![97u8, c, 103u8]);
    }
    r
}

fn parse_header_number(s: &[u8], name: HeaderField) -> (r: Result<usize, ParseError>)
    ensures
        match parse_usize(s@) {
            Some(n) => r == Ok::<usize, ParseError>(n),
            None => r == Err::<usize, ParseError>(ParseError::InvalidHeaderNumber(name)),
        },
{
    match parse_usize_bytes(s) {
        Some(n) => Ok(n),
        None => Err(ParseError::InvalidHeaderNumber(name)),
    }
}

/// Reads and checks the header line `aag|aig M I L O A`.
pub fn verify_aiger_header(reader: &mut ByteReader) -> (r: Result<AigerHeader, ParseError>)
    ensures
        final(reader)@.data == old(reader)@.data,
        final(reader)@.pos == line_end(old(reader)@.data, old(reader)@.pos),
        match spec_header(old(reader)@.data, old(reader)@.pos) {
            Ok((h, p)) => r == Ok::<AigerHeader, ParseError>(h) && final(reader)@.pos == p,
            Err(e) => r == Err::<AigerHeader, ParseError>(e),
        },
{
    let line = read_text_line(reader)?;
    let parts = split_whitespace(line.as_slice());
    assert(parts@.len() == tokens(line@).len());
    if parts.len() != 6 {
        return Err(ParseError::HeaderFormat);
    }
    assert forall|k: int| 0 <= k < 6 implies parts@[k]@ == tokens(line@)[k] by {
        assert(parts@.map_values(|t: Vec<u8>| t@)[k] == parts@[k]@);
    }
    let is_ascii = if is_tag(&parts[0], 97) {
        true
    } else if is_tag(&parts[0], 105) {
        false
    } else {
        return Err(ParseError::InvalidTag);
    };
    let m = parse_header_number(parts[1].as_slice(), HeaderField::M)?;
    let i = parse_header_number(parts[2].as_slice(), HeaderField::I)?;
    let l = parse_header_number(parts[3].as_slice(), HeaderField::L)?;
    let o = parse_header_number(parts[4].as_slice(), HeaderField::O)?;
    let a = parse_header_number(parts[5].as_slice(), HeaderField::A)?;
    if i > usize::MAX - l || i + l > usize::MAX - a {
        return Err(ParseError::HeaderOverflow);
    }
    if m < i + l + a {
        return Err(ParseError::LayoutViolation);
    }
    Ok(AigerHeader { is_ascii, m, i, l, o, a })
}

/// The number on the line at `pos` of `section`, and the position after it.
pub open spec fn spec_number_line(data: Seq<u8>, pos: int, section: Section) -> Result<(usize, int), ParseError> {
    let line = line_at(data, pos);
    if !vstd::utf8::valid_utf8(line) {
        Err(ParseError::InvalidUtf8)
    } else if line.len() == 0 {
        Err(ParseError::UnexpectedEof(section))
    } else {
        match parse_usize(trim(line)) {
            Some(n) => Ok((n, line_end(data, pos))),
            None => Err(ParseError::InvalidLine(section)),
        }
    }
}

fn read_one_number_line(reader: &mut ByteReader, section: Section) -> (r: Result<usize, ParseError>)
    ensures
        final(reader)@.data == old(reader)@.data,
        final(reader)@.pos == line_end(old(reader)@.data, old(reader)@.pos),
        match spec_number_line(old(reader)@.data, old(reader)@.pos, section) {
            Ok((n, p)) => r == Ok::<usize, ParseError>(n) && final(reader)@.pos == p,
            Err(e) => r == Err::<usize, ParseError>(e),
        },
{
    let line = read_text_line(reader)?;
    if line.len() == 0 {
        return Err(ParseError::UnexpectedEof(section));
    }
    let trimmed = trim_bytes(line.as_slice());
    match parse_usize_bytes(trimmed.as_slice()) {
        Some(n) => Ok(n),
        None => Err(ParseError::InvalidLine(section)),
    }
}

/// The three numbers of the AND line at `pos`.
pub open spec fn spec_and_line(data: Seq<u8>, pos: int) -> Result<((usize, usize, usize), int), ParseError> {
    let line = line_at(data, pos);
    let parts = tokens(line);
    if !vstd::utf8::valid_utf8(line) {
        Err(ParseError::InvalidUtf8)
    } else if line.len() == 0 {
        Err(ParseError::UnexpectedEof(Section::AndGate))
    } else if parts.len() != 3 {
        Err(ParseError::InvalidAndLine)
    } else if parse_usize(parts[0]) is None {
        Err(ParseError::InvalidAndLiteral(AndPart::Lhs))
    } else if parse_usize(parts[1]) is None {
        Err(ParseError::InvalidAndLiteral(AndPart::Rhs0))
    } else if parse_usize(parts[2]) is None {
        Err(ParseError::InvalidAndLiteral(AndPart::Rhs1))
    } else {
        Ok(
            (
                (
                    parse_usize(parts[0]).unwrap(),
                    parse_usize(parts[1]).unwrap(),
                    parse_usize(parts[2]).unwrap(),
                ),
                line_end(data, pos),
            ),
        )
    }
}

fn read_and_line(reader: &mut ByteReader) -> (r: Result<(usize, usize, usize), ParseError>)
    ensures
        final(reader)@.data == old(reader)@.data,
        final(reader)@.pos == line_end(old(reader)@.data, old(reader)@.pos),
        match spec_and_line(old(reader)@.data, old(reader)@.pos) {
            Ok((v, p)) => r == Ok::<(usize, usize, usize), ParseError>(v) && final(reader)@.pos == p,
            Err(e) => r == Err::<(usize, usize, usize), ParseError>(e),
        },
{
    let line = read_text_line(reader)?;
    if line.len() == 0 {
        return Err(ParseError::UnexpectedEof(Section::AndGate));
    }
    let parts = split_whitespace(line.as_slice());
    assert(parts@.len() == tokens(line@).len());
    if parts.len() != 3 {
        return Err(ParseError::InvalidAndLine);
    }
    assert forall|k: int| 0 <= k < 3 implies parts@[k]@ == tokens(line@)[k] by {
        assert(parts@.map_values(|t: Vec<u8>| t@)[k] == parts@[k]@);
    }
    let lhs = match parse_usize_bytes(parts[0].as_slice()) {
        Some(n) => n,
        None => return Err(ParseError::InvalidAndLiteral(AndPart::Lhs)),
    };
    let rhs0 = match parse_usize_bytes(parts[1].as_slice()) {
        Some(n) => n,
        None => return Err(ParseError::InvalidAndLiteral(AndPart::Rhs0)),
    };
    let rhs1 = match parse_usize_bytes(parts[2].as_slice()) {
        Some(n) => n,
        None => return Err(ParseError::InvalidAndLiteral(AndPart::Rhs1)),
    };
    Ok((lhs, rhs0, rhs1))
}

/// The signal of literal `lit`: its own entry, or else the (inverted, for
/// odd `lit`) entry of its even partner.
pub open spec fn spec_lookup(m: Map<usize, NodeId>, lit: usize) -> Result<NodeId, ParseError> {
    let r = (lit - lit % 2) as usize;
    if m.contains_key(lit) {
        Ok(m[lit])
    } else if m.contains_key(r) {
        if lit % 2 == 1 {
            Ok(m[r].spec_invert())
        } else {
            Ok(m[r])
        }
    } else {
        Err(ParseError::UndefinedLiteral(lit, r))
    }
}

fn lookup_aiger_literal(aiger_lit: usize, lit_to_node: &HashMap<usize, NodeId>) -> (r: Result<NodeId, ParseError>)
    ensures
        r == spec_lookup(lit_to_node@, aiger_lit),
{
    broadcast use vstd::std_specs::hash::group_hash_axioms;

    if let Some(node_id) = lit_to_node.get(&aiger_lit) {
        return Ok(*node_id);
    }
    let regular_lit = aiger_lit - aiger_lit % 2;
    let is_inverted = aiger_lit % 2 == 1;
    let regular_node = match lit_to_node.get(&regular_lit) {
        Some(n) => *n,
        None => return Err(ParseError::UndefinedLiteral(aiger_lit, regular_lit)),
    };
    if is_inverted {
        Ok(regular_node.invert())
    } else {
        Ok(regular_node)
    }
}

} // verus!

verus! {

/// The state of the parser between lines.
pub struct ParseState {
    pub pos: int,
    pub g: AigGraphView,
    pub map: Map<usize, NodeId>,
    pub output_lits: Seq<usize>,
}

/// One input line: a positive even literal not defined before.
pub open spec fn input_step(data: Seq<u8>, s: ParseState) -> Result<ParseState, ParseError> {
    match spec_number_line(data, s.pos, Section::Input) {
        Err(e) => Err(e),
        Ok((lit, p)) => if lit == 0 || lit == 1 || lit % 2 != 0 {
            Err(ParseError::InputLiteralNotEven(lit))
        } else if s.map.contains_key(lit) {
            Err(ParseError::DuplicateLiteral(lit))
        } else if s.g.nodes.len() > MAX_INDEX {
            Err(ParseError::TooManyNodes)
        } else {
            let id = NodeId::spec_from_index(s.g.nodes.len() as int);
            let g2 = AigGraphView {
                nodes: s.g.nodes.push(AigNode::from_parts(NodeId::marker(), NodeId::marker())),
                inputs: s.g.inputs.push(id),
                ..s.g
            };
            Ok(ParseState { pos: p, g: g2, map: s.map.insert(lit, id), ..s })
        },
    }
}

/// One output line: its literal is resolved after the AND gates.
pub open spec fn output_step(data: Seq<u8>, s: ParseState) -> Result<ParseState, ParseError> {
    match spec_number_line(data, s.pos, Section::Output) {
        Err(e) => Err(e),
        Ok((lit, p)) => Ok(ParseState { pos: p, output_lits: s.output_lits.push(lit), ..s }),
    }
}

/// One AND line: a fresh positive even left-hand literal and two defined
/// right-hand literals.
pub open spec fn and_step(data: Seq<u8>, s: ParseState, pre_optimize: bool) -> Result<ParseState, ParseError> {
    match spec_and_line(data, s.pos) {
        Err(e) => Err(e),
        Ok(((lhs, rhs0, rhs1), p)) => if lhs == 0 || lhs == 1 || lhs % 2 != 0 {
            Err(ParseError::AndLhsNotEven(lhs))
        } else if s.map.contains_key(lhs) {
            Err(ParseError::DuplicateLiteral(lhs))
        } else {
            match spec_lookup(s.map, rhs0) {
                Err(e) => Err(e),
                Ok(left) => match spec_lookup(s.map, rhs1) {
                    Err(e) => Err(e),
                    Ok(right) => if s.g.nodes.len() > MAX_INDEX {
                        Err(ParseError::TooManyNodes)
                    } else {
                        let (g2, id) = if pre_optimize {
                            spec_and_optimized(s.g, left, right)
                        } else {
                            (
                                AigGraphView {
                                    nodes: s.g.nodes.push(AigNode::from_parts(left, right)),
                                    ..s.g
                                },
                                NodeId::spec_from_index(s.g.nodes.len() as int),
                            )
                        };
                        Ok(ParseState { pos: p, g: g2, map: s.map.insert(lhs, id), ..s })
                    },
                },
            }
        },
    }
}

pub open spec fn input_stepper(data: Seq<u8>) -> spec_fn(ParseState) -> Result<ParseState, ParseError> {
    |s: ParseState| input_step(data, s)
}

pub open spec fn output_stepper(data: Seq<u8>) -> spec_fn(ParseState) -> Result<ParseState, ParseError> {
    |s: ParseState| output_step(data, s)
}

pub open spec fn and_stepper(data: Seq<u8>, pre_optimize: bool) -> spec_fn(ParseState) -> Result<
    ParseState,
    ParseError,
> {
    |s: ParseState| and_step(data, s, pre_optimize)
}

/// Adds the signal of each recorded output literal as an output.
pub open spec fn resolve_outputs(g: AigGraphView, m: Map<usize, NodeId>, ol: Seq<usize>) -> Result<
    AigGraphView,
    ParseError,
>
    decreases ol.len(),
{
    if ol.len() == 0 {
        Ok(g)
    } else {
        match spec_lookup(m, ol[0]) {
            Err(e) => Err(e),
            Ok(x) => resolve_outputs(AigGraphView { outputs: g.outputs.push(x), ..g }, m, ol.drop_first()),
        }
    }
}

/// The graph that the ASCII body at `pos` describes for header `h` (which
/// must declare no latches), and the position after the AND lines.
pub open spec fn spec_parse_ascii(data: Seq<u8>, pos: int, h: AigerHeader, pre_optimize: bool) -> Result<
    (AigGraphView, int),
    ParseError,
> {
    let s0 = ParseState {
        pos,
        g: AigGraphView {
            nodes: seq![],
            hash: Map::empty(),
            inputs: seq![],
            latches: seq![],
            outputs: seq![],
        },
        map: map![0usize => NodeId::from_val(0), 1usize => NodeId::from_val(1)],
        output_lits: seq![],
    };
    if h.l != 0 {
        Err(ParseError::LatchesNotSupported)
    } else {
        match repeat(input_stepper(data), s0, h.i as nat) {
            Err(e) => Err(e),
            Ok(s1) => match repeat(output_stepper(data), s1, h.o as nat) {
                Err(e) => Err(e),
                Ok(s2) => match repeat(and_stepper(data, pre_optimize), s2, h.a as nat) {
                    Err(e) => Err(e),
                    Ok(s3) => match resolve_outputs(s3.g, s3.map, s3.output_lits) {
                        Err(e) => Err(e),
                        Ok(g) => Ok((g, s3.pos)),
                    },
                },
            },
        }
    }
}

pub open spec fn mk_state(pos: int, g: AigGraphView, map: Map<usize, NodeId>, output_lits: Seq<usize>) -> ParseState {
    ParseState { pos, g, map, output_lits }
}

pub open spec fn phase_post(r: Result<(), ParseError>, expected: Result<ParseState, ParseError>, after: ParseState) -> bool {
    match expected {
        Ok(s) => r is Ok && after == s && after.g.wf(),
        Err(e) => r == Err::<(), ParseError>(e),
    }
}

#[verifier::loop_isolation(false)]
fn parse_inputs(
    n: usize,
    reader: &mut ByteReader,
    graph: &mut AigGraph,
    lit_to_node: &mut HashMap<usize, NodeId>,
    output_lits: &Vec<usize>,
) -> (r: Result<(), ParseError>)
    requires
        old(graph)@.wf(),
    ensures
        final(reader)@.data == old(reader)@.data,
        phase_post(
            r,
            repeat(
                input_stepper(old(reader)@.data),
                mk_state(old(reader)@.pos, old(graph)@, old(lit_to_node)@, output_lits@),
                n as nat,
            ),
            mk_state(final(reader)@.pos, final(graph)@, final(lit_to_node)@, output_lits@),
        ),
{
    broadcast use vstd::std_specs::hash::group_hash_axioms;

    let ghost data = reader@.data;
    let ghost s0 = mk_state(reader@.pos, graph@, lit_to_node@, output_lits@);
    let mut i: usize = 0;
    while i < n
        invariant
            reader@.data == data,
            i <= n,
            repeat(input_stepper(data), s0, n as nat) == repeat(
                input_stepper(data),
                mk_state(reader@.pos, graph@, lit_to_node@, output_lits@),
                (n - i) as nat,
            ),
            graph@.wf(),
        decreases n - i,
    {
        let input_lit = match read_one_number_line(reader, Section::Input) {
            Ok(v) => v,
            Err(e) => return Err(e),
        };
        if input_lit == 0 || input_lit == 1 || input_lit % 2 != 0 {
            return Err(ParseError::InputLiteralNotEven(input_lit));
        }
        if lit_to_node.contains_key(&input_lit) {
            return Err(ParseError::DuplicateLiteral(input_lit));
        }
        if graph.num_nodes() > MAX_INDEX {
            return Err(ParseError::TooManyNodes);
        }
        let input_id = graph.add_input();
        lit_to_node.insert(input_lit, input_id);
        i = i + 1;
    }
    Ok(())
}

#[verifier::loop_isolation(false)]
fn parse_outputs(
    n: usize,
    reader: &mut ByteReader,
    graph: &AigGraph,
    lit_to_node: &HashMap<usize, NodeId>,
    output_lits: &mut Vec<usize>,
) -> (r: Result<(), ParseError>)
    requires
        graph@.wf(),
    ensures
        final(reader)@.data == old(reader)@.data,
        phase_post(
            r,
            repeat(
                output_stepper(old(reader)@.data),
                mk_state(old(reader)@.pos, graph@, lit_to_node@, old(output_lits)@),
                n as nat,
            ),
            mk_state(final(reader)@.pos, graph@, lit_to_node@, final(output_lits)@),
        ),
{
    let ghost data = reader@.data;
    let ghost s0 = mk_state(reader@.pos, graph@, lit_to_node@, output_lits@);
    let mut i: usize = 0;
    while i < n
        invariant
            reader@.data == data,
            i <= n,
            repeat(output_stepper(data), s0, n as nat) == repeat(
                output_stepper(data),
                mk_state(reader@.pos, graph@, lit_to_node@, output_lits@),
                (n - i) as nat,
            ),
        decreases n - i,
    {
        let output_lit = match read_one_number_line(reader, Section::Output) {
            Ok(v) => v,
            Err(e) => return Err(e),
        };
        output_lits.push(output_lit);
        i = i + 1;
    }
    Ok(())
}

#[verifier::loop_isolation(false)]
fn parse_ands(
    n: usize,
    pre_optimize: bool,
    reader: &mut ByteReader,
    graph: &mut AigGraph,
    lit_to_node: &mut HashMap<usize, NodeId>,
    output_lits: &Vec<usize>,
) -> (r: Result<(), ParseError>)
    requires
        old(graph)@.wf(),
    ensures
        final(reader)@.data == old(reader)@.data,
        phase_post(
            r,
            repeat(
                and_stepper(old(reader)@.data, pre_optimize),
                mk_state(old(reader)@.pos, old(graph)@, old(lit_to_node)@, output_lits@),
                n as nat,
            ),
            mk_state(final(reader)@.pos, final(graph)@, final(lit_to_node)@, output_lits@),
        ),
{
    broadcast use vstd::std_specs::hash::group_hash_axioms;

    let ghost data = reader@.data;
    let ghost s0 = mk_state(reader@.pos, graph@, lit_to_node@, output_lits@);
    let mut i: usize = 0;
    while i < n
        invariant
            reader@.data == data,
            i <= n,
            repeat(and_stepper(data, pre_optimize), s0, n as nat) == repeat(
                and_stepper(data, pre_optimize),
                mk_state(reader@.pos, graph@, lit_to_node@, output_lits@),
                (n - i) as nat,
            ),
            graph@.wf(),
        decreases n - i,
    {
        let (lhs_lit, rhs0_lit, rhs1_lit) = match read_and_line(reader) {
            Ok(v) => v,
            Err(e) => return Err(e),
        };
        if lhs_lit == 0 || lhs_lit == 1 || lhs_lit % 2 != 0 {
            return Err(ParseError::AndLhsNotEven(lhs_lit));
        }
        if lit_to_node.contains_key(&lhs_lit) {
            return Err(ParseError::DuplicateLiteral(lhs_lit));
        }
        let left = match lookup_aiger_literal(rhs0_lit, lit_to_node) {
            Ok(id) => id,
            Err(e) => return Err(e),
        };
        let right = match lookup_aiger_literal(rhs1_lit, lit_to_node) {
            Ok(id) => id,
            Err(e) => return Err(e),
        };
        if graph.num_nodes() > MAX_INDEX {
            return Err(ParseError::TooManyNodes);
        }
        let and_id = if pre_optimize {
            graph.add_and_optimized(left, right)
        } else {
            graph.add_and_raw(left, right)
        };
        lit_to_node.insert(lhs_lit, and_id);
        i = i + 1;
    }
    Ok(())
}

#[verifier::loop_isolation(false)]
fn resolve_output_lits(graph: &mut AigGraph, lit_to_node: &HashMap<usize, NodeId>, output_lits: &Vec<usize>) -> (r:
    Result<(), ParseError>)
    requires
        old(graph)@.wf(),
    ensures
        match resolve_outputs(old(graph)@, lit_to_node@, output_lits@) {
            Ok(g) => r is Ok && final(graph)@ == g && g.wf(),
            Err(e) => r == Err::<(), ParseError>(e),
        },
{
    let ghost g0 = graph@;
    let mut k: usize = 0;
    assert(output_lits@.skip(0) =~= output_lits@);
    while k < output_lits.len()
        invariant
            k <= output_lits@.len(),
            resolve_outputs(g0, lit_to_node@, output_lits@) == resolve_outputs(
                graph@,
                lit_to_node@,
                output_lits@.skip(k as int),
            ),
            graph@.wf(),
        decreases output_lits@.len() - k,
    {
        let output_lit = output_lits[k];
        assert(output_lits@.skip(k as int)[0] == output_lits@[k as int]);
        let output_id = match lookup_aiger_literal(output_lit, lit_to_node) {
            Ok(id) => id,
            Err(e) => return Err(e),
        };
        graph.add_output(output_id);
        assert(output_lits@.skip(k as int).drop_first() =~= output_lits@.skip(k + 1));
        k = k + 1;
    }
    Ok(())
}

/// Builds the graph that an ASCII AIGER body without latches describes.
pub fn parse_ascii_aiger_into_graph(
    header: AigerHeader,
    reader: &mut ByteReader,
    pre_optimize: bool,
) -> (r: Result<AigGraph, ParseError>)
    ensures
        final(reader)@.data == old(reader)@.data,
        match spec_parse_ascii(old(reader)@.data, old(reader)@.pos, header, pre_optimize) {
            Ok((g, p)) => (r matches Ok(graph) && graph@ == g) && final(reader)@.pos == p,
            Err(e) => r == Err::<AigGraph, ParseError>(e),
        },
        r matches Ok(graph) ==> graph@.wf(),
        header.l != 0 ==> final(reader)@ == old(reader)@,
{
    broadcast use vstd::std_specs::hash::group_hash_axioms;

    if header.l != 0 {
        return Err(ParseError::LatchesNotSupported);
    }
    let mut graph = AigGraph::new();
    let mut lit_to_node: HashMap<usize, NodeId> = HashMap::new();
    lit_to_node.insert(0, NodeId::false_id());
    lit_to_node.insert(1, NodeId::true_id());
    let mut output_lits: Vec<usize> = Vec::new();
    assert(lit_to_node@ =~= map![0usize => NodeId::from_val(0), 1usize => NodeId::from_val(1)]);
    assert(output_lits@ =~= seq![]);
    parse_inputs(header.i, reader, &mut graph, &mut lit_to_node, &output_lits)?;
    parse_outputs(header.o, reader, &graph, &lit_to_node, &mut output_lits)?;
    parse_ands(header.a, pre_optimize, reader, &mut graph, &mut lit_to_node, &output_lits)?;
    resolve_output_lits(&mut graph, &lit_to_node, &output_lits)?;
    Ok(graph)
}

/// The header and graph of an AIGER file at `pos`, when it is ASCII.
pub open spec fn spec_run_parser(data: Seq<u8>, pos: int, pre_optimize: bool) -> Result<
    (AigerHeader, AigGraphView),
    ParseError,
> {
    match spec_header(data, pos) {
        Err(e) => Err(e),
        Ok((h, p)) => if !h.is_ascii {
            Err(ParseError::BinaryNotSupported)
        } else {
            match spec_parse_ascii(data, p, h, pre_optimize) {
                Err(e) => Err(e),
                Ok((g, _)) => Ok((h, g)),
            }
        },
    }
}

/// Where reading the AIGER data at `pos` ends when it succeeds: after the
/// last AND line.
pub open spec fn spec_run_parser_end(data: Seq<u8>, pos: int, pre_optimize: bool) -> int {
    let (h, p) = spec_header(data, pos)->Ok_0;
    spec_parse_ascii(data, p, h, pre_optimize)->Ok_0.1
}

/// Reads the header and, for an ASCII file, the graph.
pub fn run_parser_with_options(reader: &mut ByteReader, pre_optimize: bool) -> (r: Result<
    (AigerHeader, AigGraph),
    ParseError,
>)
    ensures
        match spec_run_parser(old(reader)@.data, old(reader)@.pos, pre_optimize) {
            Ok((h, g)) => r matches Ok((h2, graph)) && h2 == h && graph@ == g,
            Err(e) => r == Err::<(AigerHeader, AigGraph), ParseError>(e),
        },
        r matches Ok((_, graph)) ==> graph@.wf(),
        final(reader)@.data == old(reader)@.data,
        r is Ok ==> final(reader)@.pos == spec_run_parser_end(old(reader)@.data, old(reader)@.pos, pre_optimize),
        spec_header(old(reader)@.data, old(reader)@.pos) matches Ok((h, p)) ==> (!h.is_ascii
            ==> final(reader)@.pos == p),
{
    let header = verify_aiger_header(reader)?;
    if !header.is_ascii {
        return Err(ParseError::BinaryNotSupported);
    }
    let copy = AigerHeader {
        is_ascii: header.is_ascii,
        m: header.m,
        i: header.i,
        l: header.l,
        o: header.o,
        a: header.a,
    };
    let graph = parse_ascii_aiger_into_graph(header, reader, pre_optimize)?;
    Ok((copy, graph))
}

/// `run_parser_with_options` without optimization.
pub fn run_parser(reader: &mut ByteReader) -> (r: Result<(AigerHeader, AigGraph), ParseError>)
    ensures
        match spec_run_parser(old(reader)@.data, old(reader)@.pos, false) {
            Ok((h, g)) => r matches Ok((h2, graph)) && h2 == h && graph@ == g,
            Err(e) => r == Err::<(AigerHeader, AigGraph), ParseError>(e),
        },
        r matches Ok((_, graph)) ==> graph@.wf(),
        final(reader)@.data == old(reader)@.data,
        r is Ok ==> final(reader)@.pos == spec_run_parser_end(old(reader)@.data, old(reader)@.pos, false),
        spec_header(old(reader)@.data, old(reader)@.pos) matches Ok((h, p)) ==> (!h.is_ascii
            ==> final(reader)@.pos == p),
{
    run_parser_with_options(reader, false)
}


/// The signal that literal `lit` stands for, given the signals recorded for
/// even literals: that of `lit` itself when it is even, the complement of
/// that of `lit - 1` when it is odd.
pub open spec fn literal_signal(m: Map<usize, NodeId>, lit: usize) -> NodeId {
    if lit % 2 == 0 {
        m[lit]
    } else {
        m[(lit - 1) as usize].spec_invert()
    }
}

/// What holds of the literal map between lines: literals 0 and 1 are the
/// two constants, complements of each other, and every other recorded
/// literal is even.
pub open spec fn literal_map_inv(m: Map<usize, NodeId>) -> bool {
    &&& m.contains_key(0usize)
    &&& m.contains_key(1usize)
    &&& m[1usize] == m[0usize].spec_invert()
    &&& forall|k: usize| #[trigger] m.contains_key(k) && k % 2 == 1 ==> k == 1
}

/// Law: an AND line `lhs rhs0 rhs1` that is accepted records for `lhs` a
/// gate over the signals of `rhs0` and `rhs1`, each taken inverted when
/// the literal is odd: without `pre_optimize` a new AND node whose children
/// are exactly those two signals, with it the signal that
/// `add_and_optimized` gives for them. The literal map keeps its shape.
pub proof fn lemma_and_line_operands(data: Seq<u8>, s: ParseState, pre_optimize: bool)
    requires
        literal_map_inv(s.map),
        and_step(data, s, pre_optimize) is Ok,
    ensures
        ({
            let s2 = and_step(data, s, pre_optimize)->Ok_0;
            let (lhs, rhs0, rhs1) = spec_and_line(data, s.pos)->Ok_0.0;
            let left = literal_signal(s.map, rhs0);
            let right = literal_signal(s.map, rhs1);
            &&& lhs % 2 == 0 && lhs >= 2 && !s.map.contains_key(lhs)
            &&& s2.map == s.map.insert(lhs, s2.map[lhs])
            &&& literal_map_inv(s2.map)
            &&& pre_optimize ==> (s2.g, s2.map[lhs]) == spec_and_optimized(s.g, left, right)
            &&& !pre_optimize ==> s2.g.nodes == s.g.nodes.push(AigNode::from_parts(left, right))
                && s2.map[lhs] == NodeId::spec_from_index(s.g.nodes.len() as int)
        }),
{
    let (lhs, rhs0, rhs1) = spec_and_line(data, s.pos)->Ok_0.0;
    let s2 = and_step(data, s, pre_optimize)->Ok_0;
    assert(spec_lookup(s.map, rhs0) == Ok::<NodeId, ParseError>(literal_signal(s.map, rhs0)));
    assert(spec_lookup(s.map, rhs1) == Ok::<NodeId, ParseError>(literal_signal(s.map, rhs1)));
    assert(s2.map == s.map.insert(lhs, s2.map[lhs]));
    assert forall|k: usize| #[trigger] s2.map.contains_key(k) && k % 2 == 1 implies k == 1 by {
        if k != lhs {
            assert(s.map.contains_key(k));
        }
    }
}

/// Law: the literal map starts in the shape that `literal_map_inv`
/// describes, and input and output lines keep it.
pub proof fn lemma_literal_map_inv_kept(data: Seq<u8>, s: ParseState)
    ensures
        literal_map_inv(map![0usize => NodeId::from_val(0), 1usize => NodeId::from_val(1)]),
        literal_map_inv(s.map) && input_step(data, s) is Ok ==> literal_map_inv(input_step(data, s)->Ok_0.map),
        output_step(data, s) is Ok ==> output_step(data, s)->Ok_0.map == s.map,
{
    broadcast use NodeId::lemma_from_val, NodeId::lemma_val_injective;

    let m0 = map![0usize => NodeId::from_val(0), 1usize => NodeId::from_val(1)];
    assert(m0[1usize] == m0[0usize].spec_invert());
    if literal_map_inv(s.map) && input_step(data, s) is Ok {
        let m = input_step(data, s)->Ok_0.map;
        let lit = spec_number_line(data, s.pos, Section::Input)->Ok_0.0;
        assert forall|k: usize| #[trigger] m.contains_key(k) && k % 2 == 1 implies k == 1 by {
            if k != lit {
                assert(s.map.contains_key(k));
            }
        }
    }
}

} // verus!
