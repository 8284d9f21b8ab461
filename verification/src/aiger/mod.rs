use crate::graph::{AigGraph, GraphView, NodeId};
use std::collections::HashMap;
use crate::text::{
    is_valid_utf8, line_at, line_end, parse_usize, parse_usize_bytes, split_whitespace, tokens,
    trim, trim_bytes, ByteReader,
};
use vstd::prelude::*;

pub mod ascii_parser;
pub mod binary_parser;
pub mod pre_optimize;
pub mod semantics;

verus! {

broadcast use crate::graph::group_aig;

/// Why reading an AIGER file failed.  `InvalidUtf8`, `UnexpectedEof` and
/// `UndefinedLiteral` are read errors; the other variants are the
/// malformed inputs on which reading stops.
#[derive(Debug, Clone, Copy, PartialEq, Eq, Structural)]
pub enum AigerError {
    /// A line read as text is not valid UTF-8.
    InvalidUtf8,
    /// The data ended inside a binary delta.
    UnexpectedEof,
    /// The header line does not have six fields.
    HeaderFormat,
    /// The header tag is neither `aag` nor `aig`.
    InvalidTag,
    /// A field that must be a number is not one.
    InvalidNumber,
    /// `I + L + A` does not fit in a `usize`.
    HeaderOverflow,
    /// `M < I + L + A`.
    MaxVarTooSmall,
    /// A binary file with `M != I + L + A`.
    BinaryMaxVarMismatch,
    /// A number line is missing (end of the data).
    EmptyLine,
    /// A latch line has fewer than two fields.
    LatchLineFormat,
    /// An AND line does not have three fields.
    AndLineFormat,
    /// A literal that no input, latch or AND gate defines.
    UnknownLiteral,
    /// A literal that refers to an undefined literal (binary files).
    UndefinedLiteral,
    /// A literal too large to be recorded.
    LiteralOverflow,
    /// A binary delta that is too long or larger than its base literal.
    InvalidDelta,
    /// More nodes than a `NodeId` can name.
    TooManyNodes,
}

#[derive(Debug)]
pub struct AigerHeader {
    pub is_ascii: bool,
    pub max_var: usize,
    pub num_inputs: usize,
    pub num_latches: usize,
    pub num_outputs: usize,
    pub num_and_gates: usize,
}

/// The header that the line at `pos` describes, and the position after it.
pub open spec fn spec_header(data: Seq<u8>, pos: int) -> Result<(AigerHeader, int), AigerError> {
    let line = line_at(data, pos);
    let parts = tokens(line);
    if !vstd::utf8::valid_utf8(line) {
        Err(AigerError::InvalidUtf8)
    } else if parts.len() != 6 {
        Err(AigerError::HeaderFormat)
    } else if parts[0] != seq![97u8, 97u8, 103u8] && parts[0] != seq![97u8, 105u8, 103u8] {
        Err(AigerError::InvalidTag)
    } else if parse_usize(parts[1]) is None || parse_usize(parts[2]) is None || parse_usize(parts[3]) is None
        || parse_usize(parts[4]) is None || parse_usize(parts[5]) is None {
        Err(AigerError::InvalidNumber)
    } else {
        let is_ascii = parts[0] == seq![97u8, 97u8, 103u8];
        let m = parse_usize(parts[1]).unwrap();
        let i = parse_usize(parts[2]).unwrap();
        let l = parse_usize(parts[3]).unwrap();
        let o = parse_usize(parts[4]).unwrap();
        let a = parse_usize(parts[5]).unwrap();
        if i + l + a > usize::MAX {
            Err(AigerError::HeaderOverflow)
        } else if m < i + l + a {
            Err(AigerError::MaxVarTooSmall)
        } else if !is_ascii && m != i + l + a {
            Err(AigerError::BinaryMaxVarMismatch)
        } else {
            Ok(
                (
                    AigerHeader {
                        is_ascii,
                        max_var: m,
                        num_inputs: i,
                        num_latches: l,
                        num_outputs: o,
                        num_and_gates: a,
                    },
                    line_end(data, pos),
                ),
            )
        }
    }
}

/// Law: a header line `aag M I L O A` or `aig M I L O A` with six numbers
/// and `I + L + A <= M` is accepted with exactly those numbers, where only
/// the binary tag `aig` also needs `M == I + L + A`; a header that is
/// accepted has that form.
pub proof fn lemma_header_fields(data: Seq<u8>, pos: int)
    ensures
        ({
            let line = line_at(data, pos);
            let t = tokens(line);
            let ascii_tag = seq![97u8, 97u8, 103u8];
            let binary_tag = seq![97u8, 105u8, 103u8];
            let well_formed = {
                &&& vstd::utf8::valid_utf8(line)
                &&& t.len() == 6
                &&& (t[0] == ascii_tag || t[0] == binary_tag)
                &&& forall|j: int| 1 <= j < 6 ==> (#[trigger] parse_usize(t[j])) is Some
            };
            let m = parse_usize(t[1])->Some_0;
            let i = parse_usize(t[2])->Some_0;
            let l = parse_usize(t[3])->Some_0;
            let o = parse_usize(t[4])->Some_0;
            let a = parse_usize(t[5])->Some_0;
            &&& (well_formed && i + l + a <= m && (t[0] == binary_tag ==> m == i + l + a)) ==> spec_header(
                data,
                pos,
            ) == Ok::<(AigerHeader, int), AigerError>(
                (
                    AigerHeader {
                        is_ascii: t[0] == ascii_tag,
                        max_var: m,
                        num_inputs: i,
                        num_latches: l,
                        num_outputs: o,
                        num_and_gates: a,
                    },
                    line_end(data, pos),
                ),
            )
            &&& spec_header(data, pos) is Ok ==> (well_formed && i + l + a <= m && (t[0] == binary_tag
                ==> m == i + l + a))
        }),
{
    let t = tokens(line_at(data, pos));
    if t.len() == 6 {
        assert(parse_usize(t[1]) is Some || !(parse_usize(t[1]) is Some));
        if spec_header(data, pos) is Ok {
            assert forall|j: int| 1 <= j < 6 implies (#[trigger] parse_usize(t[j])) is Some by {
                if j == 1 {
                } else if j == 2 {
                } else if j == 3 {
                } else if j == 4 {
                } else {
                }
            }
        }
        let ok = forall|j: int| 1 <= j < 6 ==> (#[trigger] parse_usize(t[j])) is Some;
        if ok {
            assert(parse_usize(t[1]) is Some);
            assert(parse_usize(t[2]) is Some);
            assert(parse_usize(t[3]) is Some);
            assert(parse_usize(t[4]) is Some);
            assert(parse_usize(t[5]) is Some);
        }
    }
}

/// Reads a line as text: the line, or `InvalidUtf8`.
fn read_text_line(reader: &mut ByteReader) -> (r: Result<Vec<u8>, AigerError>)
    ensures
        final(reader)@.data == old(reader)@.data,
        final(reader)@.pos == line_end(old(reader)@.data, old(reader)@.pos),
        match r {
            Ok(line) => line@ == line_at(old(reader)@.data, old(reader)@.pos) && vstd::utf8::valid_utf8(line@),
            Err(e) => e == AigerError::InvalidUtf8 && !vstd::utf8::valid_utf8(
                line_at(old(reader)@.data, old(reader)@.pos),
            ),
        },
{
    let line = reader.read_line();
    if !is_valid_utf8(line.as_slice()) {
        return Err(AigerError::InvalidUtf8);
    }
    Ok(line)
}

fn is_tag(t: &Vec<u8>, c: u8) -> (b: bool)
    ensures
        b == (t@ == seq![97u8, c, 103u8]),
{
    let r = t.len() == 3 && t[0] == 97 && t[1] == c && t[2] == 103;
    if r {
        assert(t@ =~= seq![97u8, c, 103u8]);
    }
    r
}

/// Reads and checks the header line `aag|aig M I L O A`.
pub fn verify_aiger_header(reader: &mut ByteReader) -> (r: Result<AigerHeader, AigerError>)
    ensures
        final(reader)@.data == old(reader)@.data,
        final(reader)@.pos == line_end(old(reader)@.data, old(reader)@.pos),
        match spec_header(old(reader)@.data, old(reader)@.pos) {
            Ok((h, p)) => r == Ok::<AigerHeader, AigerError>(h) && final(reader)@.pos == p,
            Err(e) => r == Err::<AigerHeader, AigerError>(e),
        },
{
    let line = read_text_line(reader)?;
    let parts = split_whitespace(line.as_slice());
    assert(parts@.len() == tokens(line@).len());
    if parts.len() != 6 {
        return Err(AigerError::HeaderFormat);
    }
    assert forall|k: int| 0 <= k < 6 implies parts@[k]@ == tokens(line@)[k] by {
        assert(parts@.map_values(|t: Vec<u8>| t@)[k] == parts@[k]@);
    }
    let is_ascii = if is_tag(&parts[0], 97) {
        true
    } else if is_tag(&parts[0], 105) {
        false
    } else {
        return Err(AigerError::InvalidTag);
    };
    let max_var = match parse_usize_bytes(parts[1].as_slice()) {
        Some(n) => n,
        None => return Err(AigerError::InvalidNumber),
    };
    let num_inputs = match parse_usize_bytes(parts[2].as_slice()) {
        Some(n) => n,
        None => return Err(AigerError::InvalidNumber),
    };
    let num_latches = match parse_usize_bytes(parts[3].as_slice()) {
        Some(n) => n,
        None => return Err(AigerError::InvalidNumber),
    };
    let num_outputs = match parse_usize_bytes(parts[4].as_slice()) {
        Some(n) => n,
        None => return Err(AigerError::InvalidNumber),
    };
    let num_and_gates = match parse_usize_bytes(parts[5].as_slice()) {
        Some(n) => n,
        None => return Err(AigerError::InvalidNumber),
    };
    if num_inputs > usize::MAX - num_latches || num_inputs + num_latches > usize::MAX - num_and_gates {
        return Err(AigerError::HeaderOverflow);
    }
    let expected_max_var = num_inputs + num_latches + num_and_gates;
    if max_var < expected_max_var {
        return Err(AigerError::MaxVarTooSmall);
    }
    if max_var != expected_max_var && !is_ascii {
        return Err(AigerError::BinaryMaxVarMismatch);
    }
    Ok(AigerHeader { is_ascii, max_var, num_inputs, num_latches, num_outputs, num_and_gates })
}

/// The number on the line at `pos`, and the position after the line.
pub open spec fn spec_number_line(data: Seq<u8>, pos: int) -> Result<(usize, int), AigerError> {
    let line = line_at(data, pos);
    if !vstd::utf8::valid_utf8(line) {
        Err(AigerError::InvalidUtf8)
    } else if line.len() == 0 {
        Err(AigerError::EmptyLine)
    } else {
        match parse_usize(trim(line)) {
            Some(n) => Ok((n, line_end(data, pos))),
            None => Err(AigerError::InvalidNumber),
        }
    }
}

/// Reads a line that holds one number (surrounding whitespace allowed).
pub fn read_one_number_line(reader: &mut ByteReader) -> (r: Result<usize, AigerError>)
    ensures
        final(reader)@.data == old(reader)@.data,
        final(reader)@.pos == line_end(old(reader)@.data, old(reader)@.pos),
        match spec_number_line(old(reader)@.data, old(reader)@.pos) {
            Ok((n, p)) => r == Ok::<usize, AigerError>(n) && final(reader)@.pos == p,
            Err(e) => r == Err::<usize, AigerError>(e),
        },
{
    let line = read_text_line(reader)?;
    if line.len() == 0 {
        return Err(AigerError::EmptyLine);
    }
    let trimmed = trim_bytes(line.as_slice());
    match parse_usize_bytes(trimmed.as_slice()) {
        Some(n) => Ok(n),
        None => Err(AigerError::InvalidNumber),
    }
}

} // verus!

verus! {

/// Applies `step` `n` times, stopping at the first error.
pub open spec fn repeat<S, E>(step: spec_fn(S) -> Result<S, E>, st: S, n: nat) -> Result<S, E>
    decreases n,
{
    if n == 0 {
        Ok(st)
    } else {
        match step(st) {
            Ok(s2) => repeat(step, s2, (n - 1) as nat),
            Err(e) => Err(e),
        }
    }
}

/// A property that every successful step keeps holds after `n` steps.
pub proof fn lemma_repeat_inv<S, E>(step: spec_fn(S) -> Result<S, E>, inv: spec_fn(S) -> bool, st: S, n: nat)
    requires
        inv(st),
        forall|s: S| inv(s) && (#[trigger] step(s)) is Ok ==> inv(step(s)->Ok_0),
        repeat(step, st, n) is Ok,
    ensures
        inv(repeat(step, st, n)->Ok_0),
    decreases n,
{
    if n > 0 {
        lemma_repeat_inv(step, inv, step(st)->Ok_0, (n - 1) as nat);
    }
}

/// A relation between two states, kept by the second step whenever the
/// first one succeeds, holds after `n` steps of both; the second run
/// succeeds whenever the first does.
pub proof fn lemma_repeat_rel<S, E>(
    step1: spec_fn(S) -> Result<S, E>,
    step2: spec_fn(S) -> Result<S, E>,
    rel: spec_fn(S, S) -> bool,
    s1: S,
    s2: S,
    n: nat,
)
    requires
        rel(s1, s2),
        forall|a: S, b: S|
            rel(a, b) && (#[trigger] step1(a)) is Ok ==> (#[trigger] step2(b)) is Ok && rel(
                step1(a)->Ok_0,
                step2(b)->Ok_0,
            ),
        repeat(step1, s1, n) is Ok,
    ensures
        repeat(step2, s2, n) is Ok,
        rel(repeat(step1, s1, n)->Ok_0, repeat(step2, s2, n)->Ok_0),
    decreases n,
{
    if n > 0 {
        lemma_repeat_rel(step1, step2, rel, step1(s1)->Ok_0, step2(s2)->Ok_0, (n - 1) as nat);
    }
}

/// The literal table after recording that AIGER literal `lit` is the signal
/// `id` (an odd literal records the inversion of `id` for its even partner).
pub open spec fn lits_add(l: Seq<Option<NodeId>>, lit: usize, id: NodeId) -> Seq<Option<NodeId>> {
    let l2 = if lit >= l.len() {
        l + Seq::new((lit + 1 - l.len()) as nat, |i: int| None::<NodeId>)
    } else {
        l
    };
    if lit % 2 == 0 {
        l2.update(lit as int, Some(id))
    } else {
        l2.update(lit - 1, Some(id.spec_invert()))
    }
}

/// The signal of AIGER literal `lit`, when its even partner is recorded.
pub open spec fn lits_get(l: Seq<Option<NodeId>>, lit: usize) -> Option<NodeId> {
    let r = lit - lit % 2;
    if r < l.len() && l[r] is Some {
        if lit % 2 == 1 {
            Some(l[r].unwrap().spec_invert())
        } else {
            l[r]
        }
    } else {
        None
    }
}

/// The literal table at the start: literal 0 is false and 1 is true.
pub open spec fn lits_initial() -> Seq<Option<NodeId>> {
    seq![Some(NodeId::from_val(0)), Some(NodeId::from_val(1))]
}

/// A mapping from AIGER literal indices to our internal `NodeId`s.
struct Literals(Vec<Option<NodeId>>);

impl View for Literals {
    type V = Seq<Option<NodeId>>;

    closed spec fn view(&self) -> Seq<Option<NodeId>> {
        self.0@
    }
}

impl Literals {
    fn new() -> (r: Self)
        ensures
            r@ == lits_initial(),
    {
        let map = vec![Some(NodeId::false_id()), Some(NodeId::true_id())];
        let r = Self(map);
        assert(r@ =~= lits_initial());
        r
    }

    /// Record that a given AIGER literal corresponds to a given fresh `NodeId`.
    fn add(&mut self, literal: usize, id: NodeId)
        requires
            literal < usize::MAX,
        ensures
            final(self)@ == lits_add(old(self)@, literal, id),
    {
        let ghost target = if literal >= old(self)@.len() {
            old(self)@ + Seq::new((literal + 1 - old(self)@.len()) as nat, |i: int| None::<NodeId>)
        } else {
            old(self)@
        };
        if literal >= self.0.len() {
            while self.0.len() < literal + 1
                invariant
                    literal < usize::MAX,
                    literal >= old(self)@.len(),
                    old(self)@.len() <= self.0@.len() <= literal + 1,
                    target == old(self)@ + Seq::new((literal + 1 - old(self)@.len()) as nat, |i: int| None::<NodeId>),
                    self.0@ == target.subrange(0, self.0@.len() as int),
                decreases literal + 1 - self.0@.len(),
            {
                self.0.push(None);
                assert(self.0@ =~= target.subrange(0, self.0@.len() as int));
            }
            assert(self.0@ =~= target);
        }
        if literal % 2 == 0 {
            self.0.set(literal, Some(id));
        } else {
            self.0.set(literal - 1, Some(id.invert()));
        }
    }

    /// Get the `NodeId` corresponding to a given AIGER literal, if known.
    fn get(&self, literal: usize) -> (r: Option<NodeId>)
        ensures
            r == lits_get(self@, literal),
    {
        let regular_lit = literal - literal % 2;
        let is_inverted = literal % 2 == 1;
        if regular_lit >= self.0.len() {
            return None;
        }
        match self.0[regular_lit] {
            Some(regular_node) => {
                if is_inverted {
                    Some(regular_node.invert())
                } else {
                    Some(regular_node)
                }
            },
            None => None,
        }
    }
}

} // verus!

verus! {

/// Every recorded literal names a constant or a stored node of `g`.
pub open spec fn lits_valid(l: Seq<Option<NodeId>>, g: GraphView) -> bool {
    forall|k: int| 0 <= k < l.len() && (#[trigger] l[k]) is Some ==> g.valid_signal(l[k].unwrap())
}

pub proof fn lemma_invert_valid(g: GraphView, id: NodeId)
    requires
        g.valid_signal(id),
    ensures
        g.valid_signal(id.spec_invert()),
{
}

pub proof fn lemma_lits_add_valid(l: Seq<Option<NodeId>>, lit: usize, id: NodeId, g: GraphView)
    requires
        lits_valid(l, g),
        g.valid_signal(id),
    ensures
        lits_valid(lits_add(l, lit, id), g),
{
    lemma_invert_valid(g, id);
    let l2 = if lit >= l.len() {
        l + Seq::new((lit + 1 - l.len()) as nat, |i: int| None::<NodeId>)
    } else {
        l
    };
    assert(lits_valid(l2, g)) by {
        assert forall|k: int| 0 <= k < l2.len() && (#[trigger] l2[k]) is Some implies g.valid_signal(l2[k].unwrap()) by {
            if k < l.len() {
                assert(l2[k] == l[k]);
            }
        }
    }
}

pub proof fn lemma_lits_get_valid(l: Seq<Option<NodeId>>, lit: usize, g: GraphView)
    requires
        lits_valid(l, g),
        lits_get(l, lit) is Some,
    ensures
        g.valid_signal(lits_get(l, lit).unwrap()),
{
    let r = lit - lit % 2;
    assert(l[r] is Some);
    lemma_invert_valid(g, l[r].unwrap());
}

pub proof fn lemma_lits_valid_extend(l: Seq<Option<NodeId>>, g: GraphView, g2: GraphView)
    requires
        lits_valid(l, g),
        g.nodes.len() <= g2.nodes.len(),
    ensures
        lits_valid(l, g2),
{
}

} // verus!

verus! {

/// Applies `step(_, k)` for `k` from `i` up to `n`, stopping at the first
/// error.
pub open spec fn repeat_indexed<S>(step: spec_fn(S, nat) -> Result<S, AigerError>, st: S, i: nat, n: nat) -> Result<
    S,
    AigerError,
>
    decreases n - i,
{
    if i >= n {
        Ok(st)
    } else {
        match step(st, i) {
            Ok(s2) => repeat_indexed(step, s2, i + 1, n),
            Err(e) => Err(e),
        }
    }
}

/// A property that every successful step keeps holds after the steps from
/// `i` up to `n`.
pub proof fn lemma_repeat_indexed_inv<S>(
    step: spec_fn(S, nat) -> Result<S, AigerError>,
    inv: spec_fn(S) -> bool,
    st: S,
    i: nat,
    n: nat,
)
    requires
        inv(st),
        forall|s: S, k: nat| inv(s) && (#[trigger] step(s, k)) is Ok ==> inv(step(s, k)->Ok_0),
        repeat_indexed(step, st, i, n) is Ok,
    ensures
        inv(repeat_indexed(step, st, i, n)->Ok_0),
    decreases n - i,
{
    if i < n {
        lemma_repeat_indexed_inv(step, inv, step(st, i)->Ok_0, i + 1, n);
    }
}

/// A relation between two states, kept by the second step whenever the
/// first one succeeds, holds after the steps from `i` up to `n` of both; the
/// second run succeeds whenever the first does.
pub proof fn lemma_repeat_indexed_rel<S>(
    step1: spec_fn(S, nat) -> Result<S, AigerError>,
    step2: spec_fn(S, nat) -> Result<S, AigerError>,
    rel: spec_fn(S, S) -> bool,
    s1: S,
    s2: S,
    i: nat,
    n: nat,
)
    requires
        rel(s1, s2),
        forall|a: S, b: S, k: nat|
            rel(a, b) && (#[trigger] step1(a, k)) is Ok ==> (#[trigger] step2(b, k)) is Ok && rel(
                step1(a, k)->Ok_0,
                step2(b, k)->Ok_0,
            ),
        repeat_indexed(step1, s1, i, n) is Ok,
    ensures
        repeat_indexed(step2, s2, i, n) is Ok,
        rel(repeat_indexed(step1, s1, i, n)->Ok_0, repeat_indexed(step2, s2, i, n)->Ok_0),
    decreases n - i,
{
    if i < n {
        lemma_repeat_indexed_rel(step1, step2, rel, step1(s1, i)->Ok_0, step2(s2, i)->Ok_0, i + 1, n);
    }
}

/// The signal of literal `lit` in a table keyed by literal: the entry for
/// `lit` itself, or else the (inverted, for odd `lit`) entry of its even
/// partner.
pub open spec fn spec_lookup(m: Map<usize, NodeId>, lit: usize) -> Option<NodeId> {
    if m.contains_key(lit) {
        Some(m[lit])
    } else {
        let r = (lit - lit % 2) as usize;
        if m.contains_key(r) {
            if lit % 2 == 1 {
                Some(m[r].spec_invert())
            } else {
                Some(m[r])
            }
        } else {
            None
        }
    }
}

/// Looks up the signal of an AIGER literal; `UndefinedLiteral` when neither
/// it nor its even partner is recorded.
fn lookup_aiger_literal(aiger_lit: usize, lit_to_node: &HashMap<usize, NodeId>) -> (r: Result<NodeId, AigerError>)
    ensures
        match spec_lookup(lit_to_node@, aiger_lit) {
            Some(id) => r == Ok::<NodeId, AigerError>(id),
            None => r == Err::<NodeId, AigerError>(AigerError::UndefinedLiteral),
        },
{
    broadcast use vstd::std_specs::hash::group_hash_axioms;

    if let Some(node_id) = lit_to_node.get(&aiger_lit) {
        return Ok(*node_id);
    }
    let regular_lit = aiger_lit - aiger_lit % 2;
    let is_inverted = aiger_lit % 2 == 1;
    let regular_node = match lit_to_node.get(&regular_lit) {
        Some(n) => *n,
        None => return Err(AigerError::UndefinedLiteral),
    };
    if is_inverted {
        Ok(regular_node.invert())
    } else {
        Ok(regular_node)
    }
}

/// Every recorded literal of `m` names a constant or a stored node of `g`.
pub open spec fn map_valid(m: Map<usize, NodeId>, g: GraphView) -> bool {
    forall|k: usize| #[trigger] m.contains_key(k) ==> g.valid_signal(m[k])
}

pub proof fn lemma_lookup_valid(m: Map<usize, NodeId>, lit: usize, g: GraphView)
    requires
        map_valid(m, g),
        spec_lookup(m, lit) is Some,
    ensures
        g.valid_signal(spec_lookup(m, lit).unwrap()),
{
    if !m.contains_key(lit) {
        let r = (lit - lit % 2) as usize;
        lemma_invert_valid(g, m[r]);
    }
}

} // verus!

verus! {

/// The graph that the AIGER data at `pos` describes: the header, then an
/// ASCII or a binary body.
pub open spec fn spec_run_parser(data: Seq<u8>, pos: int, pre_optimize: bool) -> Result<GraphView, AigerError> {
    match spec_header(data, pos) {
        Err(e) => Err(e),
        Ok((h, p)) => {
            let body = if h.is_ascii {
                ascii_parser::spec_parse_ascii(data, p, h, pre_optimize)
            } else {
                binary_parser::spec_parse_binary(data, p, h, pre_optimize)
            };
            match body {
                Err(e) => Err(e),
                Ok((g, _)) => Ok(g),
            }
        },
    }
}

/// Where reading the AIGER data at `pos` ends when it succeeds: after the
/// last AND gate.
pub open spec fn spec_run_parser_end(data: Seq<u8>, pos: int, pre_optimize: bool) -> int {
    let (h, p) = spec_header(data, pos)->Ok_0;
    if h.is_ascii {
        ascii_parser::spec_parse_ascii(data, p, h, pre_optimize)->Ok_0.1
    } else {
        binary_parser::spec_parse_binary(data, p, h, pre_optimize)->Ok_0.1
    }
}

/// Reads an ASCII (`aag`) or binary (`aig`) AIGER file into a graph,
/// optionally simplifying and sharing AND gates while building it.
pub fn run_parser_with_options(reader: &mut ByteReader, pre_optimize: bool) -> (r: Result<AigGraph, AigerError>)
    ensures
        match spec_run_parser(old(reader)@.data, old(reader)@.pos, pre_optimize) {
            Ok(g) => r matches Ok(graph) && graph@ == g,
            Err(e) => r == Err::<AigGraph, AigerError>(e),
        },
        r matches Ok(graph) ==> graph@.wf(),
        final(reader)@.data == old(reader)@.data,
        r is Ok ==> final(reader)@.pos == spec_run_parser_end(old(reader)@.data, old(reader)@.pos, pre_optimize),
{
    let header: AigerHeader = verify_aiger_header(reader)?;
    let graph: AigGraph = if header.is_ascii {
        ascii_parser::parse_ascii_aiger_into_graph(header, reader, pre_optimize)?
    } else {
        binary_parser::parse_binary_aiger_into_graph(header, reader, pre_optimize)?
    };
    Ok(graph)
}

} // verus!
