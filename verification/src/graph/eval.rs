use super::{spec_and_key, spec_and_optimized, AigGraph, AigNode, BuilderView, GraphView, NodeId};
use std::collections::HashMap;
use vstd::prelude::*;

verus! {

broadcast use super::group_aig;

pub type Value = usize;

/// Values given to nodes: a map from signals to values.
pub struct Env {
    values: HashMap<u32, Value>,
}

impl View for Env {
    type V = Map<NodeId, Value>;

    closed spec fn view(&self) -> Map<NodeId, Value> {
        Map::new(
            |id: NodeId| self.values@.contains_key(id.val()),
            |id: NodeId| self.values@[id.val()],
        )
    }
}

impl Env {
    pub fn new() -> (r: Env)
        ensures
            r@ == Map::<NodeId, Value>::empty(),
    {
        let r = Env { values: HashMap::new() };
        assert(r@ =~= Map::<NodeId, Value>::empty());
        r
    }

    pub fn with_capacity(capacity: usize) -> (r: Env)
        ensures
            r@ == Map::<NodeId, Value>::empty(),
    {
        let r = Env { values: HashMap::with_capacity(capacity) };
        assert(r@ =~= Map::<NodeId, Value>::empty());
        r
    }

    pub fn insert(&mut self, id: NodeId, value: Value)
        ensures
            final(self)@ == old(self)@.insert(id, value),
    {
        broadcast use vstd::std_specs::hash::group_hash_axioms;

        self.values.insert(id.0, value);
        assert(self@ =~= old(self)@.insert(id, value));
    }

    pub fn get(&self, id: NodeId) -> (r: Option<Value>)
        ensures
            r == (if self@.contains_key(id) {
                Some(self@[id])
            } else {
                None
            }),
    {
        broadcast use vstd::std_specs::hash::group_hash_axioms;

        match self.values.get(&id.0) {
            Some(v) => Some(*v),
            None => None,
        }
    }

    pub fn clear(&mut self)
        ensures
            final(self)@ == Map::<NodeId, Value>::empty(),
    {
        self.values.clear();
        assert(self@ =~= Map::<NodeId, Value>::empty());
    }
}

/// The value of signal `id` when at most `fuel` nested evaluations are
/// allowed, or `None` when the evaluation does not succeed within it.
pub open spec fn eval_fuel(g: GraphView, id: NodeId, env: Map<NodeId, Value>, fuel: nat) -> Option<
    Value,
>
    decreases fuel,
{
    if id.is_false() {
        Some(0usize)
    } else if id.is_true() {
        Some(usize::MAX)
    } else if fuel == 0 {
        None
    } else if id.is_inverted() {
        match eval_fuel(g, id.spec_regular(), env, (fuel - 1) as nat) {
            Some(v) => Some(!v),
            None => None,
        }
    } else if !g.has_node(id) {
        None
    } else if env.contains_key(id) {
        Some(env[id])
    } else if !g.node_of(id).is_and() {
        None
    } else {
        match (
            eval_fuel(g, g.node_of(id).spec_left(), env, (fuel - 1) as nat),
            eval_fuel(g, g.node_of(id).spec_right(), env, (fuel - 1) as nat),
        ) {
            (Some(a), Some(b)) => Some(a & b),
            _ => None,
        }
    }
}

/// Evaluating `id` succeeds: every node it reaches is stored, and every
/// reached node that is not an AND gate has a value in `env`.
pub open spec fn defined(g: GraphView, id: NodeId, env: Map<NodeId, Value>) -> bool {
    exists|fuel: nat| #[trigger] eval_fuel(g, id, env, fuel) is Some
}

/// The value of `id` under `env` (meaningful when `defined`).
pub open spec fn spec_eval(g: GraphView, id: NodeId, env: Map<NodeId, Value>) -> Value {
    eval_fuel(g, id, env, choose|fuel: nat| #[trigger] eval_fuel(g, id, env, fuel) is Some).unwrap()
}

/// More fuel does not change a successful evaluation.
pub proof fn lemma_eval_fuel_mono(g: GraphView, id: NodeId, env: Map<NodeId, Value>, f1: nat, f2: nat)
    requires
        f1 <= f2,
        eval_fuel(g, id, env, f1) is Some,
    ensures
        eval_fuel(g, id, env, f2) == eval_fuel(g, id, env, f1),
    decreases f1,
{
    if id.is_false() || id.is_true() || f1 == 0 {
    } else if id.is_inverted() {
        lemma_eval_fuel_mono(g, id.spec_regular(), env, (f1 - 1) as nat, (f2 - 1) as nat);
    } else if g.has_node(id) && !env.contains_key(id) && g.node_of(id).is_and() {
        lemma_eval_fuel_mono(g, g.node_of(id).spec_left(), env, (f1 - 1) as nat, (f2 - 1) as nat);
        lemma_eval_fuel_mono(g, g.node_of(id).spec_right(), env, (f1 - 1) as nat, (f2 - 1) as nat);
    }
}

/// A successful evaluation with any fuel gives `spec_eval`.
pub proof fn lemma_eval_fuel_spec(g: GraphView, id: NodeId, env: Map<NodeId, Value>, f: nat)
    requires
        eval_fuel(g, id, env, f) is Some,
    ensures
        defined(g, id, env),
        spec_eval(g, id, env) == eval_fuel(g, id, env, f).unwrap(),
{
    let c = choose|fuel: nat| #[trigger] eval_fuel(g, id, env, fuel) is Some;
    if c <= f {
        lemma_eval_fuel_mono(g, id, env, c, f);
    } else {
        lemma_eval_fuel_mono(g, id, env, f, c);
    }
}

/// `env` gives values to no AND gate of `g`.
pub open spec fn env_skips_ands(g: GraphView, env: Map<NodeId, Value>) -> bool {
    forall|x: NodeId| #[trigger] env.contains_key(x) && g.has_node(x) ==> !g.node_of(x).is_and()
}

/// Appending nodes to a graph keeps the value of every signal that could be
/// evaluated before.
pub proof fn lemma_eval_extend(g: GraphView, g2: GraphView, id: NodeId, env: Map<NodeId, Value>, f: nat)
    requires
        g.nodes.len() <= g2.nodes.len(),
        forall|i: int| 0 <= i < g.nodes.len() ==> g2.nodes[i] == g.nodes[i],
        eval_fuel(g, id, env, f) is Some,
    ensures
        eval_fuel(g2, id, env, f) == eval_fuel(g, id, env, f),
    decreases f,
{
    if id.is_false() || id.is_true() || f == 0 {
    } else if id.is_inverted() {
        lemma_eval_extend(g, g2, id.spec_regular(), env, (f - 1) as nat);
    } else {
        assert(g2.nodes[id.spec_index()] == g.nodes[id.spec_index()]);
        if !env.contains_key(id) && g.node_of(id).is_and() {
            lemma_eval_extend(g, g2, g.node_of(id).spec_left(), env, (f - 1) as nat);
            lemma_eval_extend(g, g2, g.node_of(id).spec_right(), env, (f - 1) as nat);
        }
    }
}

/// `defined` and `spec_eval` carry over to an extended graph.
pub proof fn lemma_defined_extend(g: GraphView, g2: GraphView, id: NodeId, env: Map<NodeId, Value>)
    requires
        g.nodes.len() <= g2.nodes.len(),
        forall|i: int| 0 <= i < g.nodes.len() ==> g2.nodes[i] == g.nodes[i],
        defined(g, id, env),
    ensures
        defined(g2, id, env),
        spec_eval(g2, id, env) == spec_eval(g, id, env),
{
    let f = choose|fuel: nat| #[trigger] eval_fuel(g, id, env, fuel) is Some;
    lemma_eval_extend(g, g2, id, env, f);
    lemma_eval_fuel_spec(g, id, env, f);
    lemma_eval_fuel_spec(g2, id, env, f);
}

/// Law: the value of a stored AND node without a value in `env` is the
/// bitwise AND of its children's values (when both can be evaluated).
pub proof fn lemma_eval_and_node(g: GraphView, id: NodeId, env: Map<NodeId, Value>)
    requires
        g.has_node(id),
        !id.is_inverted(),
        !env.contains_key(id),
        g.node_of(id).is_and(),
        defined(g, g.node_of(id).spec_left(), env),
        defined(g, g.node_of(id).spec_right(), env),
    ensures
        defined(g, id, env),
        spec_eval(g, id, env) == spec_eval(g, g.node_of(id).spec_left(), env) & spec_eval(
            g,
            g.node_of(id).spec_right(),
            env,
        ),
{
    let l = g.node_of(id).spec_left();
    let r = g.node_of(id).spec_right();
    let fl = choose|fuel: nat| #[trigger] eval_fuel(g, l, env, fuel) is Some;
    let fr = choose|fuel: nat| #[trigger] eval_fuel(g, r, env, fuel) is Some;
    let f: nat = if fl <= fr { fr } else { fl };
    lemma_eval_fuel_mono(g, l, env, fl, f);
    lemma_eval_fuel_mono(g, r, env, fr, f);
    lemma_eval_fuel_spec(g, l, env, f);
    lemma_eval_fuel_spec(g, r, env, f);
    assert(eval_fuel(g, id, env, f + 1) is Some);
    lemma_eval_fuel_spec(g, id, env, f + 1);
}

/// Law: inverting a signal complements its value (for every signal whose
/// evaluation succeeds).
pub proof fn lemma_eval_invert(g: GraphView, id: NodeId, env: Map<NodeId, Value>)
    requires
        defined(g, id, env),
    ensures
        defined(g, id.spec_invert(), env),
        spec_eval(g, id.spec_invert(), env) == !spec_eval(g, id, env),
{
    let a = spec_eval(g, id, env);
    assert(!!a == a) by (bit_vector);
    lemma_usize_max_all_ones();
    if id.is_const() {
        crate::graph::lemma_invert_laws(id);
        assert(eval_fuel(g, id, env, 0) is Some);
        lemma_eval_fuel_spec(g, id, env, 0);
        assert(eval_fuel(g, id.spec_invert(), env, 0) is Some);
        lemma_eval_fuel_spec(g, id.spec_invert(), env, 0);
        assert(!0usize == usize::MAX);
        assert(!usize::MAX == 0usize) by {
            assert(!!0usize == 0usize) by (bit_vector);
        }
        return;
    }
    let f = choose|fuel: nat| #[trigger] eval_fuel(g, id, env, fuel) is Some;
    lemma_eval_fuel_spec(g, id, env, f);
    let x = id.spec_invert();
    if id.is_inverted() {
        // id = !x with x regular
        assert(x == id.spec_regular());
        assert(f > 0);
        assert(eval_fuel(g, x, env, (f - 1) as nat) is Some);
        lemma_eval_fuel_spec(g, x, env, (f - 1) as nat);
        let b = spec_eval(g, x, env);
        assert(!!b == b) by (bit_vector);
    } else {
        assert(x.spec_regular() == id);
        assert(eval_fuel(g, x, env, f + 1) is Some);
        lemma_eval_fuel_spec(g, x, env, f + 1);
    }
}

/// Law: false evaluates to all zeros and true to all ones.
pub proof fn lemma_eval_constants(g: GraphView, env: Map<NodeId, Value>)
    ensures
        defined(g, NodeId::from_val(0), env),
        spec_eval(g, NodeId::from_val(0), env) == 0,
        defined(g, NodeId::from_val(1), env),
        spec_eval(g, NodeId::from_val(1), env) == usize::MAX,
{
    assert(eval_fuel(g, NodeId::from_val(0), env, 0) is Some);
    lemma_eval_fuel_spec(g, NodeId::from_val(0), env, 0);
    assert(eval_fuel(g, NodeId::from_val(1), env, 0) is Some);
    lemma_eval_fuel_spec(g, NodeId::from_val(1), env, 0);
}

/// Law: the node that `add_and_raw` adds computes the AND of its operands,
/// under every `env` that gives it no value of its own.
pub proof fn lemma_and_raw_computes_and(b: BuilderView, left: NodeId, right: NodeId, env: Map<NodeId, Value>)
    requires
        b.graph.nodes.len() <= super::MAX_GRAPH_INDEX,
        !left.is_marker(),
        defined(b.graph, left, env),
        defined(b.graph, right, env),
        !env.contains_key(super::spec_add_and_raw(b, left, right).1),
    ensures
        ({
            let (b2, id) = super::spec_add_and_raw(b, left, right);
            &&& defined(b2.graph, id, env)
            &&& spec_eval(b2.graph, id, env) == spec_eval(b.graph, left, env) & spec_eval(
                b.graph,
                right,
                env,
            )
        }),
{
    let (b2, id) = super::spec_add_and_raw(b, left, right);
    super::lemma_index_roundtrip(b.graph.nodes.len() as int, id);
    lemma_defined_extend(b.graph, b2.graph, left, env);
    lemma_defined_extend(b.graph, b2.graph, right, env);
    assert(b2.graph.nodes[b.graph.nodes.len() as int] == AigNode::from_parts(left, right));
    lemma_eval_and_node(b2.graph, id, env);
}

proof fn lemma_usize_max_all_ones()
    ensures
        usize::MAX == !0usize,
{
    assert(usize::BITS == 32 ==> (!0usize) as u128 == 0xFFFF_FFFFu128) by (bit_vector);
    assert(usize::BITS == 64 ==> (!0usize) as u128 == 0xFFFF_FFFF_FFFF_FFFFu128) by (bit_vector);
}

proof fn lemma_bits(a: usize, b: usize)
    ensures
        a & 0usize == 0usize,
        0usize & a == 0usize,
        a & usize::MAX == a,
        usize::MAX & a == a,
        a & a == a,
        a & !a == 0usize,
        !a & a == 0usize,
        a & b == b & a,
{
    assert(a & 0usize == 0usize) by (bit_vector);
    assert(0usize & a == 0usize) by (bit_vector);
    lemma_usize_max_all_ones();
    assert(a & !0usize == a) by (bit_vector);
    assert(!0usize & a == a) by (bit_vector);
    assert(a & a == a) by (bit_vector);
    assert(a & !a == 0usize) by (bit_vector);
    assert(!a & a == 0usize) by (bit_vector);
    assert(a & b == b & a) by (bit_vector);
}

/// Law: the signal that `add_and_optimized` returns computes the AND of its
/// two operands, under every assignment of values to inputs and latches
/// (that is, every `env` that gives no value to an AND gate).
pub proof fn lemma_and_optimized_computes_and(
    b: BuilderView,
    left: NodeId,
    right: NodeId,
    env: Map<NodeId, Value>,
)
    requires
        b.wf(),
        b.graph.nodes.len() <= super::MAX_GRAPH_INDEX || !super::and_optimized_pushes(b, left, right),
        b.graph.valid_signal(left),
        b.graph.valid_signal(right),
        defined(b.graph, left, env),
        defined(b.graph, right, env),
        env_skips_ands(spec_and_optimized(b, left, right).0.graph, env),
    ensures
        ({
            let (b2, id) = spec_and_optimized(b, left, right);
            &&& defined(b2.graph, id, env)
            &&& spec_eval(b2.graph, id, env) == spec_eval(b.graph, left, env) & spec_eval(
                b.graph,
                right,
                env,
            )
        }),
{
    let (b2, id) = spec_and_optimized(b, left, right);
    let g = b.graph;
    let vl = spec_eval(g, left, env);
    let vr = spec_eval(g, right, env);
    lemma_bits(vl, vr);
    lemma_bits(vr, vl);
    if left.is_false() || right.is_false() {
        assert(eval_fuel(g, id, env, 0) is Some);
        lemma_eval_fuel_spec(g, id, env, 0);
        let fl = choose|fuel: nat| #[trigger] eval_fuel(g, left, env, fuel) is Some;
        lemma_eval_fuel_spec(g, left, env, fl);
        let fr = choose|fuel: nat| #[trigger] eval_fuel(g, right, env, fuel) is Some;
        lemma_eval_fuel_spec(g, right, env, fr);
    } else if left.is_true() {
        let fl = choose|fuel: nat| #[trigger] eval_fuel(g, left, env, fuel) is Some;
        lemma_eval_fuel_spec(g, left, env, fl);
    } else if right.is_true() {
        let fr = choose|fuel: nat| #[trigger] eval_fuel(g, right, env, fuel) is Some;
        lemma_eval_fuel_spec(g, right, env, fr);
    } else if left == right {
    } else if left == right.spec_invert() {
        assert(eval_fuel(g, id, env, 0) is Some);
        lemma_eval_fuel_spec(g, id, env, 0);
        lemma_eval_invert(g, right, env);
        lemma_bits(vr, vl);
    } else {
        let (l, r) = if right.val() < left.val() {
            (right, left)
        } else {
            (left, right)
        };
        let key = spec_and_key(l, r);
        lemma_bits(spec_eval(g, l, env), spec_eval(g, r, env));
        if b.hash.contains_key(key) {
            let n = g.node_of(id);
            assert(spec_and_key(n.spec_left(), n.spec_right()) == key);
            assert(n.spec_left() == l && n.spec_right() == r) by {
                assert(l.val() < 0x1_0000_0000 && r.val() < 0x1_0000_0000);
                assert(n.spec_left().val() < 0x1_0000_0000 && n.spec_right().val() < 0x1_0000_0000);
            }
            lemma_eval_and_node(g, id, env);
        } else {
            let g2 = b2.graph;
            lemma_defined_extend(g, g2, left, env);
            lemma_defined_extend(g, g2, right, env);
            assert(g2.nodes[g.nodes.len() as int] == AigNode::from_parts(l, r));
            assert(g2.has_node(id));
            lemma_eval_and_node(g2, id, env);
        }
    }
}

impl AigGraph {
    fn eval_rec(&self, id: NodeId, values: &Env, Ghost(fuel): Ghost<nat>) -> (r: Value)
        requires
            eval_fuel(self@, id, values@, fuel) is Some,
        ensures
            r == eval_fuel(self@, id, values@, fuel).unwrap(),
        decreases fuel,
    {
        if id.is_false() {
            0
        } else if id.is_true() {
            Value::MAX
        } else if id.is_inverted() {
            !self.eval_rec(id.regular(), values, Ghost((fuel - 1) as nat))
        } else {
            let node = self.node_ref(id);
            match values.get(id) {
                Some(value) => value,
                None => {
                    let left = self.eval_rec(node.left(), values, Ghost((fuel - 1) as nat));
                    let right = self.eval_rec(node.right(), values, Ghost((fuel - 1) as nat));
                    left & right
                },
            }
        }
    }

    /// The value of signal `id`: constants give all zeros or all ones, an
    /// inverted signal the bitwise complement, a node with a value in
    /// `values` that value, and an AND gate the bitwise AND of its children.
    pub fn eval(&self, id: NodeId, values: &Env) -> (r: Value)
        requires
            defined(self@, id, values@),
        ensures
            r == spec_eval(self@, id, values@),
    {
        let ghost fuel = choose|fuel: nat| #[trigger] eval_fuel(self@, id, values@, fuel) is Some;
        self.eval_rec(id, values, Ghost(fuel))
    }
}

} // verus!

verus! {

/// A recursive description of `defined` for graphs whose AND gates refer
/// to earlier nodes only.
pub open spec fn def_rec(g: GraphView, x: NodeId, env: Map<NodeId, Value>) -> bool
    decreases
            (if x.is_const() || x.is_marker() {
                0
            } else {
                x.spec_index() + 1
            }),
            x.val() % 2,
{
    if x.is_const() {
        true
    } else if !g.has_node(x) {
        false
    } else if x.is_inverted() {
        def_rec(g, x.spec_regular(), env)
    } else if env.contains_key(x) {
        true
    } else if !g.node_of(x).is_and() {
        false
    } else {
        let n = g.node_of(x);
        let i = x.spec_index();
        &&& g.signal_below(n.spec_left(), i)
        &&& g.signal_below(n.spec_right(), i)
        &&& def_rec(g, n.spec_left(), env)
        &&& def_rec(g, n.spec_right(), env)
    }
}

proof fn lemma_def_rec_defined(g: GraphView, x: NodeId, env: Map<NodeId, Value>)
    requires
        def_rec(g, x, env),
    ensures
        defined(g, x, env),
    decreases
            (if x.is_const() || x.is_marker() {
                0
            } else {
                x.spec_index() + 1
            }),
            x.val() % 2,
{
    if x.is_const() {
        if x.is_false() {
            assert(eval_fuel(g, x, env, 0) is Some);
        } else {
            assert(eval_fuel(g, x, env, 0) is Some);
        }
    } else if x.is_inverted() {
        lemma_def_rec_defined(g, x.spec_regular(), env);
        let f = choose|fuel: nat| #[trigger] eval_fuel(g, x.spec_regular(), env, fuel) is Some;
        assert(eval_fuel(g, x, env, f + 1) is Some);
    } else if env.contains_key(x) {
        assert(eval_fuel(g, x, env, 1) is Some);
    } else {
        let n = g.node_of(x);
        lemma_def_rec_defined(g, n.spec_left(), env);
        lemma_def_rec_defined(g, n.spec_right(), env);
        lemma_eval_and_node(g, x, env);
    }
}

proof fn lemma_defined_def_rec(g: GraphView, x: NodeId, env: Map<NodeId, Value>, f: nat)
    requires
        g.wf(),
        eval_fuel(g, x, env, f) is Some,
    ensures
        def_rec(g, x, env),
    decreases f,
{
    if x.is_const() {
    } else if x.is_inverted() {
        lemma_defined_def_rec(g, x.spec_regular(), env, (f - 1) as nat);
        assert(x.spec_regular().spec_index() == x.spec_index());
    } else if env.contains_key(x) {
    } else {
        let n = g.node_of(x);
        let i = x.spec_index();
        assert(g.nodes[i] == n);
        lemma_defined_def_rec(g, n.spec_left(), env, (f - 1) as nat);
        lemma_defined_def_rec(g, n.spec_right(), env, (f - 1) as nat);
    }
}

/// In a well-formed graph, `def_rec` and `defined` agree.
pub proof fn lemma_def_rec_iff_defined(g: GraphView, x: NodeId, env: Map<NodeId, Value>)
    requires
        g.wf(),
    ensures
        def_rec(g, x, env) == defined(g, x, env),
{
    if def_rec(g, x, env) {
        lemma_def_rec_defined(g, x, env);
    }
    if defined(g, x, env) {
        let f = choose|fuel: nat| #[trigger] eval_fuel(g, x, env, fuel) is Some;
        lemma_defined_def_rec(g, x, env, f);
    }
}

impl AigGraph {
    fn is_defined_rec(&self, x: NodeId, env: &Env) -> (b: bool)
        ensures
            b == def_rec(self@, x, env@),
        decreases
            (if x.is_const() || x.is_marker() {
                0
            } else {
                x.spec_index() + 1
            }),
            x.val() % 2,
    {
        if x.is_const() {
            return true;
        }
        if x.is_marker() {
            return false;
        }
        let i = x.index();
        if i >= self.nodes.len() {
            return false;
        }
        if x.is_inverted() {
            return self.is_defined_rec(x.regular(), env);
        }
        if env.get(x).is_some() {
            return true;
        }
        let n = self.node_ref(x);
        if !n.is_and() {
            return false;
        }
        let l = n.left();
        let r = n.right();
        let l_below = l.is_const() || (!l.is_marker() && l.index() < i);
        let r_below = r.is_const() || (!r.is_marker() && r.index() < i);
        if !l_below || !r_below {
            return false;
        }
        self.is_defined_rec(l, env) && self.is_defined_rec(r, env)
    }

    /// Whether `eval(id, values)` succeeds, for a well-formed graph.
    pub fn is_defined(&self, id: NodeId, values: &Env) -> (b: bool)
        requires
            self@.wf(),
        ensures
            b == defined(self@, id, values@),
    {
        proof {
            lemma_def_rec_iff_defined(self@, id, values@);
        }
        self.is_defined_rec(id, values)
    }
}

} // verus!

verus! {

/// The complete simulation information for one clock cycle.
#[derive(Debug, Clone, PartialEq, Eq)]
pub struct SimulationStep {
    /// Latch values at the beginning of this clock cycle.
    pub state: Vec<Value>,
    /// Input values supplied during this clock cycle.
    pub inputs: Vec<Value>,
    /// Output values produced during this clock cycle.
    pub outputs: Vec<Value>,
    /// Latch values after the clock tick.
    pub next_state: Vec<Value>,
}

/// The abstract contents of a [`SimulationStep`].
pub struct StepView {
    pub state: Seq<Value>,
    pub inputs: Seq<Value>,
    pub outputs: Seq<Value>,
    pub next_state: Seq<Value>,
}

impl View for SimulationStep {
    type V = StepView;

    open spec fn view(&self) -> StepView {
        StepView {
            state: self.state@,
            inputs: self.inputs@,
            outputs: self.outputs@,
            next_state: self.next_state@,
        }
    }
}

/// `base` updated with `ids[k] -> vals[k]` for `k < n`, in increasing `k`.
pub open spec fn insert_all(ids: Seq<NodeId>, vals: Seq<Value>, n: int, base: Map<NodeId, Value>) -> Map<
    NodeId,
    Value,
>
    decreases n,
{
    if n <= 0 {
        base
    } else {
        insert_all(ids, vals, n - 1, base).insert(ids[n - 1], vals[n - 1])
    }
}

pub open spec fn min(a: int, b: int) -> int {
    if a <= b {
        a
    } else {
        b
    }
}

/// The values before the first clock cycle: every latch holds zero.
pub open spec fn initial_env(g: GraphView) -> Map<NodeId, Value> {
    insert_all(g.latches, Seq::new(g.latches.len(), |k: int| 0usize), g.latches.len() as int, Map::empty())
}

/// The environment in which a cycle with input vector `vec` evaluates its
/// outputs and next state, from the environment `env` at the cycle's start.
pub open spec fn cycle_env(g: GraphView, env: Map<NodeId, Value>, vec: Seq<Value>) -> Map<NodeId, Value> {
    insert_all(g.inputs, vec, min(g.inputs.len() as int, vec.len() as int), env)
}

/// One clock cycle: the recorded step, computed from the latch values in
/// `env`, and the cycle's input vector.
pub open spec fn spec_step(g: GraphView, env: Map<NodeId, Value>, vec: Seq<Value>) -> StepView {
    let env1 = cycle_env(g, env, vec);
    StepView {
        state: Seq::new(g.latches.len(), |k: int| spec_eval(g, g.latches[k], env)),
        inputs: vec,
        outputs: Seq::new(g.outputs.len(), |k: int| spec_eval(g, g.outputs[k], env1)),
        next_state: Seq::new(
            g.latches.len(),
            |k: int| spec_eval(g, g.node_of(g.latches[k]).spec_right(), env1),
        ),
    }
}

/// The cycle can be evaluated: every latch, output and next-state signal
/// has a value.
pub open spec fn step_ok(g: GraphView, env: Map<NodeId, Value>, vec: Seq<Value>) -> bool {
    let env1 = cycle_env(g, env, vec);
    &&& forall|k: int| 0 <= k < g.latches.len() ==> defined(g, #[trigger] g.latches[k], env)
    &&& forall|k: int| 0 <= k < g.outputs.len() ==> defined(g, #[trigger] g.outputs[k], env1)
    &&& forall|k: int|
        0 <= k < g.latches.len() ==> defined(g, g.node_of(#[trigger] g.latches[k]).spec_right(), env1)
}

/// The environment at the start of the next cycle: the latches hold their
/// next-state values.
pub open spec fn next_env(g: GraphView, env: Map<NodeId, Value>, vec: Seq<Value>) -> Map<NodeId, Value> {
    insert_all(g.latches, spec_step(g, env, vec).next_state, g.latches.len() as int, Map::empty())
}

/// The environment after the cycles with input vectors `vs`.
pub open spec fn env_after(g: GraphView, vs: Seq<Seq<Value>>) -> Map<NodeId, Value>
    decreases vs.len(),
{
    if vs.len() == 0 {
        initial_env(g)
    } else {
        next_env(g, env_after(g, vs.drop_last()), vs.last())
    }
}

/// The trace of a simulation with input vectors `vs`.
pub open spec fn spec_trace(g: GraphView, vs: Seq<Seq<Value>>) -> Seq<StepView>
    decreases vs.len(),
{
    if vs.len() == 0 {
        seq![]
    } else {
        spec_trace(g, vs.drop_last()).push(spec_step(g, env_after(g, vs.drop_last()), vs.last()))
    }
}

/// Every cycle of the simulation with input vectors `vs` can be evaluated.
pub open spec fn trace_ok(g: GraphView, vs: Seq<Seq<Value>>) -> bool
    decreases vs.len(),
{
    if vs.len() == 0 {
        true
    } else {
        trace_ok(g, vs.drop_last()) && step_ok(g, env_after(g, vs.drop_last()), vs.last())
    }
}

/// Every prefix of an evaluable simulation is evaluable.
pub proof fn lemma_trace_ok_prefix(g: GraphView, vs: Seq<Seq<Value>>, n: int)
    requires
        trace_ok(g, vs),
        0 <= n <= vs.len(),
    ensures
        trace_ok(g, vs.take(n)),
    decreases vs.len(),
{
    if n < vs.len() {
        assert(vs.drop_last().take(n) =~= vs.take(n));
        lemma_trace_ok_prefix(g, vs.drop_last(), n);
    } else {
        assert(vs.take(n) =~= vs);
    }
}

pub open spec fn steps_view(steps: Seq<SimulationStep>) -> Seq<StepView> {
    steps.map_values(|s: SimulationStep| s@)
}

impl AigGraph {
    /// Inserts `ids[k] -> vals[k]` for `k < n` into `env`.
    fn insert_values(env: &mut Env, ids: &Vec<NodeId>, vals: &[Value], n: usize)
        requires
            n <= ids@.len(),
            n <= vals@.len(),
        ensures
            final(env)@ == insert_all(ids@, vals@, n as int, old(env)@),
    {
        let mut k: usize = 0;
        while k < n
            invariant
                k <= n,
                n <= ids@.len(),
                n <= vals@.len(),
                env@ == insert_all(ids@, vals@, k as int, old(env)@),
            decreases n - k,
        {
            env.insert(ids[k], vals[k]);
            k = k + 1;
        }
    }

    /// The values of the latches in `env`, or `None` when one cannot be
    /// evaluated.
    fn latch_values(&self, env: &Env) -> (r: Option<Vec<Value>>)
        requires
            self@.wf(),
        ensures
            r is Some <==> forall|k: int| 0 <= k < self@.latches.len() ==> defined(self@, #[trigger] self@.latches[k], env@),
            r matches Some(vals) ==> vals@ == Seq::new(self@.latches.len(), |k: int| spec_eval(self@, self@.latches[k], env@)),
    {
        let mut vals: Vec<Value> = Vec::new();
        let mut k: usize = 0;
        while k < self.latches.len()
            invariant
                self@.wf(),
                k <= self@.latches.len(),
                vals@.len() == k,
                forall|j: int| 0 <= j < k ==> defined(self@, #[trigger] self@.latches[j], env@),
                forall|j: int| 0 <= j < k ==> vals@[j] == spec_eval(self@, #[trigger] self@.latches[j], env@),
            decreases self@.latches.len() - k,
        {
            let id = self.latches[k];
            if !self.is_defined(id, env) {
                return None;
            }
            vals.push(self.eval(id, env));
            k = k + 1;
        }
        assert(vals@ =~= Seq::new(self@.latches.len(), |k: int| spec_eval(self@, self@.latches[k], env@)));
        Some(vals)
    }

    /// The values of the outputs in `env`, or `None` when one cannot be
    /// evaluated.
    fn output_values(&self, env: &Env) -> (r: Option<Vec<Value>>)
        requires
            self@.wf(),
        ensures
            r is Some <==> forall|k: int| 0 <= k < self@.outputs.len() ==> defined(self@, #[trigger] self@.outputs[k], env@),
            r matches Some(vals) ==> vals@ == Seq::new(self@.outputs.len(), |k: int| spec_eval(self@, self@.outputs[k], env@)),
    {
        let mut vals: Vec<Value> = Vec::new();
        let mut k: usize = 0;
        while k < self.outputs.len()
            invariant
                self@.wf(),
                k <= self@.outputs.len(),
                vals@.len() == k,
                forall|j: int| 0 <= j < k ==> defined(self@, #[trigger] self@.outputs[j], env@),
                forall|j: int| 0 <= j < k ==> vals@[j] == spec_eval(self@, #[trigger] self@.outputs[j], env@),
            decreases self@.outputs.len() - k,
        {
            let id = self.outputs[k];
            if !self.is_defined(id, env) {
                return None;
            }
            vals.push(self.eval(id, env));
            k = k + 1;
        }
        assert(vals@ =~= Seq::new(self@.outputs.len(), |k: int| spec_eval(self@, self@.outputs[k], env@)));
        Some(vals)
    }

    /// The next-state values of the latches in `env`, or `None` when one
    /// cannot be evaluated.
    fn next_latch_values(&self, env: &Env) -> (r: Option<Vec<Value>>)
        requires
            self@.wf(),
        ensures
            r is Some <==> forall|k: int|
                0 <= k < self@.latches.len() ==> defined(self@, self@.node_of(#[trigger] self@.latches[k]).spec_right(), env@),
            r matches Some(vals) ==> vals@ == Seq::new(
                self@.latches.len(),
                |k: int| spec_eval(self@, self@.node_of(self@.latches[k]).spec_right(), env@),
            ),
    {
        let mut vals: Vec<Value> = Vec::new();
        let mut k: usize = 0;
        while k < self.latches.len()
            invariant
                self@.wf(),
                k <= self@.latches.len(),
                vals@.len() == k,
                forall|j: int|
                    0 <= j < k ==> defined(self@, self@.node_of(#[trigger] self@.latches[j]).spec_right(), env@),
                forall|j: int|
                    0 <= j < k ==> vals@[j] == spec_eval(self@, self@.node_of(#[trigger] self@.latches[j]).spec_right(), env@),
            decreases self@.latches.len() - k,
        {
            let latch_id = self.latches[k];
            let latch_input = self.node_ref(latch_id).right();
            if !self.is_defined(latch_input, env) {
                return None;
            }
            vals.push(self.eval(latch_input, env));
            k = k + 1;
        }
        assert(vals@ =~= Seq::new(
            self@.latches.len(),
            |k: int| spec_eval(self@, self@.node_of(self@.latches[k]).spec_right(), env@),
        ));
        Some(vals)
    }

    /// Simulates one clock cycle from the latch values in `current` with the
    /// given input values.  On success `current` holds the latch values for
    /// the next cycle; `None` means that some latch, output or next-state
    /// signal has no value (an input it needs was not supplied).
    pub fn simulate_step(&self, current: &mut Env, input_values: &[Value]) -> (r: Option<SimulationStep>)
        requires
            self@.wf(),
        ensures
            r is Some <==> step_ok(self@, old(current)@, input_values@),
            r matches Some(step) ==> step@ == spec_step(self@, old(current)@, input_values@) && final(current)@
                == next_env(self@, old(current)@, input_values@),
    {
        let state = match self.latch_values(current) {
            Some(s) => s,
            None => return None,
        };
        let n = if self.inputs.len() <= input_values.len() {
            self.inputs.len()
        } else {
            input_values.len()
        };
        Self::insert_values(current, &self.inputs, input_values, n);
        let outputs = match self.output_values(current) {
            Some(o) => o,
            None => return None,
        };
        let next_state = match self.next_latch_values(current) {
            Some(ns) => ns,
            None => return None,
        };
        let mut next = Env::with_capacity(self.latches.len());
        Self::insert_values(&mut next, &self.latches, next_state.as_slice(), self.latches.len());
        std::mem::swap(current, &mut next);
        let inputs = vstd::slice::slice_to_vec(input_values);
        Some(SimulationStep { state, inputs, outputs, next_state })
    }

    /// Simulates one clock cycle per vector of `vectors`, in order, when
    /// every cycle can be evaluated.
    pub fn simulate_vectors(&self, vectors: &[Vec<Value>]) -> (trace: Vec<SimulationStep>)
        requires
            self@.wf(),
            trace_ok(self@, vectors@.map_values(|v: Vec<Value>| v@)),
        ensures
            steps_view(trace@) == spec_trace(self@, vectors@.map_values(|v: Vec<Value>| v@)),
    {
        let ghost all = vectors@.map_values(|v: Vec<Value>| v@);
        let mut trace: Vec<SimulationStep> = Vec::new();
        let mut current = Env::with_capacity(self.latches.len());
        let zeros: Vec<Value> = vec![0usize; self.latches.len()];
        Self::insert_values(&mut current, &self.latches, zeros.as_slice(), self.latches.len());
        assert(zeros@ =~= Seq::new(self@.latches.len(), |k: int| 0usize));
        assert(steps_view(trace@) =~= seq![]);
        assert(all.take(0) =~= seq![]);
        let mut i: usize = 0;
        while i < vectors.len()
            invariant
                self@.wf(),
                all == vectors@.map_values(|v: Vec<Value>| v@),
                trace_ok(self@, all),
                i <= vectors@.len(),
                spec_trace(self@, all.take(i as int)) == steps_view(trace@),
                current@ == env_after(self@, all.take(i as int)),
            decreases vectors@.len() - i,
        {
            let ghost vs = all.take(i as int);
            let ghost vs2 = all.take(i + 1);
            assert(vs2.drop_last() =~= vs);
            assert(vs2.last() == vectors@[i as int]@);
            proof {
                lemma_trace_ok_prefix(self@, all, i + 1);
            }
            match self.simulate_step(&mut current, vectors[i].as_slice()) {
                Some(step) => {
                    trace.push(step);
                    assert(steps_view(trace@) =~= spec_trace(self@, vs2));
                },
                None => {
                    assert(false);
                    return trace;
                },
            }
            i = i + 1;
        }
        assert(all.take(vectors@.len() as int) =~= all);
        trace
    }

    /// Simulate the circuit for several clock cycles, one per input vector
    /// that `inputs` supplies, in order.  Latches start at zero.  The
    /// simulation ends when the stimulus ends, or before the first cycle that
    /// cannot be evaluated (an input that a cycle needs has no value).
    pub fn simulate(&self, inputs: impl super::stimulus::Stimulus) -> (trace: Vec<SimulationStep>)
        requires
            self@.wf(),
        ensures
            trace@.len() <= inputs.remaining().len(),
            trace_ok(self@, inputs.remaining().take(trace@.len() as int)),
            steps_view(trace@) == spec_trace(self@, inputs.remaining().take(trace@.len() as int)),
            trace@.len() < inputs.remaining().len() ==> !step_ok(
                self@,
                env_after(self@, inputs.remaining().take(trace@.len() as int)),
                inputs.remaining()[trace@.len() as int],
            ),
    {
        let ghost vs = inputs.remaining();
        let mut stim = inputs;
        let mut trace: Vec<SimulationStep> = Vec::new();
        let mut current = Env::with_capacity(self.latches.len());
        let zeros: Vec<Value> = vec![0usize; self.latches.len()];
        Self::insert_values(&mut current, &self.latches, zeros.as_slice(), self.latches.len());
        assert(zeros@ =~= Seq::new(self@.latches.len(), |k: int| 0usize));
        assert(steps_view(trace@) =~= seq![]);
        assert(vs.take(0) =~= seq![]);
        assert(vs.skip(0) =~= vs);
        loop
            invariant
                self@.wf(),
                vs == inputs.remaining(),
                trace@.len() <= vs.len(),
                stim.remaining() == vs.skip(trace@.len() as int),
                trace_ok(self@, vs.take(trace@.len() as int)),
                steps_view(trace@) == spec_trace(self@, vs.take(trace@.len() as int)),
                current@ == env_after(self@, vs.take(trace@.len() as int)),
            decreases stim.remaining().len(),
        {
            let ghost k = trace@.len() as int;
            let ghost before = stim.remaining();
            let input_vector = match stim.next_vector() {
                Some(v) => v,
                None => {
                    assert(before.len() == 0);
                    assert(before == vs.skip(k));
                    assert(k == vs.len());
                    assert(vs.take(k) =~= vs);
                    return trace;
                },
            };
            assert(input_vector@ == vs[k]);
            match self.simulate_step(&mut current, input_vector.as_slice()) {
                Some(step) => {
                    let ghost vs2 = vs.take(k + 1);
                    assert(vs2.drop_last() =~= vs.take(k));
                    assert(vs2.last() == vs[k]);
                    trace.push(step);
                    assert(steps_view(trace@) =~= spec_trace(self@, vs2));
                    assert(vs.skip(k + 1) =~= vs.skip(k).drop_first());
                },
                None => {
                    return trace;
                },
            }
        }
    }
}

} // verus!

verus! {

proof fn lemma_trace_len(g: GraphView, vs: Seq<Seq<Value>>)
    ensures
        spec_trace(g, vs).len() == vs.len(),
    decreases vs.len(),
{
    if vs.len() > 0 {
        lemma_trace_len(g, vs.drop_last());
    }
}

proof fn lemma_trace_index(g: GraphView, vs: Seq<Seq<Value>>, k: int)
    requires
        0 <= k < vs.len(),
    ensures
        spec_trace(g, vs)[k] == spec_step(g, env_after(g, vs.take(k)), vs[k]),
    decreases vs.len(),
{
    lemma_trace_len(g, vs.drop_last());
    if k == vs.len() - 1 {
        assert(vs.take(k) =~= vs.drop_last());
    } else {
        lemma_trace_index(g, vs.drop_last(), k);
        assert(vs.drop_last().take(k) =~= vs.take(k));
    }
}

proof fn lemma_env_after_step(g: GraphView, vs: Seq<Seq<Value>>, k: int)
    requires
        0 <= k < vs.len(),
    ensures
        env_after(g, vs.take(k + 1)) == next_env(g, env_after(g, vs.take(k)), vs[k]),
{
    assert(vs.take(k + 1).drop_last() =~= vs.take(k));
}

proof fn lemma_insert_all_get(ids: Seq<NodeId>, vals: Seq<Value>, n: int, base: Map<NodeId, Value>, j: int)
    requires
        0 <= j < n <= ids.len(),
        n <= vals.len(),
        forall|a: int, b: int| 0 <= a < b < ids.len() ==> #[trigger] ids[a] != #[trigger] ids[b],
    ensures
        insert_all(ids, vals, n, base).contains_key(ids[j]),
        insert_all(ids, vals, n, base)[ids[j]] == vals[j],
    decreases n,
{
    if j < n - 1 {
        lemma_insert_all_get(ids, vals, n - 1, base, j);
        assert(ids[j] != ids[n - 1]);
    }
}

/// The value of a stored regular node that `env` gives a value is that value.
proof fn lemma_eval_given(g: GraphView, id: NodeId, env: Map<NodeId, Value>)
    requires
        g.has_node(id),
        !id.is_inverted(),
        env.contains_key(id),
    ensures
        defined(g, id, env),
        spec_eval(g, id, env) == env[id],
{
    assert(eval_fuel(g, id, env, 1) is Some);
    lemma_eval_fuel_spec(g, id, env, 1);
}

/// Law: a simulation has one step per input vector, records each vector as
/// the step's inputs, starts with every latch at zero, and starts each cycle
/// from the latch values that the previous cycle computed.
pub proof fn lemma_simulation_steps(g: GraphView, vs: Seq<Seq<Value>>)
    requires
        g.wf(),
    ensures
        spec_trace(g, vs).len() == vs.len(),
        forall|k: int| 0 <= k < vs.len() ==> (#[trigger] spec_trace(g, vs)[k]).inputs == vs[k],
        vs.len() > 0 ==> spec_trace(g, vs)[0].state == Seq::new(g.latches.len(), |j: int| 0usize),
        forall|k: int|
            0 <= k < vs.len() - 1 ==> (#[trigger] spec_trace(g, vs)[k + 1]).state == spec_trace(g, vs)[k].next_state,
{
    lemma_trace_len(g, vs);
    assert forall|k: int| 0 <= k < vs.len() implies (#[trigger] spec_trace(g, vs)[k]).inputs == vs[k] by {
        lemma_trace_index(g, vs, k);
    }
    if vs.len() > 0 {
        lemma_trace_index(g, vs, 0);
        assert(vs.take(0) =~= Seq::<Seq<Value>>::empty());
        let env0 = initial_env(g);
        assert(env_after(g, vs.take(0)) == env0);
        assert forall|j: int| 0 <= j < g.latches.len() implies spec_eval(g, g.latches[j], env0) == 0usize by {
            lemma_insert_all_get(
                g.latches,
                Seq::new(g.latches.len(), |k: int| 0usize),
                g.latches.len() as int,
                Map::empty(),
                j,
            );
            lemma_eval_given(g, g.latches[j], env0);
        }
        assert(spec_trace(g, vs)[0].state =~= Seq::new(g.latches.len(), |j: int| 0usize));
    }
    assert forall|k: int| 0 <= k < vs.len() - 1 implies (#[trigger] spec_trace(g, vs)[k + 1]).state
        == spec_trace(g, vs)[k].next_state by {
        lemma_trace_index(g, vs, k);
        lemma_trace_index(g, vs, k + 1);
        lemma_env_after_step(g, vs, k);
        let prev = spec_step(g, env_after(g, vs.take(k)), vs[k]);
        let env1 = env_after(g, vs.take(k + 1));
        assert forall|j: int| 0 <= j < g.latches.len() implies spec_eval(g, g.latches[j], env1) == prev.next_state[j] by {
            lemma_insert_all_get(g.latches, prev.next_state, g.latches.len() as int, Map::empty(), j);
            lemma_eval_given(g, g.latches[j], env1);
        }
        assert(spec_trace(g, vs)[k + 1].state =~= spec_trace(g, vs)[k].next_state);
    }
}

} // verus!

verus! {

/// `env` gives a value to every input and latch of `g` and to no other
/// signal: an assignment of the circuit's inputs and state.
pub open spec fn assigns_state(g: GraphView, env: Map<NodeId, Value>) -> bool {
    &&& forall|k: int| 0 <= k < g.inputs.len() ==> env.contains_key(#[trigger] g.inputs[k])
    &&& forall|k: int| 0 <= k < g.latches.len() ==> env.contains_key(#[trigger] g.latches[k])
    &&& forall|x: NodeId| #[trigger] env.contains_key(x) ==> g.inputs.contains(x) || g.latches.contains(x)
}

proof fn lemma_assigned_def_rec(g: GraphView, env: Map<NodeId, Value>, x: NodeId)
    requires
        g.wf(),
        assigns_state(g, env),
        g.valid_signal(x),
    ensures
        def_rec(g, x, env),
    decreases
            (if x.is_const() || x.is_marker() {
                0
            } else {
                x.spec_index() + 1
            }),
            x.val() % 2,
{
    if x.is_const() {
    } else if x.is_inverted() {
        assert(x.spec_regular().spec_index() == x.spec_index());
        lemma_assigned_def_rec(g, env, x.spec_regular());
    } else if env.contains_key(x) {
    } else {
        let i = x.spec_index();
        super::lemma_index_roundtrip(i, x);
        let n = g.nodes[i];
        if !n.is_and() {
            if g.inputs.contains(x) {
                let k = choose|k: int| 0 <= k < g.inputs.len() && g.inputs[k] == x;
                assert(env.contains_key(g.inputs[k]));
            } else {
                let k = choose|k: int| 0 <= k < g.latches.len() && g.latches[k] == x;
                assert(env.contains_key(g.latches[k]));
            }
        } else {
            lemma_assigned_def_rec(g, env, n.spec_left());
            lemma_assigned_def_rec(g, env, n.spec_right());
        }
    }
}

/// Under an assignment of its inputs and latches, every signal of a
/// well-formed graph can be evaluated.
pub proof fn lemma_assigned_defined(g: GraphView, env: Map<NodeId, Value>, x: NodeId)
    requires
        g.wf(),
        assigns_state(g, env),
        g.valid_signal(x),
    ensures
        defined(g, x, env),
{
    lemma_assigned_def_rec(g, env, x);
    lemma_def_rec_defined(g, x, env);
}

/// An assignment of inputs and latches gives no value to an AND gate.
pub proof fn lemma_assigned_skips_ands(g: GraphView, env: Map<NodeId, Value>)
    requires
        g.wf(),
        assigns_state(g, env),
    ensures
        env_skips_ands(g, env),
{
    broadcast use super::group_aig;

    assert forall|x: NodeId| #[trigger] env.contains_key(x) && g.has_node(x) implies !g.node_of(x).is_and() by {
        if g.inputs.contains(x) {
            let k = choose|k: int| 0 <= k < g.inputs.len() && g.inputs[k] == x;
            assert(g.node_of(g.inputs[k]).is_input());
        } else {
            let k = choose|k: int| 0 <= k < g.latches.len() && g.latches[k] == x;
            assert(g.node_of(g.latches[k]).is_latch());
        }
    }
}

/// Replacing a node that `env` gives a value to changes no evaluation.
pub proof fn lemma_eval_replace_assigned(
    g: GraphView,
    g2: GraphView,
    i: int,
    id: NodeId,
    env: Map<NodeId, Value>,
    f: nat,
)
    requires
        0 <= i <= super::MAX_GRAPH_INDEX,
        g2.nodes.len() == g.nodes.len(),
        forall|j: int| 0 <= j < g.nodes.len() && j != i ==> g2.nodes[j] == g.nodes[j],
        env.contains_key(NodeId::spec_from_index(i)),
    ensures
        eval_fuel(g2, id, env, f) == eval_fuel(g, id, env, f),
    decreases f,
{
    if id.is_false() || id.is_true() || f == 0 {
    } else if id.is_inverted() {
        lemma_eval_replace_assigned(g, g2, i, id.spec_regular(), env, (f - 1) as nat);
    } else if g.has_node(id) && !env.contains_key(id) {
        super::lemma_index_roundtrip(i, id);
        assert(g2.nodes[id.spec_index()] == g.nodes[id.spec_index()]);
        lemma_eval_replace_assigned(g, g2, i, g.node_of(id).spec_left(), env, (f - 1) as nat);
        lemma_eval_replace_assigned(g, g2, i, g.node_of(id).spec_right(), env, (f - 1) as nat);
    }
}

/// `defined` and `spec_eval` carry over when a node that `env` gives a
/// value to is replaced.
pub proof fn lemma_defined_replace_assigned(g: GraphView, g2: GraphView, i: int, id: NodeId, env: Map<NodeId, Value>)
    requires
        0 <= i <= super::MAX_GRAPH_INDEX,
        g2.nodes.len() == g.nodes.len(),
        forall|j: int| 0 <= j < g.nodes.len() && j != i ==> g2.nodes[j] == g.nodes[j],
        env.contains_key(NodeId::spec_from_index(i)),
        defined(g, id, env),
    ensures
        defined(g2, id, env),
        spec_eval(g2, id, env) == spec_eval(g, id, env),
{
    let f = choose|fuel: nat| #[trigger] eval_fuel(g, id, env, fuel) is Some;
    lemma_eval_replace_assigned(g, g2, i, id, env, f);
    lemma_eval_fuel_spec(g, id, env, f);
    lemma_eval_fuel_spec(g2, id, env, f);
}

} // verus!

verus! {

/// The two maps give values to the same stored regular signals of `g`, and
/// the same values; they may differ on signals that evaluation never looks
/// up.
pub open spec fn same_node_values(g: GraphView, env: Map<NodeId, Value>, env2: Map<NodeId, Value>) -> bool {
    forall|id: NodeId|
        #![trigger env.contains_key(id)]
        #![trigger env2.contains_key(id)]
        g.has_node(id) && !id.is_inverted() ==> (env.contains_key(id) == env2.contains_key(id) && (
        env.contains_key(id) ==> env[id] == env2[id]))
}

proof fn lemma_eval_same_node_values(g: GraphView, id: NodeId, env: Map<NodeId, Value>, env2: Map<NodeId, Value>, f: nat)
    requires
        same_node_values(g, env, env2),
    ensures
        eval_fuel(g, id, env, f) == eval_fuel(g, id, env2, f),
    decreases f,
{
    if id.is_false() || id.is_true() || f == 0 {
    } else if id.is_inverted() {
        lemma_eval_same_node_values(g, id.spec_regular(), env, env2, (f - 1) as nat);
    } else if g.has_node(id) {
        assert(env.contains_key(id) == env2.contains_key(id));
        lemma_eval_same_node_values(g, g.node_of(id).spec_left(), env, env2, (f - 1) as nat);
        lemma_eval_same_node_values(g, g.node_of(id).spec_right(), env, env2, (f - 1) as nat);
    }
}

/// Maps that agree on the stored regular signals give the same evaluations.
pub proof fn lemma_defined_same_node_values(g: GraphView, id: NodeId, env: Map<NodeId, Value>, env2: Map<NodeId, Value>)
    requires
        same_node_values(g, env, env2),
        defined(g, id, env2),
    ensures
        defined(g, id, env),
        spec_eval(g, id, env) == spec_eval(g, id, env2),
{
    let f = choose|fuel: nat| #[trigger] eval_fuel(g, id, env2, fuel) is Some;
    lemma_eval_same_node_values(g, id, env, env2, f);
    lemma_eval_fuel_spec(g, id, env2, f);
    lemma_eval_fuel_spec(g, id, env, f);
}

/// `env` restricted to the inputs and latches of `g`.
pub open spec fn state_part(g: GraphView, env: Map<NodeId, Value>) -> Map<NodeId, Value> {
    Map::new(|x: NodeId| env.contains_key(x) && (g.inputs.contains(x) || g.latches.contains(x)), |x: NodeId| env[x])
}

/// A map that gives values to every input and latch and to no AND gate of a
/// well-formed graph evaluates as its restriction to the inputs and latches,
/// which assigns the circuit's state.
pub proof fn lemma_state_part(g: GraphView, env: Map<NodeId, Value>)
    requires
        g.wf(),
        forall|k: int| 0 <= k < g.inputs.len() ==> env.contains_key(#[trigger] g.inputs[k]),
        forall|k: int| 0 <= k < g.latches.len() ==> env.contains_key(#[trigger] g.latches[k]),
        env_skips_ands(g, env),
    ensures
        assigns_state(g, state_part(g, env)),
        same_node_values(g, env, state_part(g, env)),
{
    let e2 = state_part(g, env);
    assert forall|k: int| 0 <= k < g.inputs.len() implies e2.contains_key(#[trigger] g.inputs[k]) by {
        assert(g.inputs.contains(g.inputs[k]));
    }
    assert forall|k: int| 0 <= k < g.latches.len() implies e2.contains_key(#[trigger] g.latches[k]) by {
        assert(g.latches.contains(g.latches[k]));
    }
    assert forall|id: NodeId| g.has_node(id) && !id.is_inverted() implies (#[trigger] env.contains_key(id)
        == e2.contains_key(id) && (env.contains_key(id) ==> env[id] == e2[id])) by {
        if env.contains_key(id) {
            let i = id.spec_index();
            super::lemma_index_roundtrip(i, id);
            assert(!g.nodes[i].is_and());
        }
    }
}

} // verus!
