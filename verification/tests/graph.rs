use raig::graph::eval::{Env, Value};
use raig::graph::{AigBuilder, AigGraph, NodeId};

#[test]
fn node_id_constants() {
    let f = NodeId::false_id();
    let t = NodeId::true_id();
    assert!(f.is_false() && f.is_const() && !f.is_true() && !f.is_inverted());
    assert!(t.is_true() && t.is_const() && !t.is_false() && t.is_inverted());
    assert_eq!(f.invert(), t);
    assert_eq!(t.invert(), f);
    assert_eq!(t.regular(), f);
    assert!(!f.is_marker());
}

#[test]
fn node_id_invert_and_regular() {
    let a = NodeId::from_index(3);
    let na = a.invert();
    assert!(!a.is_inverted());
    assert!(na.is_inverted());
    assert_ne!(a, na);
    assert_eq!(na.invert(), a);
    assert_eq!(na.regular(), a);
    assert_eq!(a.regular(), a);
    assert!(!a.is_const());
}

#[test]
fn node_id_index_roundtrip() {
    assert_eq!(NodeId::from_index(0).try_index(), Ok(0));
    assert_eq!(NodeId::from_index(7).try_index(), Ok(7));
    assert_eq!(NodeId::from_index(7).invert().try_index(), Ok(7));
    assert!(NodeId::false_id().try_index().is_err());
    assert!(NodeId::true_id().try_index().is_err());
}

#[test]
fn builder_numbers_nodes_in_order() {
    let mut b = AigBuilder::new();
    let a = b.add_input();
    let c = b.add_input();
    let l = b.add_latch(NodeId::false_id());
    assert_eq!(a, NodeId::from_index(0));
    assert_eq!(c, NodeId::from_index(1));
    assert_eq!(l, NodeId::from_index(2));
    assert_eq!(b.num_nodes(), 3);
    assert!(b.node(a).is_input());
    assert!(b.node(l).is_latch());
    assert_eq!(b.node(l).right(), NodeId::false_id());
}

#[test]
fn and_optimized_simplifies_constants() {
    let mut b = AigBuilder::new();
    let a = b.add_input();
    assert_eq!(b.add_and_optimized(a, NodeId::false_id()), NodeId::false_id());
    assert_eq!(b.add_and_optimized(NodeId::false_id(), a), NodeId::false_id());
    assert_eq!(b.add_and_optimized(a, NodeId::true_id()), a);
    assert_eq!(b.add_and_optimized(NodeId::true_id(), a), a);
    assert_eq!(b.num_nodes(), 1);
}

#[test]
fn and_optimized_simplifies_repeated_and_complementary() {
    let mut b = AigBuilder::new();
    let a = b.add_input();
    assert_eq!(b.add_and_optimized(a, a), a);
    assert_eq!(b.add_and_optimized(a, a.invert()), NodeId::false_id());
    assert_eq!(b.add_and_optimized(a.invert(), a), NodeId::false_id());
    assert_eq!(b.num_nodes(), 1);
}

#[test]
fn and_optimized_shares_commuted_gates() {
    let mut b = AigBuilder::new();
    let x = b.add_input();
    let y = b.add_input();
    assert!(b.and_would_push(x, y));
    let g1 = b.add_and_optimized(x, y);
    assert!(!b.and_would_push(y, x));
    let g2 = b.add_and_optimized(y, x);
    let g3 = b.add_and_optimized(x, y);
    assert_eq!(g1, NodeId::from_index(2));
    assert_eq!(g1, g2);
    assert_eq!(g1, g3);
    assert_eq!(b.num_nodes(), 3);
    assert_eq!(b.node(g1).left(), x);
    assert_eq!(b.node(g1).right(), y);
}

#[test]
fn and_optimized_orders_children() {
    let mut b = AigBuilder::new();
    let x = b.add_input();
    let y = b.add_input();
    let g = b.add_and_optimized(y.invert(), x);
    assert!(b.node(g).is_and());
    assert_eq!(b.node(g).left(), x);
    assert_eq!(b.node(g).right(), y.invert());
}

#[test]
fn and_raw_never_shares() {
    let mut b = AigBuilder::new();
    let x = b.add_input();
    let y = b.add_input();
    let g1 = b.add_and_raw(y, x);
    let g2 = b.add_and_raw(y, x);
    assert_ne!(g1, g2);
    assert_eq!(b.num_nodes(), 4);
    assert_eq!(b.node(g1).left(), y);
    assert_eq!(b.node(g1).right(), x);
    let g3 = b.add_and_raw(x, NodeId::false_id());
    assert_eq!(g3, NodeId::from_index(4));
}

#[test]
fn latch_input_can_be_set_later() {
    let mut b = AigBuilder::new();
    let l = b.add_latch(NodeId::false_id());
    b.node(l).set_latch_input(l.invert());
    assert_eq!(b.node(l).right(), l.invert());
    assert!(b.node(l).is_latch());
}

fn two_input_and() -> (AigGraph, NodeId, NodeId, NodeId) {
    let mut b = AigBuilder::new();
    let x = b.add_input();
    let y = b.add_input();
    let g = b.add_and_optimized(x, y.invert());
    b.add_output(g);
    (b.build(), x, y, g)
}

#[test]
fn eval_constants_and_inversion() {
    let (graph, x, _, _) = two_input_and();
    let mut env = Env::new();
    env.insert(x, 0b1100);
    assert_eq!(graph.eval(NodeId::false_id(), &env), 0);
    assert_eq!(graph.eval(NodeId::true_id(), &env), Value::MAX);
    assert_eq!(graph.eval(x, &env), 0b1100);
    assert_eq!(graph.eval(x.invert(), &env), !0b1100usize);
}

#[test]
fn eval_and_gate_is_bitwise() {
    let (graph, x, y, g) = two_input_and();
    let mut env = Env::new();
    env.insert(x, 0b1100);
    env.insert(y, 0b1010);
    assert_eq!(graph.eval(g, &env), 0b0100);
    assert_eq!(graph.eval(g.invert(), &env), !0b0100usize);
}

#[test]
fn eval_prefers_given_value() {
    let (graph, x, y, g) = two_input_and();
    let mut env = Env::new();
    env.insert(x, 0);
    env.insert(y, 0);
    env.insert(g, 77);
    assert_eq!(graph.eval(g, &env), 77);
}

#[test]
fn is_defined_needs_inputs() {
    let (graph, x, y, g) = two_input_and();
    let mut env = Env::new();
    assert!(graph.is_defined(NodeId::true_id(), &env));
    assert!(!graph.is_defined(g, &env));
    env.insert(x, 1);
    assert!(!graph.is_defined(g, &env));
    env.insert(y, 1);
    assert!(graph.is_defined(g, &env));
    env.clear();
    assert!(!graph.is_defined(x, &env));
    assert_eq!(env.get(x), None);
}

#[test]
fn env_insert_and_get() {
    let mut env = Env::with_capacity(4);
    let a = NodeId::from_index(0);
    assert_eq!(env.get(a), None);
    env.insert(a, 5);
    assert_eq!(env.get(a), Some(5));
    env.insert(a, 6);
    assert_eq!(env.get(a), Some(6));
}

#[test]
fn toggle_latch_simulation() {
    let mut b = AigBuilder::new();
    let l = b.add_latch(NodeId::false_id());
    b.node(l).set_latch_input(l.invert());
    b.add_output(l);
    let graph = b.build();
    let vectors: Vec<Vec<Value>> = vec![vec![], vec![], vec![]];
    let trace = graph.simulate_vectors(&vectors);
    assert_eq!(trace.len(), 3);
    assert_eq!(trace[0].state, vec![0]);
    assert_eq!(trace[0].outputs, vec![0]);
    assert_eq!(trace[0].next_state, vec![Value::MAX]);
    assert_eq!(trace[1].state, vec![Value::MAX]);
    assert_eq!(trace[1].outputs, vec![Value::MAX]);
    assert_eq!(trace[2].outputs, vec![0]);
}

#[test]
fn simulate_records_inputs_and_outputs() {
    let (graph, _, _, _) = two_input_and();
    let vectors: Vec<Vec<Value>> = vec![vec![Value::MAX, 0], vec![Value::MAX, Value::MAX]];
    let trace = graph.simulate(vectors.as_slice());
    assert_eq!(trace.len(), 2);
    assert_eq!(trace[0].inputs, vec![Value::MAX, 0]);
    assert_eq!(trace[0].outputs, vec![Value::MAX]);
    assert_eq!(trace[1].outputs, vec![0]);
    assert!(trace[0].state.is_empty());
    assert!(trace[0].next_state.is_empty());
}

#[test]
fn simulate_stops_before_undefined_cycle() {
    let (graph, _, _, _) = two_input_and();
    let vectors: Vec<Vec<Value>> = vec![vec![0, 0], vec![0]];
    let trace = graph.simulate(vectors.as_slice());
    assert_eq!(trace.len(), 1);
    assert_eq!(trace[0].outputs, vec![0]);
}

#[test]
fn simulate_step_updates_latches() {
    let mut b = AigBuilder::new();
    let x = b.add_input();
    let l = b.add_latch(NodeId::false_id());
    b.node(l).set_latch_input(x);
    b.add_output(l);
    let graph = b.build();
    let mut env = Env::new();
    env.insert(l, 0);
    let step = graph.simulate_step(&mut env, &[9]).unwrap();
    assert_eq!(step.state, vec![0]);
    assert_eq!(step.outputs, vec![0]);
    assert_eq!(step.next_state, vec![9]);
    assert_eq!(env.get(l), Some(9));
    assert_eq!(env.get(x), None);
    let step = graph.simulate_step(&mut env, &[3]).unwrap();
    assert_eq!(step.outputs, vec![9]);
    assert_eq!(step.inputs, vec![3]);
}

#[test]
fn simulate_step_missing_latch_value() {
    let mut b = AigBuilder::new();
    let l = b.add_latch(NodeId::false_id());
    b.add_output(l);
    let graph = b.build();
    let mut env = Env::new();
    assert!(graph.simulate_step(&mut env, &[]).is_none());
}

#[test]
fn dot_of_and_gate() {
    let (graph, _, _, _) = two_input_and();
    let expected = "digraph AIG {\n\trankdir=BT;\n\tordering=out;\n\tnode [fontname=\"Helvetica\"];\n\tedge [fontname=\"Helvetica\"];\n\n\tconst_false [label=\"false\", shape=box];\n\tconst_true [label=\"true\", shape=box];\n\n\tn0 [label=\"a\", shape=box];\n\tn1 [label=\"b\", shape=box];\n\n\n\tn2 [label=\"AND\", shape=circle];\n\n\tn0 -> n2 [label=\"left\"];\n\tn1 -> n2 [label=\"right\", style=dashed];\n\n\n\tout0 [label=\"out0\", shape=box];\n\tn2 -> out0;\n}\n";
    assert_eq!(graph.to_dot(), expected);
}

#[test]
fn dot_of_latch_and_constant_output() {
    let mut b = AigBuilder::new();
    let l = b.add_latch(NodeId::false_id());
    b.node(l).set_latch_input(l.invert());
    b.add_output(NodeId::true_id());
    b.add_output(l.invert());
    let graph = b.build();
    let expected = "digraph AIG {\n\trankdir=BT;\n\tordering=out;\n\tnode [fontname=\"Helvetica\"];\n\tedge [fontname=\"Helvetica\"];\n\n\tconst_false [label=\"false\", shape=box];\n\tconst_true [label=\"true\", shape=box];\n\n\n\tn0 [label=\"l0\", shape=box, style=rounded];\n\n\n\n\tn0 -> n0 [label=\"next\", style=dashed];\n\n\tout0 [label=\"out0\", shape=box];\n\tconst_false -> out0 [style=dashed];\n\tout1 [label=\"out1\", shape=box];\n\tn0 -> out1 [style=dashed];\n}\n";
    assert_eq!(graph.to_dot(), expected);
}

#[test]
fn dot_labels_many_inputs() {
    let mut b = AigBuilder::new();
    for _ in 0..28 {
        b.add_input();
    }
    let dot = b.build().to_dot();
    assert!(dot.contains("\tn25 [label=\"z\", shape=box];\n"));
    assert!(dot.contains("\tn26 [label=\"aa\", shape=box];\n"));
    assert!(dot.contains("\tn27 [label=\"ab\", shape=box];\n"));
}

#[test]
fn default_graph_is_empty() {
    let g = AigGraph::default();
    let b = AigBuilder::default();
    assert_eq!(b.num_nodes(), 0);
    assert_eq!(g.to_dot(), AigGraph::new().to_dot());
}
