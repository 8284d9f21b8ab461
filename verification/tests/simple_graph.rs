use raig::aig_graph::{AigGraph, NodeId};
use raig::aiger_parser::{
    run_parser, run_parser_with_options, verify_aiger_header, AndPart, HeaderField, ParseError, Section,
};
use raig::text::ByteReader;

fn parse_err(data: &[u8]) -> ParseError {
    let mut reader = ByteReader::new(data.to_vec());
    match run_parser(&mut reader) {
        Ok(_) => panic!("expected an error"),
        Err(e) => e,
    }
}

fn dot(data: &[u8], pre_optimize: bool) -> String {
    let mut reader = ByteReader::new(data.to_vec());
    run_parser_with_options(&mut reader, pre_optimize).unwrap().1.to_dot()
}

const HEAD: &str = "digraph AIG {\n\trankdir=BT;\n\tordering=out;\n\tnode [fontname=\"Helvetica\"];\n\tedge [fontname=\"Helvetica\"];\n\n\tconst_false [label=\"false\", shape=box];\n\tconst_true [label=\"true\", shape=box];\n\n";

#[test]
fn simple_node_ids() {
    let f = NodeId::false_id();
    let t = NodeId::true_id();
    assert!(f.is_false() && f.is_const() && !f.is_inverted());
    assert!(t.is_true() && t.is_const() && t.is_inverted());
    assert_eq!(f.invert(), t);
    assert_eq!(t.regular(), f);
}

#[test]
fn simple_graph_building() {
    let mut g = AigGraph::new();
    let a = g.add_input();
    let b = g.add_input();
    assert_eq!(g.num_nodes(), 2);
    assert!(g.node_at(a).is_input());
    assert_eq!(g.add_and_optimized(a, NodeId::false_id()), NodeId::false_id());
    assert_eq!(g.add_and_optimized(a, NodeId::true_id()), a);
    assert_eq!(g.add_and_optimized(b, b), b);
    assert_eq!(g.add_and_optimized(b, b.invert()), NodeId::false_id());
    let x = g.add_and_optimized(b, a);
    let y = g.add_and_optimized(a, b);
    assert_eq!(x, y);
    assert_eq!(g.num_nodes(), 3);
    assert_eq!(g.node_at(x).left(), a);
    assert_eq!(g.node_at(x).right(), b);
    let z = g.add_and_raw(b, a);
    assert_ne!(z, x);
    assert!(g.node_at(z).is_and());
    assert_eq!(g.num_nodes(), 4);
}

#[test]
fn simple_latch_and_dot() {
    let mut g = AigGraph::default();
    let a = g.add_input();
    let l = g.add_latch(NodeId::false_id());
    g.set_latch_input(l, a.invert());
    assert!(g.node_at(l).is_latch());
    assert_eq!(g.node_at(l).right(), a.invert());
    g.add_output(l);
    let expected = format!(
        "{}\tn0 [label=\"a\", shape=box];\n\n\tn1 [label=\"l0\", shape=box, style=rounded];\n\n\n\n\tn0 -> n1 [label=\"next\", style=dashed];\n\n\tout0 [label=\"out0\", shape=box];\n\tn1 -> out0;\n}}\n",
        HEAD
    );
    assert_eq!(g.to_dot(), expected);
}

#[test]
fn simple_dot_input_labels() {
    let mut g = AigGraph::new();
    for _ in 0..53 {
        g.add_input();
    }
    let d = g.to_dot();
    assert!(d.contains("\tn26 [label=\"aa\", shape=box];\n"));
    assert!(d.contains("\tn51 [label=\"az\", shape=box];\n"));
    assert!(d.contains("\tn52 [label=\"ba\", shape=box];\n"));
}

#[test]
fn simple_parse_and_gate() {
    let expected = format!(
        "{}\tn0 [label=\"a\", shape=box];\n\tn1 [label=\"b\", shape=box];\n\n\n\tn2 [label=\"AND\", shape=circle];\n\n\tn0 -> n2 [label=\"left\"];\n\tn1 -> n2 [label=\"right\", style=dashed];\n\n\n\tout0 [label=\"out0\", shape=box];\n\tn2 -> out0 [style=dashed];\n}}\n",
        HEAD
    );
    assert_eq!(dot(b"aag 3 2 0 1 1\n2\n4\n7\n6 2 5\n", false), expected);
    assert_eq!(dot(b"aag 3 2 0 1 1\n2\n4\n7\n6 2 5\n", true), expected);
}

#[test]
fn simple_parse_header() {
    let mut reader = ByteReader::new(b"aag 5 2 0 1 3\n".to_vec());
    let h = verify_aiger_header(&mut reader).unwrap();
    assert!(h.is_ascii);
    assert_eq!((h.m, h.i, h.l, h.o, h.a), (5, 2, 0, 1, 3));
    let mut reader = ByteReader::new(b"aag 3 2 0 1 1\n2\n4\n6\n6 2 4\n".to_vec());
    let (h, _) = run_parser(&mut reader).unwrap();
    assert_eq!((h.m, h.i, h.l, h.o, h.a), (3, 2, 0, 1, 1));
}

#[test]
fn simple_parse_pre_optimize() {
    let data: &[u8] = b"aag 4 2 0 2 2\n2\n4\n6\n8\n6 2 4\n8 4 2\n";
    assert!(dot(data, false).contains("\tn3 -> out1;\n"));
    assert!(dot(data, true).contains("\tn2 -> out1;\n"));
}

#[test]
fn simple_header_errors() {
    assert_eq!(parse_err(b"aag 1 1 0 1\n"), ParseError::HeaderFormat);
    assert_eq!(parse_err(b"xyz 1 1 0 1 0\n"), ParseError::InvalidTag);
    assert_eq!(parse_err(b"aag m 1 0 1 0\n"), ParseError::InvalidHeaderNumber(HeaderField::M));
    assert_eq!(parse_err(b"aag 1 i 0 1 0\n"), ParseError::InvalidHeaderNumber(HeaderField::I));
    assert_eq!(parse_err(b"aag 1 1 l 1 0\n"), ParseError::InvalidHeaderNumber(HeaderField::L));
    assert_eq!(parse_err(b"aag 1 1 0 o 0\n"), ParseError::InvalidHeaderNumber(HeaderField::O));
    assert_eq!(parse_err(b"aag 1 1 0 1 a\n"), ParseError::InvalidHeaderNumber(HeaderField::A));
    assert_eq!(parse_err(b"aag 0 18446744073709551615 1 0 0\n"), ParseError::HeaderOverflow);
    assert_eq!(parse_err(b"aag 1 2 0 1 0\n"), ParseError::LayoutViolation);
    assert_eq!(parse_err(b"aig 1 1 0 1 0\n"), ParseError::BinaryNotSupported);
    assert_eq!(parse_err(b"aag 1 0 1 1 0\n2 3\n2\n"), ParseError::LatchesNotSupported);
    assert_eq!(parse_err(b"aag \xff 1 0 1 0\n"), ParseError::InvalidUtf8);
}

#[test]
fn simple_body_errors() {
    assert_eq!(parse_err(b"aag 1 1 0 0 0\n"), ParseError::UnexpectedEof(Section::Input));
    assert_eq!(parse_err(b"aag 1 1 0 1 0\n2\n"), ParseError::UnexpectedEof(Section::Output));
    assert_eq!(parse_err(b"aag 1 0 0 0 1\n"), ParseError::UnexpectedEof(Section::AndGate));
    assert_eq!(parse_err(b"aag 1 1 0 0 0\nx\n"), ParseError::InvalidLine(Section::Input));
    assert_eq!(parse_err(b"aag 1 1 0 1 0\n2\ny\n"), ParseError::InvalidLine(Section::Output));
    assert_eq!(parse_err(b"aag 1 1 0 0 0\n3\n"), ParseError::InputLiteralNotEven(3));
    assert_eq!(parse_err(b"aag 1 1 0 0 0\n0\n"), ParseError::InputLiteralNotEven(0));
    assert_eq!(parse_err(b"aag 2 2 0 0 0\n2\n2\n"), ParseError::DuplicateLiteral(2));
    assert_eq!(parse_err(b"aag 2 1 0 0 1\n2\n2 2 2\n"), ParseError::DuplicateLiteral(2));
    assert_eq!(parse_err(b"aag 2 1 0 0 1\n2\n5 2 2\n"), ParseError::AndLhsNotEven(5));
    assert_eq!(parse_err(b"aag 2 1 0 0 1\n2\n4 2\n"), ParseError::InvalidAndLine);
    assert_eq!(parse_err(b"aag 2 1 0 0 1\n2\nq 2 2\n"), ParseError::InvalidAndLiteral(AndPart::Lhs));
    assert_eq!(parse_err(b"aag 2 1 0 0 1\n2\n4 q 2\n"), ParseError::InvalidAndLiteral(AndPart::Rhs0));
    assert_eq!(parse_err(b"aag 2 1 0 0 1\n2\n4 2 q\n"), ParseError::InvalidAndLiteral(AndPart::Rhs1));
    assert_eq!(parse_err(b"aag 2 1 0 0 1\n2\n4 2 7\n"), ParseError::UndefinedLiteral(7, 6));
    assert_eq!(parse_err(b"aag 1 1 0 1 0\n2\n9\n"), ParseError::UndefinedLiteral(9, 8));
}

#[test]
fn simple_latches_leave_reader_untouched() {
    let mut reader = ByteReader::new(b"aag 1 0 1 1 0\n2 3\n2\n".to_vec());
    let h = verify_aiger_header(&mut reader).unwrap();
    let pos = reader.position();
    let r = raig::aiger_parser::parse_ascii_aiger_into_graph(h, &mut reader, false);
    assert_eq!(r.unwrap_err(), ParseError::LatchesNotSupported);
    assert_eq!(reader.position(), pos);
}
