use raig::aiger::{read_one_number_line, run_parser_with_options, verify_aiger_header, AigerError};
use raig::graph::eval::Value;
use raig::graph::AigGraph;
use raig::text::ByteReader;

fn parse(data: &[u8], pre_optimize: bool) -> Result<AigGraph, AigerError> {
    let mut reader = ByteReader::new(data.to_vec());
    run_parser_with_options(&mut reader, pre_optimize)
}

fn parse_err(data: &[u8]) -> AigerError {
    match parse(data, false) {
        Ok(_) => panic!("expected an error"),
        Err(e) => e,
    }
}

const AND_DOT: &str = "digraph AIG {\n\trankdir=BT;\n\tordering=out;\n\tnode [fontname=\"Helvetica\"];\n\tedge [fontname=\"Helvetica\"];\n\n\tconst_false [label=\"false\", shape=box];\n\tconst_true [label=\"true\", shape=box];\n\n\tn0 [label=\"a\", shape=box];\n\tn1 [label=\"b\", shape=box];\n\n\n\tn2 [label=\"AND\", shape=circle];\n\n\tn0 -> n2 [label=\"left\"];\n\tn1 -> n2 [label=\"right\"];\n\n\n\tout0 [label=\"out0\", shape=box];\n\tn2 -> out0;\n}\n";

#[test]
fn header_ascii() {
    let mut reader = ByteReader::new(b"aag 7 2 1 2 4\nrest".to_vec());
    let h = verify_aiger_header(&mut reader).unwrap();
    assert!(h.is_ascii);
    assert_eq!(h.max_var, 7);
    assert_eq!(h.num_inputs, 2);
    assert_eq!(h.num_latches, 1);
    assert_eq!(h.num_outputs, 2);
    assert_eq!(h.num_and_gates, 4);
    assert_eq!(reader.position(), 14);
}

#[test]
fn header_binary() {
    let mut reader = ByteReader::new(b"aig 3 2 0 1 1\n".to_vec());
    let h = verify_aiger_header(&mut reader).unwrap();
    assert!(!h.is_ascii);
    assert_eq!(h.max_var, 3);
}

#[test]
fn header_errors() {
    let cases: Vec<(&[u8], AigerError)> = vec![
        (b"aag 1 1 0 1\n", AigerError::HeaderFormat),
        (b"aag 1 1 0 1 0 0\n", AigerError::HeaderFormat),
        (b"", AigerError::HeaderFormat),
        (b"abc 1 1 0 1 0\n", AigerError::InvalidTag),
        (b"aag x 1 0 1 0\n", AigerError::InvalidNumber),
        (b"aag 1 1 0 1 -1\n", AigerError::InvalidNumber),
        (b"aag 1 2 0 1 0\n", AigerError::MaxVarTooSmall),
        (b"aig 4 2 0 1 1\n", AigerError::BinaryMaxVarMismatch),
        (b"aag 0 18446744073709551615 1 0 0\n", AigerError::HeaderOverflow),
        (b"aag \xff 1 0 1 0\n", AigerError::InvalidUtf8),
    ];
    for (data, expected) in cases {
        let mut reader = ByteReader::new(data.to_vec());
        match verify_aiger_header(&mut reader) {
            Ok(_) => panic!("expected {:?}", expected),
            Err(e) => assert_eq!(e, expected),
        }
    }
}

#[test]
fn number_line() {
    let mut reader = ByteReader::new(b" 12 \n7\n\nx\n".to_vec());
    assert_eq!(read_one_number_line(&mut reader), Ok(12));
    assert_eq!(read_one_number_line(&mut reader), Ok(7));
    assert_eq!(read_one_number_line(&mut reader), Err(AigerError::InvalidNumber));
    assert_eq!(read_one_number_line(&mut reader), Err(AigerError::InvalidNumber));
    assert_eq!(read_one_number_line(&mut reader), Err(AigerError::EmptyLine));
}

#[test]
fn ascii_and_gate() {
    let g = parse(b"aag 3 2 0 1 1\n2\n4\n6\n6 2 4\n", true).unwrap();
    assert_eq!(g.to_dot(), AND_DOT);
    let g = parse(b"aag 3 2 0 1 1\n2\n4\n6\n6 2 4\n", false).unwrap();
    assert_eq!(g.to_dot(), AND_DOT);
}

#[test]
fn ascii_and_gate_evaluates() {
    let g = parse(b"aag 3 2 0 1 1\n2\n4\n7\n6 2 5\n", true).unwrap();
    let vectors: Vec<Vec<Value>> = vec![vec![Value::MAX, 0], vec![Value::MAX, Value::MAX], vec![0, 0]];
    let trace = g.simulate_vectors(&vectors);
    assert_eq!(trace[0].outputs, vec![0]);
    assert_eq!(trace[1].outputs, vec![Value::MAX]);
    assert_eq!(trace[2].outputs, vec![Value::MAX]);
}

#[test]
fn ascii_toggle_latch() {
    let g = parse(b"aag 1 0 1 1 0\n2 3\n2\n", false).unwrap();
    let vectors: Vec<Vec<Value>> = vec![vec![], vec![], vec![]];
    let trace = g.simulate_vectors(&vectors);
    assert_eq!(trace[0].outputs, vec![0]);
    assert_eq!(trace[1].outputs, vec![Value::MAX]);
    assert_eq!(trace[2].outputs, vec![0]);
}

#[test]
fn ascii_constant_output() {
    let g = parse(b"aag 0 0 0 2 0\n0\n1\n", false).unwrap();
    let trace = g.simulate_vectors(&[vec![]]);
    assert_eq!(trace[0].outputs, vec![0, Value::MAX]);
}

#[test]
fn ascii_pre_optimize_shares_gates() {
    let data: &[u8] = b"aag 4 2 0 2 2\n2\n4\n6\n8\n6 2 4\n8 4 2\n";
    let raw = parse(data, false).unwrap().to_dot();
    let opt = parse(data, true).unwrap().to_dot();
    assert!(raw.contains("\tn3 [label=\"AND\", shape=circle];\n"));
    assert!(!opt.contains("\tn3 "));
    assert!(opt.contains("\tn2 -> out1;\n"));
    assert!(raw.contains("\tn3 -> out1;\n"));
}

#[test]
fn ascii_pre_optimize_simplifies() {
    let g = parse(b"aag 2 1 0 1 1\n2\n4\n4 2 3\n", true).unwrap();
    assert!(g.to_dot().contains("\tconst_false -> out0;\n"));
    let g = parse(b"aag 2 1 0 1 1\n2\n4\n4 2 3\n", false).unwrap();
    assert!(g.to_dot().contains("\tn1 -> out0;\n"));
}

#[test]
fn ascii_errors() {
    assert_eq!(parse_err(b"aag 1 1 0 0 0\n"), AigerError::EmptyLine);
    assert_eq!(parse_err(b"aag 1 1 0 0 0\nx\n"), AigerError::InvalidNumber);
    assert_eq!(parse_err(b"aag 1 0 1 0 0\n2\n"), AigerError::LatchLineFormat);
    assert_eq!(parse_err(b"aag 3 2 0 0 1\n2\n4\n6 2\n"), AigerError::AndLineFormat);
    assert_eq!(parse_err(b"aag 3 2 0 0 1\n2\n4\n6 2 4 8\n"), AigerError::AndLineFormat);
    assert_eq!(parse_err(b"aag 3 2 0 1 1\n2\n4\n6\n6 2 8\n"), AigerError::UnknownLiteral);
    assert_eq!(parse_err(b"aag 1 1 0 1 0\n2\n4\n"), AigerError::UnknownLiteral);
    assert_eq!(parse_err(b"aag 1 1 0 0 0\n\xff\n"), AigerError::InvalidUtf8);
    assert_eq!(parse_err(b"aag 1 1 0 0 0\n18446744073709551615\n"), AigerError::LiteralOverflow);
}

#[test]
fn binary_and_gate() {
    let mut data: Vec<u8> = b"aig 3 2 0 1 1\n6\n".to_vec();
    data.push(0x02);
    data.push(0x02);
    let g = parse(&data, false).unwrap();
    let dot = g.to_dot();
    assert!(dot.contains("\tn1 -> n2 [label=\"left\"];\n"));
    assert!(dot.contains("\tn0 -> n2 [label=\"right\"];\n"));
    assert!(dot.contains("\tn2 -> out0;\n"));
    let g = parse(&data, true).unwrap();
    assert_eq!(g.to_dot(), AND_DOT);
}

#[test]
fn binary_multi_byte_delta() {
    // 130 inputs, one AND gate with lhs 262 = AND(2, 2): delta0 = 260 = 0x84 0x02.
    let mut data: Vec<u8> = b"aig 131 130 0 1 1\n262\n".to_vec();
    data.extend_from_slice(&[0x84, 0x02, 0x00]);
    let g = parse(&data, false).unwrap();
    let dot = g.to_dot();
    assert!(dot.contains("\tn0 -> n130 [label=\"left\"];\n"));
    assert!(dot.contains("\tn0 -> n130 [label=\"right\"];\n"));
}

#[test]
fn binary_latch() {
    let g = parse(b"aig 1 0 1 1 0\n3\n2\n", false).unwrap();
    let trace = g.simulate_vectors(&[vec![], vec![]]);
    assert_eq!(trace[0].outputs, vec![0]);
    assert_eq!(trace[1].outputs, vec![Value::MAX]);
}

#[test]
fn binary_errors() {
    assert_eq!(parse_err(b"aig 3 2 0 1 1\n6\n\x02"), AigerError::UnexpectedEof);
    assert_eq!(parse_err(b"aig 3 2 0 1 1\n6\n\x07\x00"), AigerError::InvalidDelta);
    assert_eq!(parse_err(b"aig 3 2 0 1 1\n6\n\x02\x05"), AigerError::InvalidDelta);
    let mut long: Vec<u8> = b"aig 3 2 0 1 1\n6\n".to_vec();
    long.extend_from_slice(&[0x80; 10]);
    long.push(0x00);
    assert_eq!(parse_err(&long), AigerError::InvalidDelta);
    assert_eq!(parse_err(b"aig 1 0 1 1 0\n9\n2\n"), AigerError::UndefinedLiteral);
    assert_eq!(parse_err(b"aig 1 0 1 1 0\n3\n5\n"), AigerError::UndefinedLiteral);
    assert_eq!(parse_err(b"aig 1 0 1 1 0\n3\n"), AigerError::EmptyLine);
}

#[test]
fn parse_ignores_trailing_comments() {
    let mut reader = ByteReader::new(b"aag 0 0 0 1 0\n1\nc\ncomment\n".to_vec());
    let g = run_parser_with_options(&mut reader, false);
    assert!(g.is_ok());
    assert_eq!(reader.position(), 16);
}

#[test]
fn pre_optimize_keeps_simulation() {
    let data: &[u8] = b"aag 7 2 1 2 4\n2\n4\n6 13\n8\n14\n8 2 4\n10 4 2\n12 8 11\n14 6 12\n";
    let raw = parse(data, false).unwrap();
    let opt = parse(data, true).unwrap();
    assert_ne!(raw.to_dot(), opt.to_dot());
    let vectors: Vec<Vec<Value>> = vec![
        vec![Value::MAX, Value::MAX],
        vec![0, Value::MAX],
        vec![Value::MAX, 0],
        vec![0b1010, 0b0110],
    ];
    let t1 = raw.simulate_vectors(&vectors);
    let t2 = opt.simulate_vectors(&vectors);
    assert_eq!(t1, t2);
    assert_eq!(t1[0].outputs, vec![Value::MAX, 0]);
    assert_eq!(t1[0].next_state, vec![Value::MAX]);
    assert_eq!(t1[1].state, vec![Value::MAX]);
    assert_eq!(t1[3].outputs, vec![0b0010, 0]);
}

#[test]
fn header_error_consumes_one_line() {
    let mut reader = ByteReader::new(b"aag 1 x 0 1 0\n2\n".to_vec());
    assert_eq!(verify_aiger_header(&mut reader).unwrap_err(), AigerError::InvalidNumber);
    assert_eq!(reader.position(), 14);
    let mut reader = ByteReader::new(b"x\n5\n".to_vec());
    assert_eq!(read_one_number_line(&mut reader), Err(AigerError::InvalidNumber));
    assert_eq!(read_one_number_line(&mut reader), Ok(5));
}

#[test]
fn node_ref_reads_nodes() {
    let g = parse(b"aag 3 2 0 1 1\n2\n4\n6\n6 2 5\n", false).unwrap();
    let n = g.node_ref(raig::graph::NodeId::from_index(2));
    assert!(n.is_and());
    assert_eq!(n.left(), raig::graph::NodeId::from_index(0));
    assert_eq!(n.right(), raig::graph::NodeId::from_index(1).invert());
    assert!(g.node_ref(raig::graph::NodeId::from_index(0)).is_input());
}
