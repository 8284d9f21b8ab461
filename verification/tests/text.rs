use raig::graph::eval::Value;
use raig::graph::stimulus::{Stimulus, StimulusParser};
use raig::graph::{AigBuilder, NodeId};
use raig::paths::{is_aiger_path, is_dot_path};
use raig::text::ByteReader;

#[test]
fn byte_reader_lines() {
    let mut r = ByteReader::new(b"ab\ncd\r\n\nlast".to_vec());
    assert_eq!(r.len(), 12);
    assert_eq!(r.read_line(), b"ab\n".to_vec());
    assert_eq!(r.position(), 3);
    assert_eq!(r.read_line(), b"cd\r\n".to_vec());
    assert_eq!(r.read_line(), b"\n".to_vec());
    assert_eq!(r.read_line(), b"last".to_vec());
    assert_eq!(r.read_line(), Vec::<u8>::new());
    assert_eq!(r.position(), 12);
}

#[test]
fn byte_reader_bytes_and_seek() {
    let mut r = ByteReader::new(vec![1, 2, 3]);
    assert_eq!(r.read_byte(), Some(1));
    assert_eq!(r.read_byte(), Some(2));
    r.seek(0);
    assert_eq!(r.read_byte(), Some(1));
    r.seek(3);
    assert_eq!(r.read_byte(), None);
    assert_eq!(r.data_copy(), vec![1, 2, 3]);
}

#[test]
fn stimulus_lines() {
    let reader = ByteReader::new(b"01\n10\r\n.\n11\n".to_vec());
    let mut s = StimulusParser::new(reader);
    assert_eq!(s.next_vector(), Some(vec![0, Value::MAX]));
    assert_eq!(s.next_vector(), Some(vec![Value::MAX, 0]));
    assert_eq!(s.next_vector(), None);
    assert_eq!(s.next_vector(), None);
}

#[test]
fn stimulus_ends_at_end_of_data() {
    let reader = ByteReader::new(b"1\n\n0".to_vec());
    let mut s = StimulusParser::new(reader);
    assert_eq!(s.next_vector(), Some(vec![Value::MAX]));
    assert_eq!(s.next_vector(), Some(vec![]));
    assert_eq!(s.next_vector(), Some(vec![0]));
    assert_eq!(s.next_vector(), None);
}

#[test]
fn stimulus_ends_at_bad_line() {
    let mut s = StimulusParser::new(ByteReader::new(b"01\n0x\n11\n".to_vec()));
    assert_eq!(s.next_vector(), Some(vec![0, Value::MAX]));
    assert_eq!(s.next_vector(), None);
    assert_eq!(s.next_vector(), None);
    let mut s = StimulusParser::new(ByteReader::new(b"2\n".to_vec()));
    assert_eq!(s.next_vector(), None);
    let mut s = StimulusParser::new(ByteReader::new(b".\n2\n".to_vec()));
    assert_eq!(s.next_vector(), None);
    let mut r = ByteReader::new(b"x\n01\n".to_vec());
    r.seek(2);
    let mut s = StimulusParser::new(r);
    assert_eq!(s.next_vector(), Some(vec![0, Value::MAX]));
}

#[test]
fn slice_stimulus() {
    let vectors: Vec<Vec<Value>> = vec![vec![1, 2], vec![3]];
    let mut s: &[Vec<Value>] = vectors.as_slice();
    assert_eq!(s.next_vector(), Some(vec![1, 2]));
    assert_eq!(s.next_vector(), Some(vec![3]));
    assert_eq!(s.next_vector(), None);
}

#[test]
fn simulate_from_text_stimulus() {
    let mut b = AigBuilder::new();
    let x = b.add_input();
    let y = b.add_input();
    let g = b.add_and_optimized(x, y);
    b.add_output(g);
    let graph = b.build();
    let reader = ByteReader::new(b"11\n10\n.\n".to_vec());
    let trace = graph.simulate(StimulusParser::new(reader));
    assert_eq!(trace.len(), 2);
    assert_eq!(trace[0].outputs, vec![Value::MAX]);
    assert_eq!(trace[1].outputs, vec![0]);
    assert_eq!(g, NodeId::from_index(2));
}

#[test]
fn output_paths() {
    assert!(is_dot_path("graph.dot"));
    assert!(!is_dot_path("graph.dot.txt"));
    assert!(!is_dot_path("dot"));
    assert!(is_aiger_path("out.aag"));
    assert!(is_aiger_path("dir/out.aig"));
    assert!(!is_aiger_path("out.aiger"));
    assert!(!is_aiger_path(""));
}

struct Repeat {
    left: usize,
}

impl Stimulus for Repeat {
    fn next_vector(&mut self) -> Option<Vec<Value>> {
        if self.left == 0 {
            return None;
        }
        self.left -= 1;
        Some(vec![Value::MAX, 0])
    }
}

#[test]
fn simulate_with_user_stimulus() {
    let mut b = AigBuilder::new();
    let x = b.add_input();
    let y = b.add_input();
    let g = b.add_and_optimized(x, y.invert());
    b.add_output(g);
    let graph = b.build();
    let trace = graph.simulate(Repeat { left: 3 });
    assert_eq!(trace.len(), 3);
    for step in &trace {
        assert_eq!(step.inputs, vec![Value::MAX, 0]);
        assert_eq!(step.outputs, vec![Value::MAX]);
    }
}
