pub mod aig_graph;
pub mod aiger;
pub mod aiger_parser;
pub mod graph;
pub mod paths;
pub mod text;
