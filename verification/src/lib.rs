//! A dataflow-graph-to-code compiler core.
//!
//! Nodes declare computation shape (input and output arity) together with a
//! code-generation rule, edges declare data dependencies, and a compilation
//! pass linearizes the graph into an ordered, aliasing-correct sequence of
//! statements forming one or more callable entry functions.
//!
//! The modules, leaves first: [`node`] is the capability model every vertex
//! carries; [`graph`] the directed multigraph container; [`boundary`] the
//! inlet and outlet marker nodes; [`codegen`] the evaluation-order engine;
//! [`emit`] the code synthesizer; [`nested`] the subgraph-as-node adapter;
//! [`registry`] the tag-based persistence registry.

pub mod boundary;
pub mod codegen;
pub mod emit;
pub mod graph;
pub mod nested;
pub mod node;
pub mod registry;
