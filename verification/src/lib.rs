//! A minimal computation-graph execution engine.
//!
//! A [`graph::Graph`] is a static description of a directed acyclic dataflow
//! graph: a set of operations, each binding an operator to named input and
//! output values.  The [`executor::SimpleGraphExecutor`] validates a graph,
//! derives a topologically ordered execution plan together with a memory
//! layout for every intermediate value, and then runs the plan against real
//! byte buffers.

pub mod buffer;
pub mod executor;
pub mod graph;
pub mod idmap;
pub mod layout;
pub mod operator;
pub mod schedule;
pub mod semantics;

pub use buffer::Buffer;
pub use executor::ExecError;
pub use executor::GraphExecutor;
pub use executor::SimpleGraphExecutor;
pub use graph::Graph;
pub use graph::Operation;
pub use operator::Operator;
