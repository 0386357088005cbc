//! The static description of a computation graph, and the properties the
//! executor validates about it.

use std::rc::Rc;

use vstd::prelude::*;

use crate::operator::Operator;

verus! {

/// One operator application bound to specific input and output value ids.
/// The operator handle is shared: several operations may reference the same
/// stateless operator instance.
pub struct Operation<Op: Operator> {
    /// Shared handle to the operator that performs this operation.
    pub operator: Rc<Op>,
    /// Identifiers of the values this operation consumes, in operator
    /// input order.
    pub input_ids: Vec<usize>,
    /// Identifiers of the values this operation produces, in operator
    /// output order.
    pub output_ids: Vec<usize>,
}

impl<Op: Operator> Operation<Op> {
    /// Builds an operation from an operator handle and its value ids.
    pub fn new(operator: Rc<Op>, input_ids: Vec<usize>, output_ids: Vec<usize>) -> (operation:
        Self)
        ensures
            operation.operator == operator,
            operation.input_ids@ == input_ids@,
            operation.output_ids@ == output_ids@,
    {
        Self { operator, input_ids, output_ids }
    }
}

/// An unordered collection of operations, together with the value ids that
/// are the inputs and the outputs of the whole graph.  Pure data: the
/// executor validates it and derives an execution order.
pub struct Graph<Op: Operator> {
    /// The operations, in no particular execution order.
    pub operations: Vec<Operation<Op>>,
    /// Identifiers of the values the caller supplies to the graph.
    pub input_ids: Vec<usize>,
    /// Identifiers of the values the graph hands back to the caller.
    pub output_ids: Vec<usize>,
}

impl<Op: Operator> Graph<Op> {
    /// Builds a graph from its operations and its input and output ids.
    pub fn new(operations: Vec<Operation<Op>>, input_ids: Vec<usize>, output_ids: Vec<usize>) -> (
        graph: Self)
        ensures
            graph.operations@ == operations@,
            graph.input_ids@ == input_ids@,
            graph.output_ids@ == output_ids@,
    {
        Self { operations, input_ids, output_ids }
    }
}

/// Operation `j` of the graph produces value `id`.
pub open spec fn produces_at<Op: Operator>(g: Graph<Op>, j: int, id: usize) -> bool {
    g.operations@[j].output_ids@.contains(id)
}

/// Operation `j` of the graph consumes value `id`.
pub open spec fn consumes_at<Op: Operator>(g: Graph<Op>, j: int, id: usize) -> bool {
    g.operations@[j].input_ids@.contains(id)
}

/// Value `id` is one of the graph's declared inputs.
pub open spec fn is_graph_input<Op: Operator>(g: Graph<Op>, id: usize) -> bool {
    g.input_ids@.contains(id)
}

/// Some operation of the graph produces value `id`.
pub open spec fn has_producer<Op: Operator>(g: Graph<Op>, id: usize) -> bool {
    exists|j: int| 0 <= j < g.operations@.len() && produces_at(g, j, id)
}

/// No value id has two producers: distinct operations never produce the
/// same id, and no operation lists the same output id twice.
pub open spec fn unique_producers<Op: Operator>(g: Graph<Op>) -> bool {
    &&& forall|j1: int, j2: int, id: usize|
        0 <= j1 < g.operations@.len() && 0 <= j2 < g.operations@.len()
            && #[trigger] produces_at(g, j1, id) && #[trigger] produces_at(g, j2, id) ==> j1 == j2
    &&& forall|j: int, k1: int, k2: int|
        0 <= j < g.operations@.len() && 0 <= k1 < g.operations@[j].output_ids@.len() && 0 <= k2
            < g.operations@[j].output_ids@.len() && k1 != k2
            ==> #[trigger] g.operations@[j].output_ids@[k1]
            != #[trigger] g.operations@[j].output_ids@[k2]
}

/// The graph's structural invariant: every produced id has exactly one
/// producing position, the declared graph inputs are pairwise distinct, and
/// no graph input is produced by an operation.
pub open spec fn graph_wf<Op: Operator>(g: Graph<Op>) -> bool {
    &&& unique_producers(g)
    &&& forall|k1: int, k2: int|
        0 <= k1 < g.input_ids@.len() && 0 <= k2 < g.input_ids@.len() && k1 != k2
            ==> #[trigger] g.input_ids@[k1] != #[trigger] g.input_ids@[k2]
    &&& forall|k: int|
        0 <= k < g.input_ids@.len() ==> !has_producer(g, #[trigger] g.input_ids@[k])
}

/// Every operation's id counts agree with its operator's declared arity.
pub open spec fn arity_ok<Op: Operator>(g: Graph<Op>) -> bool {
    forall|j: int|
        0 <= j < g.operations@.len() ==> {
            &&& (#[trigger] g.operations@[j]).input_ids@.len()
                == (*g.operations@[j].operator).spec_input_count()
            &&& g.operations@[j].output_ids@.len()
                == (*g.operations@[j].operator).spec_output_count()
        }
}

/// Value `id` is resolvable: produced by some operation or supplied as a
/// graph input.
pub open spec fn resolvable<Op: Operator>(g: Graph<Op>, id: usize) -> bool {
    is_graph_input(g, id) || has_producer(g, id)
}

/// Every id consumed by an operation, and every id listed as a graph
/// output, has a producer or is a graph input.
pub open spec fn no_dangling<Op: Operator>(g: Graph<Op>) -> bool {
    &&& forall|j: int, i: int|
        0 <= j < g.operations@.len() && 0 <= i < g.operations@[j].input_ids@.len()
            ==> resolvable(g, #[trigger] g.operations@[j].input_ids@[i])
    &&& forall|k: int|
        0 <= k < g.output_ids@.len() ==> resolvable(g, #[trigger] g.output_ids@[k])
}

/// At point `k` of an execution order, value `id` is already available: it
/// is a graph input or was produced by an earlier operation of the order.
pub open spec fn ready_at<Op: Operator>(g: Graph<Op>, order: Seq<int>, k: int, id: usize) -> bool {
    is_graph_input(g, id) || exists|j: int| 0 <= j < k && produces_at(g, order[j], id)
}

/// Every input of operation `j` is already available after the operations
/// of `done` have run.
pub open spec fn op_all_ready<Op: Operator>(g: Graph<Op>, done: Seq<int>, j: int) -> bool {
    forall|i: int|
        0 <= i < g.operations@[j].input_ids@.len()
            ==> ready_at(g, done, done.len() as int, #[trigger] g.operations@[j].input_ids@[i])
}

/// `done` schedules pairwise distinct operations of the graph, each with
/// its inputs available before it runs; a prefix of a topological order.
pub open spec fn valid_prefix<Op: Operator>(g: Graph<Op>, done: Seq<int>) -> bool {
    &&& forall|k: int| 0 <= k < done.len() ==> 0 <= #[trigger] done[k] < g.operations@.len()
    &&& forall|k1: int, k2: int|
        0 <= k1 < done.len() && 0 <= k2 < done.len() && k1 != k2
            ==> #[trigger] done[k1] != #[trigger] done[k2]
    &&& forall|k: int, i: int|
        0 <= k < done.len() && 0 <= i < g.operations@[done[k]].input_ids@.len()
            ==> ready_at(g, done, k, #[trigger] g.operations@[done[k]].input_ids@[i])
}

/// `order` is a valid topological execution order for the graph: a
/// permutation of the operation indices in which every operation's inputs
/// are available before it runs.
pub open spec fn valid_order<Op: Operator>(g: Graph<Op>, order: Seq<int>) -> bool {
    order.len() == g.operations@.len() && valid_prefix(g, order)
}

/// The dependency relation of the graph admits a topological order; this is
/// the graph being acyclic.
pub open spec fn schedulable<Op: Operator>(g: Graph<Op>) -> bool {
    exists|order: Seq<int>| valid_order(g, order)
}

/// A list of operation indices, as mathematical integers.
pub open spec fn to_int_seq(s: Seq<usize>) -> Seq<int> {
    s.map(|_i: int, v: usize| v as int)
}

} // verus!
