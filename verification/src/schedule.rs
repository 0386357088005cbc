//! Validation of a graph and derivation of a topological execution order.

use vstd::pervasive::VecAdditionalExecFns;
use vstd::prelude::*;

use crate::graph::{
    arity_ok, consumes_at, graph_wf, has_producer, is_graph_input, no_dangling, op_all_ready,
    produces_at, ready_at, resolvable, schedulable, to_int_seq, valid_order, valid_prefix, Graph,
};
use crate::operator::Operator;

verus! {

/// Whether `ids` holds `id`.
pub fn list_contains(ids: &Vec<usize>, id: usize) -> (r: bool)
    ensures
        r == ids@.contains(id),
{
    let mut i: usize = 0;
    while i < ids.len()
        invariant
            i <= ids@.len(),
            forall|j: int| 0 <= j < i ==> ids@[j] != id,
        decreases ids@.len() - i,
    {
        if ids[i] == id {
            return true;
        }
        i = i + 1;
    }
    false
}

/// Whether every operation's id counts agree with its operator's arity.
pub fn check_arity<Op: Operator>(graph: &Graph<Op>) -> (r: bool)
    ensures
        r == arity_ok(*graph),
{
    let mut j: usize = 0;
    while j < graph.operations.len()
        invariant
            j <= graph.operations@.len(),
            forall|j2: int|
                0 <= j2 < j ==> {
                    &&& (#[trigger] graph.operations@[j2]).input_ids@.len()
                        == (*graph.operations@[j2].operator).spec_input_count()
                    &&& graph.operations@[j2].output_ids@.len()
                        == (*graph.operations@[j2].operator).spec_output_count()
                },
        decreases graph.operations@.len() - j,
    {
        let op = &graph.operations[j];
        if op.input_ids.len() != op.operator.input_count() {
            return false;
        }
        if op.output_ids.len() != op.operator.output_count() {
            return false;
        }
        j = j + 1;
    }
    true
}

/// Whether `id` is produced by some operation or is a graph input.
pub fn id_resolvable<Op: Operator>(graph: &Graph<Op>, id: usize) -> (r: bool)
    ensures
        r == resolvable(*graph, id),
{
    if list_contains(&graph.input_ids, id) {
        return true;
    }
    let mut j: usize = 0;
    while j < graph.operations.len()
        invariant
            j <= graph.operations@.len(),
            forall|j2: int| 0 <= j2 < j ==> !produces_at(*graph, j2, id),
        decreases graph.operations@.len() - j,
    {
        if list_contains(&graph.operations[j].output_ids, id) {
            proof {
                assert(produces_at(*graph, j as int, id));
            }
            return true;
        }
        j = j + 1;
    }
    proof {
        assert(!has_producer(*graph, id));
    }
    false
}

/// Whether every consumed id, and every graph output id, is resolvable.
pub fn check_dangling<Op: Operator>(graph: &Graph<Op>) -> (r: bool)
    ensures
        r == no_dangling(*graph),
{
    let mut j: usize = 0;
    while j < graph.operations.len()
        invariant
            j <= graph.operations@.len(),
            forall|j2: int, i: int|
                0 <= j2 < j && 0 <= i < graph.operations@[j2].input_ids@.len()
                    ==> resolvable(*graph, #[trigger] graph.operations@[j2].input_ids@[i]),
        decreases graph.operations@.len() - j,
    {
        let op = &graph.operations[j];
        let mut i: usize = 0;
        while i < op.input_ids.len()
            invariant
                i <= op.input_ids@.len(),
                op == graph.operations@[j as int],
                j < graph.operations@.len(),
                forall|i2: int|
                    0 <= i2 < i ==> resolvable(*graph, #[trigger] op.input_ids@[i2]),
            decreases op.input_ids@.len() - i,
        {
            if !id_resolvable(graph, op.input_ids[i]) {
                return false;
            }
            i = i + 1;
        }
        j = j + 1;
    }
    let mut k: usize = 0;
    while k < graph.output_ids.len()
        invariant
            k <= graph.output_ids@.len(),
            forall|j2: int, i: int|
                0 <= j2 < graph.operations@.len() && 0 <= i
                    < graph.operations@[j2].input_ids@.len()
                    ==> resolvable(*graph, #[trigger] graph.operations@[j2].input_ids@[i]),
            forall|k2: int|
                0 <= k2 < k ==> resolvable(*graph, #[trigger] graph.output_ids@[k2]),
        decreases graph.output_ids@.len() - k,
    {
        if !id_resolvable(graph, graph.output_ids[k]) {
            return false;
        }
        k = k + 1;
    }
    true
}

/// Whether `id` is available once the operations of `done` have run.
fn id_ready<Op: Operator>(
    graph: &Graph<Op>,
    scheduled: &Vec<bool>,
    Ghost(done): Ghost<Seq<int>>,
    id: usize,
) -> (r: bool)
    requires
        scheduled@.len() == graph.operations@.len(),
        forall|j: int| 0 <= j < scheduled@.len() ==> (scheduled@[j] == done.contains(j)),
        forall|k: int| 0 <= k < done.len() ==> 0 <= #[trigger] done[k] < graph.operations@.len(),
    ensures
        r == ready_at(*graph, done, done.len() as int, id),
{
    if list_contains(&graph.input_ids, id) {
        return true;
    }
    let mut j: usize = 0;
    while j < graph.operations.len()
        invariant
            j <= graph.operations@.len(),
            scheduled@.len() == graph.operations@.len(),
            forall|j2: int| 0 <= j2 < scheduled@.len() ==> (scheduled@[j2] == done.contains(j2)),
            forall|j2: int|
                0 <= j2 < j ==> !(scheduled@[j2] && produces_at(*graph, j2, id)),
        decreases graph.operations@.len() - j,
    {
        if scheduled[j] && list_contains(&graph.operations[j].output_ids, id) {
            proof {
                assert(done.contains(j as int));
                let i = choose|i: int| 0 <= i < done.len() && done[i] == j as int;
                assert(produces_at(*graph, done[i], id));
            }
            return true;
        }
        j = j + 1;
    }
    proof {
        assert(!ready_at(*graph, done, done.len() as int, id)) by {
            if ready_at(*graph, done, done.len() as int, id) {
                let i = choose|i: int|
                    0 <= i < done.len() && produces_at(*graph, done[i], id);
                assert(done.contains(done[i]));
                assert(scheduled@[done[i]]);
                assert(false);
            }
        };
    }
    false
}

/// Looks for an unscheduled operation whose inputs are all available.
fn find_ready<Op: Operator>(
    graph: &Graph<Op>,
    scheduled: &Vec<bool>,
    Ghost(done): Ghost<Seq<int>>,
) -> (r: Option<usize>)
    requires
        scheduled@.len() == graph.operations@.len(),
        forall|j: int| 0 <= j < scheduled@.len() ==> (scheduled@[j] == done.contains(j)),
        forall|k: int| 0 <= k < done.len() ==> 0 <= #[trigger] done[k] < graph.operations@.len(),
    ensures
        match r {
            Some(j) => {
                &&& (j as int) < graph.operations@.len()
                &&& !scheduled@[j as int]
                &&& op_all_ready(*graph, done, j as int)
            },
            None => forall|j: int|
                0 <= j < graph.operations@.len() && !done.contains(j)
                    ==> !op_all_ready(*graph, done, j),
        },
{
    let mut j: usize = 0;
    while j < graph.operations.len()
        invariant
            j <= graph.operations@.len(),
            scheduled@.len() == graph.operations@.len(),
            forall|j2: int| 0 <= j2 < scheduled@.len() ==> (scheduled@[j2] == done.contains(j2)),
            forall|k: int|
                0 <= k < done.len() ==> 0 <= #[trigger] done[k] < graph.operations@.len(),
            forall|j2: int|
                0 <= j2 < j && !done.contains(j2) ==> !op_all_ready(*graph, done, j2),
        decreases graph.operations@.len() - j,
    {
        if !scheduled[j] {
            let op = &graph.operations[j];
            let mut all_ready = true;
            let mut i: usize = 0;
            while i < op.input_ids.len() && all_ready
                invariant
                    i <= op.input_ids@.len(),
                    op == graph.operations@[j as int],
                    j < graph.operations@.len(),
                    scheduled@.len() == graph.operations@.len(),
                    forall|j2: int|
                        0 <= j2 < scheduled@.len() ==> (scheduled@[j2] == done.contains(j2)),
                    forall|k: int|
                        0 <= k < done.len() ==> 0 <= #[trigger] done[k]
                            < graph.operations@.len(),
                    all_ready ==> forall|i2: int|
                        0 <= i2 < i
                            ==> ready_at(
                            *graph,
                            done,
                            done.len() as int,
                            #[trigger] op.input_ids@[i2],
                        ),
                    !all_ready ==> !op_all_ready(*graph, done, j as int),
                decreases op.input_ids@.len() - i,
            {
                if !id_ready(graph, scheduled, Ghost(done), op.input_ids[i]) {
                    all_ready = false;
                }
                i = i + 1;
            }
            if all_ready {
                return Some(j);
            }
        }
        j = j + 1;
    }
    None
}

/// A proof that a position holding an operation outside `done` exists in
/// `order`, and a least such position.
proof fn first_unscheduled(order: Seq<int>, done: Seq<int>, k: int) -> (p: int)
    requires
        0 <= k <= order.len(),
        exists|q: int| k <= q < order.len() && !done.contains(#[trigger] order[q]),
        forall|q: int| 0 <= q < k ==> done.contains(#[trigger] order[q]),
    ensures
        0 <= p < order.len(),
        !done.contains(order[p]),
        forall|q: int| 0 <= q < p ==> done.contains(#[trigger] order[q]),
    decreases order.len() - k,
{
    if !done.contains(order[k]) {
        k
    } else {
        let q0 = choose|q: int| k <= q < order.len() && !done.contains(#[trigger] order[q]);
        assert(q0 != k);
        first_unscheduled(order, done, k + 1)
    }
}

/// When no unscheduled operation has all its inputs available, no
/// topological order of the whole graph exists: the remaining operations
/// form a dependency cycle.
pub proof fn lemma_stuck_unschedulable<Op: Operator>(g: Graph<Op>, done: Seq<int>)
    requires
        valid_prefix(g, done),
        done.len() < g.operations@.len(),
        forall|j: int|
            0 <= j < g.operations@.len() && !done.contains(j) ==> !op_all_ready(g, done, j),
    ensures
        !schedulable(g),
{
    broadcast use vstd::seq_lib::seq_to_set_is_finite;

    assert(!schedulable(g)) by {
        if schedulable(g) {
            let order = choose|order: Seq<int>| valid_order(g, order);
            assert(exists|q: int| 0 <= q < order.len() && !done.contains(#[trigger] order[q]))
                by {
                if forall|q: int| 0 <= q < order.len() ==> done.contains(#[trigger] order[q]) {
                    assert(order.no_duplicates());
                    order.unique_seq_to_set();
                    assert forall|x: int| order.to_set().contains(x) implies done.to_set().contains(
                        x,
                    ) by {
                        let q = choose|q: int| 0 <= q < order.len() && order[q] == x;
                        assert(done.contains(order[q]));
                    };
                    assert(order.to_set().subset_of(done.to_set()));
                    done.lemma_cardinality_of_set();
                    vstd::set_lib::lemma_len_subset(order.to_set(), done.to_set());
                    assert(false);
                }
            };
            let p = first_unscheduled(order, done, 0);
            let j = order[p];
            assert(0 <= j < g.operations@.len());
            assert(op_all_ready(g, done, j)) by {
                assert forall|i: int| 0 <= i < g.operations@[j].input_ids@.len() implies ready_at(
                    g,
                    done,
                    done.len() as int,
                    #[trigger] g.operations@[j].input_ids@[i],
                ) by {
                    let id = g.operations@[j].input_ids@[i];
                    assert(ready_at(g, order, p, id));
                    if !is_graph_input(g, id) {
                        let q = choose|q: int| 0 <= q < p && produces_at(g, order[q], id);
                        assert(done.contains(order[q]));
                        let i2 = choose|i2: int| 0 <= i2 < done.len() && done[i2] == order[q];
                        assert(produces_at(g, done[i2], id));
                    }
                };
            };
            assert(false);
        }
    };
}

/// Operation `j1` depends on operation `j2`: it consumes a value `j2`
/// produces.
pub open spec fn depends_on<Op: Operator>(g: Graph<Op>, j1: int, j2: int) -> bool {
    exists|id: usize| #[trigger] consumes_at(g, j1, id) && produces_at(g, j2, id)
}

/// `c` is a dependency cycle: a nonempty list of operation indices where
/// each operation consumes a value produced by the next, wrapping around.
pub open spec fn is_cycle<Op: Operator>(g: Graph<Op>, c: Seq<int>) -> bool {
    &&& c.len() > 0
    &&& forall|i: int| 0 <= i < c.len() ==> 0 <= #[trigger] c[i] < g.operations@.len()
    &&& forall|i: int|
        0 <= i < c.len() ==> depends_on(
            g,
            #[trigger] c[i],
            c[if i + 1 < c.len() {
                i + 1
            } else {
                0
            }],
        )
}

/// A proof of a least position of `order` holding a member of `c`.
proof fn first_in_cycle(order: Seq<int>, c: Seq<int>, k: int) -> (p: int)
    requires
        0 <= k <= order.len(),
        exists|q: int| k <= q < order.len() && c.contains(#[trigger] order[q]),
        forall|q: int| 0 <= q < k ==> !c.contains(#[trigger] order[q]),
    ensures
        0 <= p < order.len(),
        c.contains(order[p]),
        forall|q: int| 0 <= q < p ==> !c.contains(#[trigger] order[q]),
    decreases order.len() - k,
{
    if c.contains(order[k]) {
        k
    } else {
        let q0 = choose|q: int| k <= q < order.len() && c.contains(#[trigger] order[q]);
        assert(q0 != k);
        first_in_cycle(order, c, k + 1)
    }
}

/// A well-formed graph with a dependency cycle admits no topological
/// order: `prepare` can never schedule it.
pub proof fn lemma_cycle_unschedulable<Op: Operator>(g: Graph<Op>, c: Seq<int>)
    requires
        graph_wf(g),
        is_cycle(g, c),
    ensures
        !schedulable(g),
{
    if schedulable(g) {
        let order = choose|order: Seq<int>| valid_order(g, order);
        crate::semantics::lemma_order_onto(g, order, c[0]);
        assert(exists|q: int| 0 <= q < order.len() && c.contains(#[trigger] order[q])) by {
            let q0 = choose|q: int| 0 <= q < order.len() && order[q] == c[0];
            assert(c.contains(order[q0]));
        };
        let p = first_in_cycle(order, c, 0);
        let i = choose|i: int| 0 <= i < c.len() && c[i] == order[p];
        let nxt = if i + 1 < c.len() {
            i + 1
        } else {
            0
        };
        assert(depends_on(g, c[i], c[nxt]));
        let id = choose|id: usize| #[trigger] consumes_at(g, c[i], id) && produces_at(g, c[nxt], id);
        let ii = choose|ii: int|
            0 <= ii < g.operations@[order[p]].input_ids@.len()
                && g.operations@[order[p]].input_ids@[ii] == id;
        assert(ready_at(g, order, p, g.operations@[order[p]].input_ids@[ii]));
        assert(!is_graph_input(g, id)) by {
            if is_graph_input(g, id) {
                let ki = choose|ki: int| 0 <= ki < g.input_ids@.len() && g.input_ids@[ki] == id;
                assert(has_producer(g, id));
                assert(false);
            }
        };
        let q = choose|q: int| 0 <= q < p && produces_at(g, order[q], id);
        assert(0 <= order[q] < g.operations@.len());
        assert(order[q] == c[nxt]);
        assert(c.contains(order[q]));
        assert(false);
    }
}

/// Derives a topological execution order for the graph, or reports that
/// none exists because the dependency relation has a cycle.
pub fn topological_order<Op: Operator>(graph: &Graph<Op>) -> (r: Option<Vec<usize>>)
    ensures
        match r {
            Some(order) => valid_order(*graph, to_int_seq(order@)),
            None => !schedulable(*graph),
        },
{
    let n = graph.operations.len();
    let mut scheduled: Vec<bool> = Vec::new();
    while scheduled.len() < n
        invariant
            scheduled@.len() <= n,
            forall|j: int| 0 <= j < scheduled@.len() ==> !scheduled@[j],
        decreases n - scheduled@.len(),
    {
        scheduled.push(false);
    }
    let mut order: Vec<usize> = Vec::new();
    while order.len() < n
        invariant
            n == graph.operations@.len(),
            scheduled@.len() == n,
            order@.len() <= n,
            forall|j: int|
                0 <= j < n ==> (scheduled@[j] == to_int_seq(order@).contains(j)),
            valid_prefix(*graph, to_int_seq(order@)),
        decreases n - order@.len(),
    {
        let ghost done = to_int_seq(order@);
        match find_ready(graph, &scheduled, Ghost(done)) {
            Some(j) => {
                scheduled.set(j, true);
                order.push(j);
                proof {
                    let done2 = to_int_seq(order@);
                    assert(done2 =~= done.push(j as int));
                    assert forall|j2: int| 0 <= j2 < n implies (scheduled@[j2] == done2.contains(
                        j2,
                    )) by {
                        if done2.contains(j2) {
                            let q = choose|q: int| 0 <= q < done2.len() && done2[q] == j2;
                            if q < done.len() {
                                assert(done.contains(j2));
                            }
                        }
                        if done.contains(j2) {
                            let q = choose|q: int| 0 <= q < done.len() && done[q] == j2;
                            assert(done2[q] == j2);
                        }
                        if j2 == j as int {
                            assert(done2[done2.len() - 1] == j2);
                        }
                    };
                    assert(valid_prefix(*graph, done2)) by {
                        assert forall|k1: int, k2: int|
                            0 <= k1 < done2.len() && 0 <= k2 < done2.len() && k1 != k2 implies
                            done2[k1] != done2[k2] by {
                            if k1 < done.len() && k2 < done.len() {
                            } else if k1 == done.len() {
                                assert(!done.contains(j as int));
                                if done2[k1] == done2[k2] {
                                    assert(done.contains(j as int));
                                }
                            } else if k2 == done.len() {
                                assert(!done.contains(j as int));
                                if done2[k1] == done2[k2] {
                                    assert(done.contains(j as int));
                                }
                            }
                        };
                        assert forall|k: int, i: int|
                            0 <= k < done2.len() && 0 <= i
                                < graph.operations@[done2[k]].input_ids@.len() implies ready_at(
                            *graph,
                            done2,
                            k,
                            #[trigger] graph.operations@[done2[k]].input_ids@[i],
                        ) by {
                            let id = graph.operations@[done2[k]].input_ids@[i];
                            if k < done.len() {
                                assert(ready_at(*graph, done, k, id));
                                if !is_graph_input(*graph, id) {
                                    let q = choose|q: int|
                                        0 <= q < k && produces_at(*graph, done[q], id);
                                    assert(produces_at(*graph, done2[q], id));
                                }
                            } else {
                                assert(done2[k] == j as int);
                                assert(ready_at(*graph, done, done.len() as int, id));
                                if !is_graph_input(*graph, id) {
                                    let q = choose|q: int|
                                        0 <= q < done.len() && produces_at(*graph, done[q], id);
                                    assert(produces_at(*graph, done2[q], id));
                                }
                            }
                        };
                    };
                }
            },
            None => {
                proof {
                    lemma_stuck_unschedulable(*graph, done);
                }
                return None;
            },
        }
    }
    Some(order)
}

} // verus!
