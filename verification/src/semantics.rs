//! The meaning of a graph under an execution order: which size and which
//! bytes every value id carries after each step.

use vstd::prelude::*;

use crate::graph::{
    arity_ok, consumes_at, graph_wf, has_producer, is_graph_input, produces_at, ready_at,
    resolvable, valid_order, Graph, Operation,
};
use crate::operator::Operator;

verus! {

/// Binds `ids[i]` to `vals[i]` in `m`, position by position; on a repeated
/// id the later position wins.
pub open spec fn bind_ids<V>(m: Map<usize, V>, ids: Seq<usize>, vals: Seq<V>) -> Map<usize, V>
    decreases ids.len(),
{
    if ids.len() == 0 {
        m
    } else {
        bind_ids(m, ids.drop_last(), vals.drop_last()).insert(ids.last(), vals.last())
    }
}

/// A bound id is in the result; an unbound one keeps its entry in `m`.
pub proof fn lemma_bind_ids_frame<V>(m: Map<usize, V>, ids: Seq<usize>, vals: Seq<V>, id: usize)
    requires
        !ids.contains(id),
    ensures
        bind_ids(m, ids, vals).contains_key(id) == m.contains_key(id),
        m.contains_key(id) ==> bind_ids(m, ids, vals)[id] == m[id],
    decreases ids.len(),
{
    if ids.len() > 0 {
        assert(ids[ids.len() - 1] != id);
        assert(forall|i: int|
            0 <= i < ids.drop_last().len() ==> ids.drop_last()[i] == ids[i]);
        assert(!ids.drop_last().contains(id));
        lemma_bind_ids_frame(m, ids.drop_last(), vals.drop_last(), id);
    }
}

/// The domain of the result is the domain of `m` plus the bound ids.
pub proof fn lemma_bind_ids_domain<V>(m: Map<usize, V>, ids: Seq<usize>, vals: Seq<V>, id: usize)
    ensures
        bind_ids(m, ids, vals).contains_key(id) == (m.contains_key(id) || ids.contains(id)),
    decreases ids.len(),
{
    if ids.len() > 0 {
        lemma_bind_ids_domain(m, ids.drop_last(), vals.drop_last(), id);
        if ids.contains(id) {
            let i = choose|i: int| 0 <= i < ids.len() && ids[i] == id;
            if i < ids.len() - 1 {
                assert(ids.drop_last()[i] == id);
                assert(ids.drop_last().contains(id));
            }
        } else {
            assert(forall|i: int|
                0 <= i < ids.drop_last().len() ==> ids.drop_last()[i] == ids[i]);
            assert(!ids.drop_last().contains(id));
        }
    }
}

/// With pairwise distinct ids, position `i` is bound to `vals[i]`.
pub proof fn lemma_bind_ids_at<V>(m: Map<usize, V>, ids: Seq<usize>, vals: Seq<V>, i: int)
    requires
        vals.len() == ids.len(),
        forall|i1: int, i2: int|
            0 <= i1 < ids.len() && 0 <= i2 < ids.len() && i1 != i2 ==> ids[i1] != ids[i2],
        0 <= i < ids.len(),
    ensures
        bind_ids(m, ids, vals).contains_key(ids[i]),
        bind_ids(m, ids, vals)[ids[i]] == vals[i],
    decreases ids.len(),
{
    if i == ids.len() - 1 {
    } else {
        assert(forall|j: int|
            0 <= j < ids.drop_last().len() ==> ids.drop_last()[j] == ids[j]);
        lemma_bind_ids_at(m, ids.drop_last(), vals.drop_last(), i);
        assert(ids.last() != ids[i]);
    }
}

/// The sizes an operation reads, under a size assignment for the ids.
pub open spec fn op_input_sizes<Op: Operator>(op: Operation<Op>, m: Map<usize, usize>) -> Seq<
    usize,
> {
    Seq::new(op.input_ids@.len(), |i: int| m[op.input_ids@[i]])
}

/// The size of every value id after the first `k` steps of `order`: the
/// graph inputs seeded from `input_sizes`, then each operation's outputs
/// bound to its operator's size inference applied to its input sizes.
pub open spec fn sizes_after<Op: Operator>(
    g: Graph<Op>,
    order: Seq<int>,
    input_sizes: Seq<usize>,
    k: int,
) -> Map<usize, usize>
    decreases k,
{
    if k <= 0 {
        bind_ids(Map::empty(), g.input_ids@, input_sizes)
    } else {
        let m = sizes_after(g, order, input_sizes, k - 1);
        let op = g.operations@[order[k - 1]];
        bind_ids(m, op.output_ids@, (*op.operator).spec_output_sizes(op_input_sizes(op, m)))
    }
}

/// The values an operation reads, under a value assignment for the ids.
pub open spec fn op_input_values<Op: Operator>(op: Operation<Op>, m: Map<usize, Seq<u8>>) -> Seq<
    Seq<u8>,
> {
    Seq::new(op.input_ids@.len(), |i: int| m[op.input_ids@[i]])
}

/// The bytes every value id carries after the first `k` steps of `order`:
/// the graph inputs seeded from `input_values`, then each operation's
/// outputs bound to its operator's computation applied to its input values.
pub open spec fn values_after<Op: Operator>(
    g: Graph<Op>,
    order: Seq<int>,
    input_values: Seq<Seq<u8>>,
    k: int,
) -> Map<usize, Seq<u8>>
    decreases k,
{
    if k <= 0 {
        bind_ids(Map::empty(), g.input_ids@, input_values)
    } else {
        let m = values_after(g, order, input_values, k - 1);
        let op = g.operations@[order[k - 1]];
        bind_ids(m, op.output_ids@, (*op.operator).spec_execute(op_input_values(op, m)))
    }
}

/// The order's elements are operation indices, pairwise distinct.
pub open spec fn order_in_range<Op: Operator>(g: Graph<Op>, order: Seq<int>) -> bool {
    &&& forall|k: int| 0 <= k < order.len() ==> 0 <= #[trigger] order[k] < g.operations@.len()
    &&& forall|k1: int, k2: int|
        0 <= k1 < order.len() && 0 <= k2 < order.len() && k1 != k2
            ==> #[trigger] order[k1] != #[trigger] order[k2]
}

/// A size is recorded for `id` after `k` steps exactly when `id` is a graph
/// input or was produced by one of those steps.
pub proof fn lemma_sizes_domain<Op: Operator>(
    g: Graph<Op>,
    order: Seq<int>,
    input_sizes: Seq<usize>,
    k: int,
    id: usize,
)
    requires
        0 <= k,
    ensures
        sizes_after(g, order, input_sizes, k).contains_key(id) == ready_at(g, order, k, id),
    decreases k,
{
    if k == 0 {
        lemma_bind_ids_domain(Map::<usize, usize>::empty(), g.input_ids@, input_sizes, id);
    } else {
        lemma_sizes_domain(g, order, input_sizes, k - 1, id);
        let m = sizes_after(g, order, input_sizes, k - 1);
        let op = g.operations@[order[k - 1]];
        lemma_bind_ids_domain(
            m,
            op.output_ids@,
            (*op.operator).spec_output_sizes(op_input_sizes(op, m)),
            id,
        );
        if ready_at(g, order, k, id) && !ready_at(g, order, k - 1, id) {
            let j = choose|j: int| 0 <= j < k && produces_at(g, order[j], id);
            assert(j == k - 1);
        }
        if op.output_ids@.contains(id) {
            assert(produces_at(g, order[k - 1], id));
        }
    }
}

/// A value is recorded for `id` after `k` steps exactly when `id` is a
/// graph input or was produced by one of those steps.
pub proof fn lemma_values_domain<Op: Operator>(
    g: Graph<Op>,
    order: Seq<int>,
    input_values: Seq<Seq<u8>>,
    k: int,
    id: usize,
)
    requires
        0 <= k,
    ensures
        values_after(g, order, input_values, k).contains_key(id) == ready_at(g, order, k, id),
    decreases k,
{
    if k == 0 {
        lemma_bind_ids_domain(Map::<usize, Seq<u8>>::empty(), g.input_ids@, input_values, id);
    } else {
        lemma_values_domain(g, order, input_values, k - 1, id);
        let m = values_after(g, order, input_values, k - 1);
        let op = g.operations@[order[k - 1]];
        lemma_bind_ids_domain(
            m,
            op.output_ids@,
            (*op.operator).spec_execute(op_input_values(op, m)),
            id,
        );
        if ready_at(g, order, k, id) && !ready_at(g, order, k - 1, id) {
            let j = choose|j: int| 0 <= j < k && produces_at(g, order[j], id);
            assert(j == k - 1);
        }
        if op.output_ids@.contains(id) {
            assert(produces_at(g, order[k - 1], id));
        }
    }
}

/// Step `k` of the order binds as many sizes as its operation has output
/// ids, so the size fold never binds a stray value.
pub open spec fn step_sizes_ok<Op: Operator>(
    g: Graph<Op>,
    order: Seq<int>,
    input_sizes: Seq<usize>,
    k: int,
) -> bool {
    (*g.operations@[order[k]].operator).spec_output_sizes(
        op_input_sizes(g.operations@[order[k]], sizes_after(g, order, input_sizes, k)),
    ).len() == g.operations@[order[k]].output_ids@.len()
}

/// Value `id` exists at time `t`: `t` steps of the order have run and the
/// id is a graph input or was produced by one of them.
pub open spec fn born_by<Op: Operator>(g: Graph<Op>, order: Seq<int>, id: usize, t: int) -> bool {
    t >= 0 && ready_at(g, order, t, id)
}

/// Value `id` is still wanted at or after time `t`: it is a graph output,
/// or some step from `t` on consumes it.
pub open spec fn needed_from<Op: Operator>(
    g: Graph<Op>,
    order: Seq<int>,
    id: usize,
    t: int,
) -> bool {
    g.output_ids@.contains(id) || exists|j: int|
        t <= j < order.len() && consumes_at(g, order[j], id)
}

/// Value `id`'s storage must be intact at time `t`: the value exists, and
/// `t` is its birth or the value is still wanted.
pub open spec fn lives_at<Op: Operator>(g: Graph<Op>, order: Seq<int>, id: usize, t: int) -> bool {
    born_by(g, order, id, t) && (!born_by(g, order, id, t - 1) || needed_from(g, order, id, t))
}

/// No storage slot is shared by two value ids alive at the same time.
pub open spec fn slots_safe<Op: Operator>(
    g: Graph<Op>,
    order: Seq<int>,
    slot: Map<usize, usize>,
) -> bool {
    forall|id1: usize, id2: usize, t: int|
        slot.contains_key(id1) && slot.contains_key(id2) && id1 != id2 && slot[id1] == slot[id2]
            && 0 <= t <= order.len()
            ==> !(#[trigger] lives_at(g, order, id1, t) && #[trigger] lives_at(g, order, id2, t))
}

/// A value that exists once born: being available does not lapse.
pub proof fn lemma_born_monotone<Op: Operator>(
    g: Graph<Op>,
    order: Seq<int>,
    id: usize,
    t1: int,
    t2: int,
)
    requires
        born_by(g, order, id, t1),
        t1 <= t2,
    ensures
        born_by(g, order, id, t2),
{
    if !is_graph_input(g, id) {
        let jx = choose|jx: int| 0 <= jx < t1 && produces_at(g, order[jx], id);
        assert(produces_at(g, order[jx], id));
    }
}

/// In a well-formed graph, a value produced by step `k` of the order is
/// born exactly at time `k + 1`.
pub proof fn lemma_fresh_at_birth<Op: Operator>(g: Graph<Op>, order: Seq<int>, k: int, id: usize)
    requires
        graph_wf(g),
        valid_order(g, order),
        0 <= k < order.len(),
        produces_at(g, order[k], id),
    ensures
        born_by(g, order, id, k + 1),
        !born_by(g, order, id, k),
{
    assert(born_by(g, order, id, k + 1));
    if born_by(g, order, id, k) {
        if is_graph_input(g, id) {
            let ki = choose|ki: int| 0 <= ki < g.input_ids@.len() && g.input_ids@[ki] == id;
            assert(0 <= order[k] < g.operations@.len());
            assert(has_producer(g, id));
            assert(false);
        } else {
            let s = choose|s: int| 0 <= s < k && produces_at(g, order[s], id);
            assert(order[s] == order[k]);
            assert(false);
        }
    }
}

/// A topological order reaches every operation of the graph.
pub proof fn lemma_order_onto<Op: Operator>(g: Graph<Op>, order: Seq<int>, j: int)
    requires
        valid_order(g, order),
        0 <= j < g.operations@.len(),
    ensures
        exists|k: int| 0 <= k < order.len() && order[k] == j,
{
    broadcast use vstd::seq_lib::seq_to_set_is_finite;

    if !(exists|k: int| 0 <= k < order.len() && order[k] == j) {
        assert(order.no_duplicates());
        order.unique_seq_to_set();
        let range = vstd::set_lib::set_int_range(0, g.operations@.len() as int);
        vstd::set_lib::lemma_int_range(0, g.operations@.len() as int);
        let small = range.remove(j);
        assert(small.len() == range.len() - 1);
        assert forall|x: int| order.to_set().contains(x) implies small.contains(x) by {
            let k = choose|k: int| 0 <= k < order.len() && order[k] == x;
            assert(x != j);
        };
        vstd::set_lib::lemma_len_subset(order.to_set(), small);
        assert(false);
    }
}

/// Under a topological order, an id is available at the end exactly when
/// it is a graph input or has a producer.
pub proof fn lemma_resolvable_ready<Op: Operator>(g: Graph<Op>, order: Seq<int>, id: usize)
    requires
        valid_order(g, order),
    ensures
        ready_at(g, order, order.len() as int, id) == resolvable(g, id),
{
    if ready_at(g, order, order.len() as int, id) && !is_graph_input(g, id) {
        let k = choose|k: int| 0 <= k < order.len() && produces_at(g, order[k], id);
        assert(has_producer(g, id));
    }
    if resolvable(g, id) && !is_graph_input(g, id) {
        let j = choose|j: int| 0 <= j < g.operations@.len() && produces_at(g, j, id);
        lemma_order_onto(g, order, j);
        let k = choose|k: int| 0 <= k < order.len() && order[k] == j;
        assert(produces_at(g, order[k], id));
    }
}

/// In a well-formed graph, a step never rebinds an id that is already
/// available, so later steps keep its size unchanged.
pub proof fn lemma_sizes_stable<Op: Operator>(
    g: Graph<Op>,
    order: Seq<int>,
    input_sizes: Seq<usize>,
    k1: int,
    k2: int,
    id: usize,
)
    requires
        graph_wf(g),
        order_in_range(g, order),
        0 <= k1 <= k2 <= order.len(),
        ready_at(g, order, k1, id),
    ensures
        sizes_after(g, order, input_sizes, k2).contains_key(id),
        sizes_after(g, order, input_sizes, k2)[id] == sizes_after(g, order, input_sizes, k1)[id],
    decreases k2 - k1,
{
    lemma_sizes_domain(g, order, input_sizes, k1, id);
    if k2 > k1 {
        lemma_sizes_stable(g, order, input_sizes, k1, k2 - 1, id);
        let m = sizes_after(g, order, input_sizes, k2 - 1);
        let op = g.operations@[order[k2 - 1]];
        assert(!op.output_ids@.contains(id)) by {
            if op.output_ids@.contains(id) {
                assert(produces_at(g, order[k2 - 1], id));
                if is_graph_input(g, id) {
                    let ki = choose|ki: int| 0 <= ki < g.input_ids@.len() && g.input_ids@[ki] == id;
                    assert(has_producer(g, id));
                } else {
                    let j = choose|j: int| 0 <= j < k1 && produces_at(g, order[j], id);
                    assert(order[j] == order[k2 - 1]);
                }
            }
        }
        lemma_bind_ids_frame(
            m,
            op.output_ids@,
            (*op.operator).spec_output_sizes(op_input_sizes(op, m)),
            id,
        );
    }
}

/// In a well-formed graph, a step never rebinds an id that is already
/// available, so later steps keep its value unchanged.
pub proof fn lemma_values_stable<Op: Operator>(
    g: Graph<Op>,
    order: Seq<int>,
    input_values: Seq<Seq<u8>>,
    k1: int,
    k2: int,
    id: usize,
)
    requires
        graph_wf(g),
        order_in_range(g, order),
        0 <= k1 <= k2 <= order.len(),
        ready_at(g, order, k1, id),
    ensures
        values_after(g, order, input_values, k2).contains_key(id),
        values_after(g, order, input_values, k2)[id] == values_after(g, order, input_values, k1)[id],
    decreases k2 - k1,
{
    lemma_values_domain(g, order, input_values, k1, id);
    if k2 > k1 {
        lemma_values_stable(g, order, input_values, k1, k2 - 1, id);
        let m = values_after(g, order, input_values, k2 - 1);
        let op = g.operations@[order[k2 - 1]];
        assert(!op.output_ids@.contains(id)) by {
            if op.output_ids@.contains(id) {
                assert(produces_at(g, order[k2 - 1], id));
                if is_graph_input(g, id) {
                    let ki = choose|ki: int| 0 <= ki < g.input_ids@.len() && g.input_ids@[ki] == id;
                    assert(has_producer(g, id));
                } else {
                    let j = choose|j: int| 0 <= j < k1 && produces_at(g, order[j], id);
                    assert(order[j] == order[k2 - 1]);
                }
            }
        }
        lemma_bind_ids_frame(
            m,
            op.output_ids@,
            (*op.operator).spec_execute(op_input_values(op, m)),
            id,
        );
    }
}

/// The size inference predicts execution: after any number of steps of a
/// topological order, the recorded size of an available id is the byte
/// length of the value the same steps compute for it, as a machine word.
pub proof fn lemma_sizes_predict<Op: Operator>(
    g: Graph<Op>,
    order: Seq<int>,
    input_values: Seq<Seq<u8>>,
    k: int,
    id: usize,
)
    requires
        graph_wf(g),
        arity_ok(g),
        valid_order(g, order),
        input_values.len() == g.input_ids@.len(),
        0 <= k <= order.len(),
        ready_at(g, order, k, id),
    ensures
        values_after(g, order, input_values, k).contains_key(id),
        sizes_after(g, order, crate::operator::byte_lens(input_values), k)[id] == (values_after(
            g,
            order,
            input_values,
            k,
        )[id]).len() as usize,
    decreases k,
{
    let lens = crate::operator::byte_lens(input_values);
    if k == 0 {
        assert(is_graph_input(g, id));
        let kx = choose|kx: int| 0 <= kx < g.input_ids@.len() && g.input_ids@[kx] == id;
        lemma_bind_ids_at(Map::<usize, Seq<u8>>::empty(), g.input_ids@, input_values, kx);
        lemma_bind_ids_at(Map::<usize, usize>::empty(), g.input_ids@, lens, kx);
    } else if ready_at(g, order, k - 1, id) {
        lemma_sizes_predict(g, order, input_values, k - 1, id);
        lemma_values_stable(g, order, input_values, k - 1, k, id);
        lemma_sizes_stable(g, order, lens, k - 1, k, id);
    } else {
        let jx = choose|jx: int| 0 <= jx < k && produces_at(g, order[jx], id);
        assert(jx == k - 1);
        let vm0 = values_after(g, order, input_values, k - 1);
        let sm0 = sizes_after(g, order, lens, k - 1);
        let op = g.operations@[order[k - 1]];
        let vals = (*op.operator).spec_execute(op_input_values(op, vm0));
        assert(op_input_sizes(op, sm0) =~= crate::operator::byte_lens(op_input_values(op, vm0)))
            by {
            assert forall|i: int|
                0 <= i < op.input_ids@.len() implies sm0[#[trigger] op.input_ids@[i]] == vm0[
                op.input_ids@[i]].len() as usize by {
                assert(ready_at(g, order, k - 1, op.input_ids@[i]));
                lemma_sizes_predict(g, order, input_values, k - 1, op.input_ids@[i]);
            };
        };
        (*op.operator).execute_arity(op_input_values(op, vm0));
        (*op.operator).sizes_consistent(op_input_values(op, vm0));
        assert(vals.len() == op.output_ids@.len());
        assert(op.output_ids@.contains(id));
        let i = choose|i: int| 0 <= i < op.output_ids@.len() && op.output_ids@[i] == id;
        lemma_bind_ids_at(vm0, op.output_ids@, vals, i);
        lemma_bind_ids_at(
            sm0,
            op.output_ids@,
            (*op.operator).spec_output_sizes(op_input_sizes(op, sm0)),
            i,
        );
        assert(crate::operator::byte_lens(vals)[i] == vals[i].len() as usize);
    }
}

/// The final valuation of a plan seeds the graph inputs with the supplied
/// values: position `kx` of the input ids carries input value `kx`.
pub proof fn lemma_values_inputs<Op: Operator>(
    g: Graph<Op>,
    order: Seq<int>,
    input_values: Seq<Seq<u8>>,
    kx: int,
)
    requires
        graph_wf(g),
        valid_order(g, order),
        input_values.len() == g.input_ids@.len(),
        0 <= kx < g.input_ids@.len(),
    ensures
        values_after(g, order, input_values, order.len() as int).contains_key(g.input_ids@[kx]),
        values_after(g, order, input_values, order.len() as int)[g.input_ids@[kx]]
            == input_values[kx],
    decreases order.len(),
{
    let id = g.input_ids@[kx];
    lemma_bind_ids_at(Map::<usize, Seq<u8>>::empty(), g.input_ids@, input_values, kx);
    assert(is_graph_input(g, id));
    lemma_values_stable(g, order, input_values, 0, order.len() as int, id);
}

/// The final valuation of a plan satisfies every operation's equation: the
/// values of its output ids are its operator's computation applied to the
/// values of its input ids.  Together with `lemma_values_inputs` this
/// makes the valuation a solution of the graph's dataflow equations.
pub proof fn lemma_values_consistent<Op: Operator>(
    g: Graph<Op>,
    order: Seq<int>,
    input_values: Seq<Seq<u8>>,
    j: int,
)
    requires
        graph_wf(g),
        arity_ok(g),
        valid_order(g, order),
        0 <= j < g.operations@.len(),
    ensures
        ({
            let m = values_after(g, order, input_values, order.len() as int);
            let op = g.operations@[j];
            forall|i: int|
                0 <= i < op.output_ids@.len() ==> m.contains_key(#[trigger] op.output_ids@[i])
                    && m[op.output_ids@[i]] == (*op.operator).spec_execute(
                    op_input_values(op, m),
                )[i]
        }),
{
    let n = order.len() as int;
    let m = values_after(g, order, input_values, n);
    let op = g.operations@[j];
    lemma_order_onto(g, order, j);
    let k = choose|k: int| 0 <= k < order.len() && order[k] == j;
    let mk = values_after(g, order, input_values, k);
    let vals = (*op.operator).spec_execute(op_input_values(op, mk));
    assert(values_after(g, order, input_values, k + 1) == bind_ids(mk, op.output_ids@, vals));
    (*op.operator).execute_arity(op_input_values(op, mk));
    assert(vals.len() == op.output_ids@.len());
    // Every input the operation reads is stable from time `k` on.
    assert(op_input_values(op, m) =~= op_input_values(op, mk)) by {
        assert forall|i: int| 0 <= i < op.input_ids@.len() implies m[#[trigger] op.input_ids@[i]]
            == mk[op.input_ids@[i]] by {
            let id = op.input_ids@[i];
            assert(ready_at(g, order, k, id));
            lemma_values_stable(g, order, input_values, k, n, id);
        };
    };
    assert forall|i: int| 0 <= i < op.output_ids@.len() implies m.contains_key(
        #[trigger] op.output_ids@[i],
    ) && m[op.output_ids@[i]] == (*op.operator).spec_execute(op_input_values(op, m))[i] by {
        let id = op.output_ids@[i];
        lemma_bind_ids_at(mk, op.output_ids@, vals, i);
        assert(produces_at(g, order[k], id));
        assert(ready_at(g, order, k + 1, id));
        lemma_values_stable(g, order, input_values, k + 1, n, id);
    };
}

} // verus!
