//! Size inference, live ranges, and storage-slot assignment for a
//! scheduled graph.

use vstd::pervasive::VecAdditionalExecFns;
use vstd::prelude::*;

use crate::graph::{
    arity_ok, consumes_at, graph_wf, has_producer, is_graph_input, no_dangling, produces_at,
    ready_at, resolvable, to_int_seq, valid_order, Graph,
};
use crate::idmap::IdMap;
use crate::operator::Operator;
use crate::semantics::{
    bind_ids, born_by, lemma_born_monotone, lemma_resolvable_ready, lemma_sizes_domain, lives_at,
    needed_from, op_input_sizes, sizes_after, slots_safe, step_sizes_ok,
};

verus! {

/// Seeds the graph-input sizes and walks the order, recording the size of
/// every value id by each operator's size inference.
pub fn propagate_sizes<Op: Operator>(
    graph: &Graph<Op>,
    order: &Vec<usize>,
    input_sizes: &Vec<usize>,
) -> (szm: IdMap<usize>)
    requires
        graph_wf(*graph),
        arity_ok(*graph),
        valid_order(*graph, to_int_seq(order@)),
        input_sizes@.len() == graph.input_ids@.len(),
    ensures
        szm@ == sizes_after(*graph, to_int_seq(order@), input_sizes@, order@.len() as int),
        forall|k: int|
            0 <= k < order@.len() ==> step_sizes_ok(
                *graph,
                to_int_seq(order@),
                input_sizes@,
                k,
            ),
{
    let ghost g = *graph;
    let ghost ord = to_int_seq(order@);
    let mut szm: IdMap<usize> = IdMap::new();
    let mut k: usize = 0;
    while k < graph.input_ids.len()
        invariant
            k <= graph.input_ids@.len(),
            input_sizes@.len() == graph.input_ids@.len(),
            g == *graph,
            szm@ == bind_ids(
                Map::<usize, usize>::empty(),
                graph.input_ids@.take(k as int),
                input_sizes@.take(k as int),
            ),
        decreases graph.input_ids@.len() - k,
    {
        szm.set(graph.input_ids[k], input_sizes[k]);
        k = k + 1;
        proof {
            assert(graph.input_ids@.take(k as int).drop_last() =~= graph.input_ids@.take(
                k as int - 1,
            ));
            assert(input_sizes@.take(k as int).drop_last() =~= input_sizes@.take(k as int - 1));
        }
    }
    proof {
        assert(graph.input_ids@.take(graph.input_ids@.len() as int) =~= graph.input_ids@);
        assert(input_sizes@.take(input_sizes@.len() as int) =~= input_sizes@);
        assert(szm@ == sizes_after(g, ord, input_sizes@, 0));
    }
    let mut step: usize = 0;
    while step < order.len()
        invariant
            g == *graph,
            ord == to_int_seq(order@),
            graph_wf(g),
            arity_ok(g),
            valid_order(g, ord),
            input_sizes@.len() == graph.input_ids@.len(),
            step <= order@.len(),
            szm@ == sizes_after(g, ord, input_sizes@, step as int),
            forall|k2: int| 0 <= k2 < step ==> step_sizes_ok(g, ord, input_sizes@, k2),
        decreases order@.len() - step,
    {
        proof {
            assert(0 <= ord[step as int] < g.operations@.len());
        }
        let j = order[step];
        let op = &graph.operations[j];
        let ghost m = szm@;
        let mut ins: Vec<usize> = Vec::new();
        let mut i: usize = 0;
        while i < op.input_ids.len()
            invariant
                g == *graph,
                ord == to_int_seq(order@),
                valid_order(g, ord),
                step < order@.len(),
                j == order@[step as int],
                *op == g.operations@[ord[step as int]],
                szm@ == m,
                m == sizes_after(g, ord, input_sizes@, step as int),
                i <= op.input_ids@.len(),
                ins@.len() == i,
                forall|i2: int| 0 <= i2 < i ==> ins@[i2] == m[op.input_ids@[i2]],
            decreases op.input_ids@.len() - i,
        {
            let id = op.input_ids[i];
            proof {
                assert(ready_at(g, ord, step as int, id));
                lemma_sizes_domain(g, ord, input_sizes@, step as int, id);
            }
            let sz = match szm.get(id) {
                Some(sz) => sz,
                None => {
                    proof {
                        assert(false);
                    }
                    0
                },
            };
            ins.push(sz);
            i = i + 1;
        }
        proof {
            assert(ins@ =~= op_input_sizes(g.operations@[ord[step as int]], m));
        }
        let outs = op.operator.compute_output_buffer_sizes(ins.as_slice());
        proof {
            assert(step_sizes_ok(g, ord, input_sizes@, step as int));
        }
        let mut jj: usize = 0;
        while jj < op.output_ids.len()
            invariant
                g == *graph,
                ord == to_int_seq(order@),
                step < order@.len(),
                *op == g.operations@[ord[step as int]],
                m == sizes_after(g, ord, input_sizes@, step as int),
                outs@ == (*op.operator).spec_output_sizes(op_input_sizes(
                    g.operations@[ord[step as int]],
                    m,
                )),
                outs@.len() == op.output_ids@.len(),
                jj <= op.output_ids@.len(),
                szm@ == bind_ids(m, op.output_ids@.take(jj as int), outs@.take(jj as int)),
            decreases op.output_ids@.len() - jj,
        {
            szm.set(op.output_ids[jj], outs[jj]);
            jj = jj + 1;
            proof {
                assert(op.output_ids@.take(jj as int).drop_last() =~= op.output_ids@.take(
                    jj as int - 1,
                ));
                assert(outs@.take(jj as int).drop_last() =~= outs@.take(jj as int - 1));
            }
        }
        step = step + 1;
        proof {
            assert(op.output_ids@.take(op.output_ids@.len() as int) =~= op.output_ids@);
            assert(outs@.take(outs@.len() as int) =~= outs@);
            assert(szm@ == sizes_after(g, ord, input_sizes@, step as int));
        }
    }
    szm
}

/// The facts `compute_liveness` records about a live-range table: its
/// domain is every available id, the first component is the id's birth
/// time, and the second bounds every later use.
pub open spec fn liveness_ok<Op: Operator>(
    g: Graph<Op>,
    order: Seq<int>,
    live: Map<usize, (usize, usize)>,
) -> bool {
    let n = order.len() as int;
    &&& forall|id: usize| live.contains_key(id) == ready_at(g, order, n, id)
    &&& forall|id: usize|
        #[trigger] live.contains_key(id) ==> {
            &&& born_by(g, order, id, live[id].0 as int)
            &&& !born_by(g, order, id, live[id].0 - 1)
            &&& live[id].0 <= live[id].1 <= n
        }
    &&& forall|id: usize, j: int|
        0 <= j < n && #[trigger] consumes_at(g, order[j], id) ==> live.contains_key(id)
            && live[id].1 >= j
    &&& forall|k: int|
        0 <= k < g.output_ids@.len() ==> live.contains_key(#[trigger] g.output_ids@[k])
            && live[g.output_ids@[k]].1 >= n
}

/// Computes the live range of every value id: from the time it is born to
/// the last time it is consumed, extended to the end of the plan for the
/// graph outputs.
pub fn compute_liveness<Op: Operator>(graph: &Graph<Op>, order: &Vec<usize>) -> (live: IdMap<
    (usize, usize),
>)
    requires
        graph_wf(*graph),
        no_dangling(*graph),
        valid_order(*graph, to_int_seq(order@)),
    ensures
        liveness_ok(*graph, to_int_seq(order@), live@),
{
    let ghost g = *graph;
    let ghost ord = to_int_seq(order@);
    let ghost n = order@.len() as int;
    let mut live: IdMap<(usize, usize)> = IdMap::new();
    // Birth times: the graph inputs exist from time zero.
    let mut k: usize = 0;
    while k < graph.input_ids.len()
        invariant
            g == *graph,
            k <= graph.input_ids@.len(),
            forall|id: usize| live@.contains_key(id) == graph.input_ids@.take(k as int).contains(
                id,
            ),
            forall|id: usize| #[trigger] live@.contains_key(id) ==> live@[id] == (0usize, 0usize),
        decreases graph.input_ids@.len() - k,
    {
        live.set(graph.input_ids[k], (0, 0));
        k = k + 1;
        proof {
            assert forall|id: usize| live@.contains_key(id) == graph.input_ids@.take(
                k as int,
            ).contains(id) by {
                let ids = graph.input_ids@;
                let cur = ids.take(k as int);
                let prev = ids.take(k as int - 1);
                if cur.contains(id) {
                    let i = choose|i: int| 0 <= i < cur.len() && cur[i] == id;
                    if i < k - 1 {
                        assert(prev[i] == id);
                        assert(prev.contains(id));
                    }
                }
                if prev.contains(id) {
                    let i = choose|i: int| 0 <= i < prev.len() && prev[i] == id;
                    assert(cur[i] == id);
                    assert(cur.contains(id));
                }
                if id == ids[k as int - 1] {
                    assert(cur[k as int - 1] == id);
                    assert(cur.contains(id));
                }
            };
        }
    }
    proof {
        assert(graph.input_ids@.take(graph.input_ids@.len() as int) =~= graph.input_ids@);
        assert forall|id: usize| live@.contains_key(id) == born_by(g, ord, id, 0) by {
            assert(live@.contains_key(id) == is_graph_input(g, id));
        };
    }
    // Birth times: each step's outputs exist from the time after it.
    let mut step: usize = 0;
    while step < order.len()
        invariant
            g == *graph,
            ord == to_int_seq(order@),
            graph_wf(g),
            valid_order(g, ord),
            step <= order@.len(),
            forall|id: usize| live@.contains_key(id) == born_by(g, ord, id, step as int),
            forall|id: usize|
                #[trigger] live@.contains_key(id) ==> {
                    &&& born_by(g, ord, id, live@[id].0 as int)
                    &&& !born_by(g, ord, id, live@[id].0 - 1)
                    &&& live@[id].0 == live@[id].1
                    &&& live@[id].1 <= step
                },
        decreases order@.len() - step,
    {
        proof {
            assert(0 <= ord[step as int] < g.operations@.len());
        }
        let j = order[step];
        let op = &graph.operations[j];
        let next: usize = step + 1;
        let mut jj: usize = 0;
        while jj < op.output_ids.len()
            invariant
                g == *graph,
                ord == to_int_seq(order@),
                graph_wf(g),
                valid_order(g, ord),
                step < order@.len(),
                next == step + 1,
                *op == g.operations@[ord[step as int]],
                jj <= op.output_ids@.len(),
                forall|id: usize| live@.contains_key(id) == (born_by(g, ord, id, step as int)
                    || op.output_ids@.take(jj as int).contains(id)),
                forall|id: usize|
                    #[trigger] live@.contains_key(id) ==> {
                        &&& born_by(g, ord, id, live@[id].0 as int)
                        &&& !born_by(g, ord, id, live@[id].0 - 1)
                        &&& live@[id].0 == live@[id].1
                        &&& live@[id].1 <= step + 1
                    },
            decreases op.output_ids@.len() - jj,
        {
            let id = op.output_ids[jj];
            proof {
                assert(produces_at(g, ord[step as int], id));
                assert(born_by(g, ord, id, step as int + 1));
                assert(!born_by(g, ord, id, step as int)) by {
                    if born_by(g, ord, id, step as int) {
                        if is_graph_input(g, id) {
                            let ki = choose|ki: int|
                                0 <= ki < g.input_ids@.len() && g.input_ids@[ki] == id;
                            assert(has_producer(g, id));
                            assert(false);
                        } else {
                            let s = choose|s: int|
                                0 <= s < step && produces_at(g, ord[s], id);
                            assert(ord[s] == ord[step as int]);
                            assert(false);
                        }
                    }
                };
            }
            live.set(id, (next, next));
            jj = jj + 1;
            proof {
                assert forall|id2: usize| live@.contains_key(id2) == (born_by(
                    g,
                    ord,
                    id2,
                    step as int,
                ) || op.output_ids@.take(jj as int).contains(id2)) by {
                    let outs = op.output_ids@;
                    let cur = outs.take(jj as int);
                    let prev = outs.take(jj as int - 1);
                    if cur.contains(id2) {
                        let i = choose|i: int| 0 <= i < cur.len() && cur[i] == id2;
                        if i < jj - 1 {
                            assert(prev[i] == id2);
                            assert(prev.contains(id2));
                        }
                    }
                    if prev.contains(id2) {
                        let i = choose|i: int| 0 <= i < prev.len() && prev[i] == id2;
                        assert(cur[i] == id2);
                        assert(cur.contains(id2));
                    }
                    if id2 == outs[jj as int - 1] {
                        assert(cur[jj as int - 1] == id2);
                        assert(cur.contains(id2));
                    }
                };
            }
        }
        step = step + 1;
        proof {
            assert(op.output_ids@.take(op.output_ids@.len() as int) =~= op.output_ids@);
            assert forall|id: usize| live@.contains_key(id) == born_by(g, ord, id, step as int)
                by {
                if born_by(g, ord, id, step as int) && !born_by(g, ord, id, step as int - 1) {
                    let s = choose|s: int| 0 <= s < step && produces_at(g, ord[s], id);
                    assert(s == step - 1);
                    assert(op.output_ids@.contains(id));
                }
                if op.output_ids@.contains(id) {
                    assert(produces_at(g, ord[step as int - 1], id));
                }
            };
        }
    }
    // Last uses: every consumption of an id extends its range.
    proof {
        assert forall|id: usize| live@.contains_key(id) == ready_at(g, ord, n, id) by {
            assert(live@.contains_key(id) == born_by(g, ord, id, n));
        };
    }
    let mut step: usize = 0;
    while step < order.len()
        invariant
            g == *graph,
            ord == to_int_seq(order@),
            n == order@.len() as int,
            graph_wf(g),
            no_dangling(g),
            valid_order(g, ord),
            step <= order@.len(),
            forall|id: usize| live@.contains_key(id) == ready_at(g, ord, n, id),
            forall|id: usize|
                #[trigger] live@.contains_key(id) ==> {
                    &&& born_by(g, ord, id, live@[id].0 as int)
                    &&& !born_by(g, ord, id, live@[id].0 - 1)
                    &&& live@[id].0 <= live@[id].1 <= n
                },
            forall|id: usize, j: int|
                0 <= j < step && #[trigger] consumes_at(g, ord[j], id) ==> live@.contains_key(id)
                    && live@[id].1 >= j,
        decreases order@.len() - step,
    {
        proof {
            assert(0 <= ord[step as int] < g.operations@.len());
        }
        let j = order[step];
        let op = &graph.operations[j];
        let mut ii: usize = 0;
        while ii < op.input_ids.len()
            invariant
                g == *graph,
                ord == to_int_seq(order@),
                n == order@.len() as int,
                graph_wf(g),
                no_dangling(g),
                valid_order(g, ord),
                step < order@.len(),
                j == order@[step as int],
                *op == g.operations@[ord[step as int]],
                ii <= op.input_ids@.len(),
                forall|id: usize| live@.contains_key(id) == ready_at(g, ord, n, id),
                forall|id: usize|
                    #[trigger] live@.contains_key(id) ==> {
                        &&& born_by(g, ord, id, live@[id].0 as int)
                        &&& !born_by(g, ord, id, live@[id].0 - 1)
                        &&& live@[id].0 <= live@[id].1 <= n
                    },
                forall|id: usize, j2: int|
                    0 <= j2 < step && #[trigger] consumes_at(g, ord[j2], id) ==> live@.contains_key(
                        id,
                    ) && live@[id].1 >= j2,
                forall|i2: int|
                    0 <= i2 < ii ==> live@.contains_key(#[trigger] op.input_ids@[i2])
                        && live@[op.input_ids@[i2]].1 >= step,
            decreases op.input_ids@.len() - ii,
        {
            let id = op.input_ids[ii];
            proof {
                assert(resolvable(g, id));
                lemma_resolvable_ready(g, ord, id);
                assert(born_by(g, ord, id, step as int)) by {
                    assert(ready_at(g, ord, step as int, id));
                };
            }
            let entry = match live.get(id) {
                Some(entry) => entry,
                None => {
                    proof {
                        assert(false);
                    }
                    (0, 0)
                },
            };
            if entry.1 < step {
                proof {
                    assert(entry.0 <= step) by {
                        if entry.0 > step {
                            assert(born_by(g, ord, id, step as int));
                            assert(entry.0 - 1 >= step as int);
                        }
                    };
                }
                live.set(id, (entry.0, step));
            }
            ii = ii + 1;
        }
        step = step + 1;
        proof {
            assert forall|id: usize, j2: int|
                0 <= j2 < step && #[trigger] consumes_at(g, ord[j2], id) implies live@.contains_key(
                id,
            ) && live@[id].1 >= j2 by {
                if j2 == step - 1 {
                    let i2 = choose|i2: int|
                        0 <= i2 < op.input_ids@.len() && op.input_ids@[i2] == id;
                    assert(live@[op.input_ids@[i2]].1 >= step - 1);
                }
            };
        }
    }
    // The graph outputs stay alive to the end of the plan.
    let mut kk: usize = 0;
    while kk < graph.output_ids.len()
        invariant
            g == *graph,
            ord == to_int_seq(order@),
            n == order@.len() as int,
            graph_wf(g),
            no_dangling(g),
            valid_order(g, ord),
            kk <= graph.output_ids@.len(),
            forall|id: usize| live@.contains_key(id) == ready_at(g, ord, n, id),
            forall|id: usize|
                #[trigger] live@.contains_key(id) ==> {
                    &&& born_by(g, ord, id, live@[id].0 as int)
                    &&& !born_by(g, ord, id, live@[id].0 - 1)
                    &&& live@[id].0 <= live@[id].1 <= n
                },
            forall|id: usize, j: int|
                0 <= j < n && #[trigger] consumes_at(g, ord[j], id) ==> live@.contains_key(id)
                    && live@[id].1 >= j,
            forall|k2: int|
                0 <= k2 < kk ==> live@.contains_key(#[trigger] graph.output_ids@[k2])
                    && live@[graph.output_ids@[k2]].1 >= n,
        decreases graph.output_ids@.len() - kk,
    {
        let id = graph.output_ids[kk];
        proof {
            assert(resolvable(g, id));
            lemma_resolvable_ready(g, ord, id);
        }
        let entry = match live.get(id) {
            Some(entry) => entry,
            None => {
                proof {
                    assert(false);
                }
                (0, 0)
            },
        };
        if entry.1 < order.len() {
            proof {
                assert(entry.0 <= n);
            }
            live.set(id, (entry.0, order.len()));
        }
        kk = kk + 1;
    }
    live
}

/// Whenever a value is alive, the time lies in its recorded live range.
proof fn lemma_lives_within<Op: Operator>(
    g: Graph<Op>,
    order: Seq<int>,
    live: Map<usize, (usize, usize)>,
    id: usize,
    t: int,
)
    requires
        liveness_ok(g, order, live),
        live.contains_key(id),
        lives_at(g, order, id, t),
        0 <= t <= order.len(),
    ensures
        live[id].0 <= t <= live[id].1,
{
    let b = live[id].0 as int;
    let l = live[id].1 as int;
    assert(b <= t) by {
        if t < b {
            lemma_born_monotone(g, order, id, t, b - 1);
            assert(false);
        }
    };
    assert(t <= l) by {
        if !born_by(g, order, id, t - 1) {
            if b <= t - 1 {
                lemma_born_monotone(g, order, id, b, t - 1);
                assert(false);
            }
        } else {
            assert(needed_from(g, order, id, t));
            if g.output_ids@.contains(id) {
                let k = choose|k: int| 0 <= k < g.output_ids@.len() && g.output_ids@[k] == id;
                assert(live[g.output_ids@[k]].1 >= order.len());
            } else {
                let jx = choose|jx: int|
                    t <= jx < order.len() && consumes_at(g, order[jx], id);
                assert(live[id].1 >= jx);
            }
        }
    };
}

/// Pairwise disjoint live intervals on a shared slot keep every slot safe.
proof fn lemma_alloc_safe<Op: Operator>(
    g: Graph<Op>,
    order: Seq<int>,
    live: Map<usize, (usize, usize)>,
    slots: Map<usize, usize>,
)
    requires
        liveness_ok(g, order, live),
        forall|id: usize| #[trigger] slots.contains_key(id) ==> live.contains_key(id),
        forall|id1: usize, id2: usize|
            #[trigger] slots.contains_key(id1) && #[trigger] slots.contains_key(id2) && id1 != id2
                && slots[id1] == slots[id2] ==> (live[id1].1 < live[id2].0 || live[id2].1
                < live[id1].0),
    ensures
        slots_safe(g, order, slots),
{
    assert forall|id1: usize, id2: usize, t: int|
        slots.contains_key(id1) && slots.contains_key(id2) && id1 != id2 && slots[id1]
            == slots[id2] && 0 <= t <= order.len() implies !(#[trigger] lives_at(g, order, id1, t)
        && #[trigger] lives_at(g, order, id2, t)) by {
        if lives_at(g, order, id1, t) && lives_at(g, order, id2, t) {
            lemma_lives_within(g, order, live, id1, t);
            lemma_lives_within(g, order, live, id2, t);
            assert(false);
        }
    };
}

/// The allocator's running state is sound: every assigned id maps to an
/// existing slot, a slot's retirement time bounds the ranges of all its
/// ids, and ids sharing a slot have disjoint live ranges.
pub open spec fn alloc_inv(
    live: Map<usize, (usize, usize)>,
    slots: Map<usize, usize>,
    slot_last: Seq<usize>,
) -> bool {
    &&& forall|id: usize| #[trigger] slots.contains_key(id) ==> live.contains_key(id)
    &&& forall|id: usize| #[trigger] slots.contains_key(id) ==> (slots[id] as int) < slot_last.len()
    &&& forall|id: usize|
        #[trigger] slots.contains_key(id) ==> live[id].1 <= slot_last[slots[id] as int]
    &&& forall|id1: usize, id2: usize|
        #[trigger] slots.contains_key(id1) && #[trigger] slots.contains_key(id2) && id1 != id2
            && slots[id1] == slots[id2] ==> (live[id1].1 < live[id2].0 || live[id2].1
            < live[id1].0)
}

/// Places one value id in a storage slot: reuses the first retired slot of
/// sufficient capacity, else opens a new one.
fn place_id(
    slots: &mut IdMap<usize>,
    slot_last: &mut Vec<usize>,
    slot_cap: &mut Vec<usize>,
    id: usize,
    b: usize,
    l: usize,
    size: usize,
    Ghost(live): Ghost<Map<usize, (usize, usize)>>,
)
    requires
        alloc_inv(live, old(slots)@, old(slot_last)@),
        old(slot_cap)@.len() == old(slot_last)@.len(),
        live.contains_key(id),
        live[id] == (b, l),
        !old(slots)@.contains_key(id),
        b <= l,
    ensures
        final(slots)@ == old(slots)@.insert(id, final(slots)@[id]),
        final(slots)@.contains_key(id),
        alloc_inv(live, final(slots)@, final(slot_last)@),
        final(slot_cap)@.len() == final(slot_last)@.len(),
{
    let mut s: usize = 0;
    while s < slot_last.len()
        invariant
            alloc_inv(live, slots@, slot_last@),
            slot_cap@.len() == slot_last@.len(),
            live.contains_key(id),
            live[id] == (b, l),
            !slots@.contains_key(id),
            b <= l,
            slots@ == old(slots)@,
            slot_last@ == old(slot_last)@,
            slot_cap@ == old(slot_cap)@,
            s <= slot_last@.len(),
        decreases slot_last@.len() - s,
    {
        if slot_last[s] < b && slot_cap[s] >= size {
            let ghost before = slot_last@;
            slot_last.set(s, l);
            slots.set(id, s);
            proof {
                assert forall|id2: usize| #[trigger] slots@.contains_key(id2) implies
                    live[id2].1 <= slot_last@[slots@[id2] as int] by {
                    if id2 != id {
                        assert(live[id2].1 <= before[old(slots)@[id2] as int]);
                        if old(slots)@[id2] == s {
                            assert(live[id2].1 <= before[s as int]);
                        }
                    }
                };
            }
            return;
        }
        s = s + 1;
    }
    let fresh = slot_last.len();
    slot_last.push(l);
    slot_cap.push(size);
    slots.set(id, fresh);
}

/// One more position of a list, one more id that its prefix may hold.
proof fn lemma_take_contains(ids: Seq<usize>, k: int, id: usize)
    requires
        0 < k <= ids.len(),
    ensures
        ids.take(k).contains(id) == (ids.take(k - 1).contains(id) || id == ids[k - 1]),
{
    let cur = ids.take(k);
    let prev = ids.take(k - 1);
    if cur.contains(id) {
        let i = choose|i: int| 0 <= i < cur.len() && cur[i] == id;
        if i < k - 1 {
            assert(prev[i] == id);
            assert(prev.contains(id));
        }
    }
    if prev.contains(id) {
        let i = choose|i: int| 0 <= i < prev.len() && prev[i] == id;
        assert(cur[i] == id);
        assert(cur.contains(id));
    }
    if id == ids[k - 1] {
        assert(cur[k - 1] == id);
        assert(cur.contains(id));
    }
}

/// Assigns every value id a storage slot so that ids alive at the same
/// time never share one, greedily reusing slots whose last value has died.
pub fn assign_slots<Op: Operator>(
    graph: &Graph<Op>,
    order: &Vec<usize>,
    live: &IdMap<(usize, usize)>,
    szm: &IdMap<usize>,
) -> (r: (IdMap<usize>, usize))
    requires
        graph_wf(*graph),
        valid_order(*graph, to_int_seq(order@)),
        liveness_ok(*graph, to_int_seq(order@), live@),
        forall|id: usize| szm@.contains_key(id) == ready_at(
            *graph,
            to_int_seq(order@),
            order@.len() as int,
            id,
        ),
    ensures
        forall|id: usize| r.0@.contains_key(id) == ready_at(
            *graph,
            to_int_seq(order@),
            order@.len() as int,
            id,
        ),
        forall|id: usize| #[trigger] r.0@.contains_key(id) ==> (r.0@[id] as int) < r.1 as int,
        slots_safe(*graph, to_int_seq(order@), r.0@),
{
    let ghost g = *graph;
    let ghost ord = to_int_seq(order@);
    let ghost n = order@.len() as int;
    let mut slots: IdMap<usize> = IdMap::new();
    let mut slot_last: Vec<usize> = Vec::new();
    let mut slot_cap: Vec<usize> = Vec::new();
    let mut k: usize = 0;
    while k < graph.input_ids.len()
        invariant
            g == *graph,
            ord == to_int_seq(order@),
            n == order@.len() as int,
            graph_wf(g),
            valid_order(g, ord),
            liveness_ok(g, ord, live@),
            k <= graph.input_ids@.len(),
            alloc_inv(live@, slots@, slot_last@),
            slot_cap@.len() == slot_last@.len(),
            forall|id: usize| slots@.contains_key(id) == graph.input_ids@.take(
                k as int,
            ).contains(id),
            forall|id: usize| szm@.contains_key(id) == ready_at(g, ord, n, id),
        decreases graph.input_ids@.len() - k,
    {
        let id = graph.input_ids[k];
        proof {
            assert(g.input_ids@.contains(id));
            assert(ready_at(g, ord, n, id));
            assert(!graph.input_ids@.take(k as int).contains(id)) by {
                if graph.input_ids@.take(k as int).contains(id) {
                    let pre = graph.input_ids@.take(k as int);
                    let i = choose|i: int| 0 <= i < pre.len() && pre[i] == id;
                    assert(g.input_ids@[i] == g.input_ids@[k as int]);
                    assert(false);
                }
            };
        }
        let entry = match live.get(id) {
            Some(e) => e,
            None => {
                proof {
                    assert(false);
                }
                (0, 0)
            },
        };
        let size = match szm.get(id) {
            Some(sz) => sz,
            None => {
                proof {
                    assert(false);
                }
                0
            },
        };
        place_id(&mut slots, &mut slot_last, &mut slot_cap, id, entry.0, entry.1, size, Ghost(
            live@,
        ));
        k = k + 1;
        proof {
            assert forall|id2: usize| slots@.contains_key(id2) == graph.input_ids@.take(
                k as int,
            ).contains(id2) by {
                lemma_take_contains(graph.input_ids@, k as int, id2);
            };
        }
    }
    proof {
        assert(graph.input_ids@.take(graph.input_ids@.len() as int) =~= graph.input_ids@);
        assert forall|id: usize| slots@.contains_key(id) == born_by(g, ord, id, 0) by {
            assert(slots@.contains_key(id) == is_graph_input(g, id));
        };
    }
    let mut step: usize = 0;
    while step < order.len()
        invariant
            g == *graph,
            ord == to_int_seq(order@),
            n == order@.len() as int,
            graph_wf(g),
            valid_order(g, ord),
            liveness_ok(g, ord, live@),
            step <= order@.len(),
            alloc_inv(live@, slots@, slot_last@),
            slot_cap@.len() == slot_last@.len(),
            forall|id: usize| slots@.contains_key(id) == born_by(g, ord, id, step as int),
            forall|id: usize| szm@.contains_key(id) == ready_at(g, ord, n, id),
        decreases order@.len() - step,
    {
        proof {
            assert(0 <= ord[step as int] < g.operations@.len());
        }
        let j = order[step];
        let op = &graph.operations[j];
        let mut jj: usize = 0;
        while jj < op.output_ids.len()
            invariant
                g == *graph,
                ord == to_int_seq(order@),
                n == order@.len() as int,
                graph_wf(g),
                valid_order(g, ord),
                liveness_ok(g, ord, live@),
                step < order@.len(),
                *op == g.operations@[ord[step as int]],
                jj <= op.output_ids@.len(),
                alloc_inv(live@, slots@, slot_last@),
                slot_cap@.len() == slot_last@.len(),
                forall|id: usize| slots@.contains_key(id) == (born_by(g, ord, id, step as int)
                    || op.output_ids@.take(jj as int).contains(id)),
                forall|id: usize| szm@.contains_key(id) == ready_at(g, ord, n, id),
            decreases op.output_ids@.len() - jj,
        {
            let id = op.output_ids[jj];
            proof {
                assert(produces_at(g, ord[step as int], id));
                assert(ready_at(g, ord, n, id));
                assert(!born_by(g, ord, id, step as int)) by {
                    if born_by(g, ord, id, step as int) {
                        if is_graph_input(g, id) {
                            let ki = choose|ki: int|
                                0 <= ki < g.input_ids@.len() && g.input_ids@[ki] == id;
                            assert(has_producer(g, id));
                            assert(false);
                        } else {
                            let s = choose|s: int|
                                0 <= s < step && produces_at(g, ord[s], id);
                            assert(ord[s] == ord[step as int]);
                            assert(false);
                        }
                    }
                };
                assert(!op.output_ids@.take(jj as int).contains(id)) by {
                    if op.output_ids@.take(jj as int).contains(id) {
                        let pre = op.output_ids@.take(jj as int);
                        let i = choose|i: int| 0 <= i < pre.len() && pre[i] == id;
                        assert(g.operations@[ord[step as int]].output_ids@[i]
                            == g.operations@[ord[step as int]].output_ids@[jj as int]);
                        assert(false);
                    }
                };
            }
            let entry = match live.get(id) {
                Some(e) => e,
                None => {
                    proof {
                        assert(false);
                    }
                    (0, 0)
                },
            };
            let size = match szm.get(id) {
                Some(sz) => sz,
                None => {
                    proof {
                        assert(false);
                    }
                    0
                },
            };
            place_id(&mut slots, &mut slot_last, &mut slot_cap, id, entry.0, entry.1, size, Ghost(
                live@,
            ));
            jj = jj + 1;
            proof {
                assert forall|id2: usize| slots@.contains_key(id2) == (born_by(
                    g,
                    ord,
                    id2,
                    step as int,
                ) || op.output_ids@.take(jj as int).contains(id2)) by {
                    lemma_take_contains(op.output_ids@, jj as int, id2);
                };
            }
        }
        step = step + 1;
        proof {
            assert(op.output_ids@.take(op.output_ids@.len() as int) =~= op.output_ids@);
            assert forall|id: usize| slots@.contains_key(id) == born_by(g, ord, id, step as int)
                by {
                if born_by(g, ord, id, step as int) && !born_by(g, ord, id, step as int - 1) {
                    let s = choose|s: int| 0 <= s < step && produces_at(g, ord[s], id);
                    assert(s == step - 1);
                    assert(op.output_ids@.contains(id));
                }
                if op.output_ids@.contains(id) {
                    assert(produces_at(g, ord[step as int - 1], id));
                }
            };
        }
    }
    let count = slot_last.len();
    proof {
        lemma_alloc_safe(g, ord, live@, slots@);
        assert forall|id: usize| slots@.contains_key(id) == ready_at(g, ord, n, id) by {
            assert(slots@.contains_key(id) == born_by(g, ord, id, n));
        };
    }
    (slots, count)
}

} // verus!
