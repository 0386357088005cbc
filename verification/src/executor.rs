//! The graph executor: validates a graph, derives an execution plan with a
//! storage layout, and runs the plan against real buffers.

use std::rc::Rc;

use vstd::pervasive::VecAdditionalExecFns;
use vstd::prelude::*;

use crate::buffer::Buffer;
use crate::graph::{
    arity_ok, consumes_at, graph_wf, is_graph_input, no_dangling, produces_at, ready_at,
    resolvable, schedulable, to_int_seq, valid_order, Graph,
};
use crate::layout::{assign_slots, compute_liveness, propagate_sizes};
use crate::operator::{buffer_views, Operator};
use crate::schedule::{check_arity, check_dangling, topological_order};
use crate::semantics::{
    bind_ids, born_by, lemma_bind_ids_at, lemma_bind_ids_frame, lemma_born_monotone,
    lemma_fresh_at_birth, lemma_resolvable_ready, lemma_sizes_domain, lemma_sizes_predict,
    lemma_values_domain, lives_at, needed_from, op_input_values, sizes_after, slots_safe,
    step_sizes_ok, values_after,
};

verus! {

/// The distinct validation failures the executor reports.
#[derive(Debug, Clone, Copy, PartialEq, Eq, Structural)]
pub enum ExecError {
    /// A value id is consumed, or named a graph output, but has no
    /// producer and is not a declared graph input.
    DanglingReference,
    /// The producer/consumer relation among the operations has a cycle.
    CycleDetected,
    /// An operation's input or output id count disagrees with its
    /// operator's declared arity.
    ArityMismatch,
    /// The count of supplied input sizes, or of runtime input buffers,
    /// disagrees with the graph's declared input id count.
    SizeCountMismatch,
    /// `execute` was invoked without a preceding successful `prepare` for
    /// matching sizes.
    NotPrepared,
}

/// The count of supplied input sizes agrees with the graph's input ids.
pub open spec fn size_count_ok<Op: Operator>(g: Graph<Op>, input_sizes: Seq<usize>) -> bool {
    input_sizes.len() == g.input_ids@.len()
}

/// The graph and the supplied sizes pass every validation `prepare` runs.
pub open spec fn prepare_valid<Op: Operator>(g: Graph<Op>, input_sizes: Seq<usize>) -> bool {
    size_count_ok(g, input_sizes) && arity_ok(g) && no_dangling(g) && schedulable(g)
}

/// The error `prepare` reports when validation fails, by check order.
pub open spec fn prepare_error<Op: Operator>(g: Graph<Op>, input_sizes: Seq<usize>) -> ExecError {
    if !size_count_ok(g, input_sizes) {
        ExecError::SizeCountMismatch
    } else if !arity_ok(g) {
        ExecError::ArityMismatch
    } else if !no_dangling(g) {
        ExecError::DanglingReference
    } else {
        ExecError::CycleDetected
    }
}

/// The byte sizes of the graph's outputs under a plan's size inference.
pub open spec fn output_sizes_spec<Op: Operator>(
    g: Graph<Op>,
    order: Seq<int>,
    input_sizes: Seq<usize>,
) -> Seq<usize> {
    Seq::new(
        g.output_ids@.len(),
        |k: int| sizes_after(g, order, input_sizes, order.len() as int)[g.output_ids@[k]],
    )
}

/// The bytes of the graph's outputs when a plan runs on given inputs.
pub open spec fn output_values_spec<Op: Operator>(
    g: Graph<Op>,
    order: Seq<int>,
    input_values: Seq<Seq<u8>>,
) -> Seq<Seq<u8>> {
    Seq::new(
        g.output_ids@.len(),
        |k: int| values_after(g, order, input_values, order.len() as int)[g.output_ids@[k]],
    )
}

/// Prepares and executes computation graphs.  `prepare` validates a graph
/// and derives a plan for given input sizes; `execute` then runs the plan
/// on concrete input buffers and fills the output buffers.
pub trait GraphExecutor<Op: Operator>: Sized {
    /// A successful `prepare` has installed a plan.
    spec fn prepared(&self) -> bool;

    /// The graph the installed plan was derived from.
    spec fn plan_graph(&self) -> Graph<Op>;

    /// The topological order the installed plan runs.
    spec fn plan_order(&self) -> Seq<int>;

    /// The input sizes the installed plan was prepared for.
    spec fn plan_input_sizes(&self) -> Seq<usize>;

    /// Validates and schedules the graph for the given input sizes,
    /// computes the storage layout, and returns the graph output sizes.
    fn prepare(&mut self, graph: &Graph<Op>, input_sizes: Vec<usize>) -> (result: Result<
        Vec<usize>,
        ExecError,
    >)
        requires
            graph_wf(*graph),
        ensures
            match result {
                Ok(output_sizes) => {
                    &&& prepare_valid(*graph, input_sizes@)
                    &&& final(self).prepared()
                    &&& final(self).plan_graph() == *graph
                    &&& final(self).plan_input_sizes() == input_sizes@
                    &&& valid_order(*graph, final(self).plan_order())
                    &&& output_sizes@ == output_sizes_spec(
                        *graph,
                        final(self).plan_order(),
                        input_sizes@,
                    )
                },
                Err(e) => {
                    &&& !prepare_valid(*graph, input_sizes@)
                    &&& e == prepare_error(*graph, input_sizes@)
                    &&& !final(self).prepared()
                },
            },
    ;

    /// Runs the prepared plan: binds the input buffers, executes every
    /// operation in the stored order, and fills `outputs` with the graph's
    /// output buffers.
    fn execute(&mut self, inputs: Vec<Buffer>, outputs: &mut Vec<Buffer>) -> (result: Result<
        (),
        ExecError,
    >)
        ensures
            final(self).prepared() == old(self).prepared(),
            final(self).plan_graph() == old(self).plan_graph(),
            final(self).plan_order() == old(self).plan_order(),
            final(self).plan_input_sizes() == old(self).plan_input_sizes(),
            match result {
                Ok(()) => {
                    &&& old(self).prepared()
                    &&& inputs@.len() == old(self).plan_graph().input_ids@.len()
                    &&& forall|k: int|
                        0 <= k < inputs@.len() ==> (#[trigger] inputs@[k])@.len() == old(
                            self,
                        ).plan_input_sizes()[k]
                    &&& final(outputs)@.len() == old(self).plan_graph().output_ids@.len()
                    &&& buffer_views(final(outputs)@) == output_values_spec(
                        old(self).plan_graph(),
                        old(self).plan_order(),
                        buffer_views(inputs@),
                    )
                    &&& forall|k: int|
                        0 <= k < final(outputs)@.len() ==> (#[trigger] final(outputs)@[k])@.len()
                            == output_sizes_spec(
                            old(self).plan_graph(),
                            old(self).plan_order(),
                            old(self).plan_input_sizes(),
                        )[k]
                },
                Err(e) => {
                    &&& *final(outputs) == *old(outputs)
                    &&& !(old(self).prepared() && inputs@.len() == old(
                        self,
                    ).plan_graph().input_ids@.len() && (forall|k: int|
                        0 <= k < inputs@.len() ==> (#[trigger] inputs@[k])@.len() == old(
                            self,
                        ).plan_input_sizes()[k]))
                    &&& e == (if !old(self).prepared() {
                        ExecError::NotPrepared
                    } else if inputs@.len() != old(self).plan_graph().input_ids@.len() {
                        ExecError::SizeCountMismatch
                    } else {
                        ExecError::NotPrepared
                    })
                },
            },
    ;
}

/// Relies on Rc::clone: the clone is a handle to the same shared value.
#[verifier::external_body]
fn rc_dup<T>(rc: &Rc<T>) -> (r: Rc<T>)
    ensures
        r == *rc,
{
    Rc::clone(rc)
}

/// One scheduled operation of a prepared plan: the operator handle, the
/// storage slots of its inputs and outputs, and its output sizes.
struct PlanStep<Op: Operator> {
    operator: Rc<Op>,
    in_slots: Vec<usize>,
    out_slots: Vec<usize>,
    out_sizes: Vec<usize>,
}

impl<Op: Operator> PlanStep<Op> {
    /// The step mirrors operation `order[k]` of the graph under the given
    /// slot assignment and size table.
    spec fn wf_at(
        self,
        g: Graph<Op>,
        order: Seq<int>,
        slot: Map<usize, usize>,
        szm: Map<usize, usize>,
        k: int,
    ) -> bool {
        let op = g.operations@[order[k]];
        &&& self.operator == op.operator
        &&& self.in_slots@.len() == op.input_ids@.len()
        &&& forall|i: int|
            0 <= i < self.in_slots@.len() ==> #[trigger] self.in_slots@[i] == slot[op.input_ids@[i]]
        &&& self.out_slots@.len() == op.output_ids@.len()
        &&& forall|j: int|
            0 <= j < self.out_slots@.len() ==> #[trigger] self.out_slots@[j]
                == slot[op.output_ids@[j]]
        &&& self.out_sizes@.len() == op.output_ids@.len()
        &&& forall|j: int|
            0 <= j < self.out_sizes@.len() ==> #[trigger] self.out_sizes@[j]
                == szm[op.output_ids@[j]]
    }
}

/// The sequential graph executor: owns the execution plan and the storage
/// layout derived by `prepare`, and replays them on `execute`.
pub struct SimpleGraphExecutor<Op: Operator> {
    ready: bool,
    steps: Vec<PlanStep<Op>>,
    slot_count: usize,
    input_slots: Vec<usize>,
    input_sizes: Vec<usize>,
    output_slots: Vec<usize>,
    output_sizes: Vec<usize>,
    gg: Ghost<Graph<Op>>,
    gorder: Ghost<Seq<int>>,
    gslot: Ghost<Map<usize, usize>>,
}

impl<Op: Operator> SimpleGraphExecutor<Op> {
    /// The installed plan faithfully mirrors the recorded graph: the order
    /// is topological, sizes follow the size inference, every id has a
    /// slot, slots are never shared by values alive together, and each
    /// step matches its operation.
    spec fn wf_plan(self) -> bool {
        let g = self.gg@;
        let ord = self.gorder@;
        let slot = self.gslot@;
        let n = ord.len() as int;
        let szm = sizes_after(g, ord, self.input_sizes@, n);
        &&& graph_wf(g)
        &&& arity_ok(g)
        &&& no_dangling(g)
        &&& valid_order(g, ord)
        &&& self.input_sizes@.len() == g.input_ids@.len()
        &&& forall|k: int| 0 <= k < n ==> step_sizes_ok(g, ord, self.input_sizes@, k)
        &&& forall|id: usize| slot.contains_key(id) == ready_at(g, ord, n, id)
        &&& forall|id: usize|
            #[trigger] slot.contains_key(id) ==> (slot[id] as int) < self.slot_count as int
        &&& slots_safe(g, ord, slot)
        &&& self.input_slots@.len() == g.input_ids@.len()
        &&& forall|k: int|
            0 <= k < self.input_slots@.len() ==> #[trigger] self.input_slots@[k]
                == slot[g.input_ids@[k]]
        &&& self.output_slots@.len() == g.output_ids@.len()
        &&& forall|k: int|
            0 <= k < self.output_slots@.len() ==> #[trigger] self.output_slots@[k]
                == slot[g.output_ids@[k]]
        &&& self.output_sizes@.len() == g.output_ids@.len()
        &&& forall|k: int|
            0 <= k < self.output_sizes@.len() ==> #[trigger] self.output_sizes@[k]
                == szm[g.output_ids@[k]]
        &&& self.steps@.len() == n
        &&& forall|k: int|
            0 <= k < self.steps@.len() ==> (#[trigger] self.steps@[k]).wf_at(g, ord, slot, szm, k)
    }

    /// A plan is only marked ready when it is faithful.
    #[verifier::type_invariant]
    spec fn inv(self) -> bool {
        self.ready ==> self.wf_plan()
    }

    /// Creates an executor with no prepared plan.
    pub fn new() -> (executor: Self)
        ensures
            !executor.prepared(),
    {
        SimpleGraphExecutor {
            ready: false,
            steps: Vec::new(),
            slot_count: 0,
            input_slots: Vec::new(),
            input_sizes: Vec::new(),
            output_slots: Vec::new(),
            output_sizes: Vec::new(),
            gg: Ghost(arbitrary()),
            gorder: Ghost(arbitrary()),
            gslot: Ghost(arbitrary()),
        }
    }
}

impl<Op: Operator> GraphExecutor<Op> for SimpleGraphExecutor<Op> {
    closed spec fn prepared(&self) -> bool {
        self.ready && self.wf_plan()
    }

    closed spec fn plan_graph(&self) -> Graph<Op> {
        self.gg@
    }

    closed spec fn plan_order(&self) -> Seq<int> {
        self.gorder@
    }

    closed spec fn plan_input_sizes(&self) -> Seq<usize> {
        self.input_sizes@
    }

    fn prepare(&mut self, graph: &Graph<Op>, input_sizes: Vec<usize>) -> (result: Result<
        Vec<usize>,
        ExecError,
    >) {
        *self = Self::new();
        if input_sizes.len() != graph.input_ids.len() {
            return Err(ExecError::SizeCountMismatch);
        }
        if !check_arity(graph) {
            return Err(ExecError::ArityMismatch);
        }
        if !check_dangling(graph) {
            return Err(ExecError::DanglingReference);
        }
        let order = match topological_order(graph) {
            Some(order) => order,
            None => {
                return Err(ExecError::CycleDetected);
            },
        };
        let ghost g = *graph;
        let ghost ord = to_int_seq(order@);
        let ghost n = order@.len() as int;
        proof {
            assert(valid_order(g, ord));
            assert(schedulable(g));
        }
        let szm = propagate_sizes(graph, &order, &input_sizes);
        let live = compute_liveness(graph, &order);
        proof {
            assert forall|id: usize| szm@.contains_key(id) == ready_at(g, ord, n, id) by {
                lemma_sizes_domain(g, ord, input_sizes@, n, id);
            };
        }
        let (slots, slot_count) = assign_slots(graph, &order, &live, &szm);
        let ghost szmap = sizes_after(g, ord, input_sizes@, n);
        // Assemble the plan steps.
        let mut steps: Vec<PlanStep<Op>> = Vec::new();
        let mut k: usize = 0;
        while k < order.len()
            invariant
                g == *graph,
                ord == to_int_seq(order@),
                n == order@.len() as int,
                graph_wf(g),
                arity_ok(g),
                no_dangling(g),
                valid_order(g, ord),
                szm@ == szmap,
                szmap == sizes_after(g, ord, input_sizes@, n),
                forall|id: usize| slots@.contains_key(id) == ready_at(g, ord, n, id),
                k <= order@.len(),
                steps@.len() == k,
                forall|k2: int|
                    0 <= k2 < k ==> (#[trigger] steps@[k2]).wf_at(g, ord, slots@, szmap, k2),
            decreases order@.len() - k,
        {
            proof {
                assert(0 <= ord[k as int] < g.operations@.len());
            }
            let j = order[k];
            let op = &graph.operations[j];
            let mut in_slots: Vec<usize> = Vec::new();
            let mut i: usize = 0;
            while i < op.input_ids.len()
                invariant
                    g == *graph,
                    ord == to_int_seq(order@),
                    n == order@.len() as int,
                    no_dangling(g),
                    valid_order(g, ord),
                    k < order@.len(),
                    j == order@[k as int],
                    *op == g.operations@[ord[k as int]],
                    forall|id: usize| slots@.contains_key(id) == ready_at(g, ord, n, id),
                    i <= op.input_ids@.len(),
                    in_slots@.len() == i,
                    forall|i2: int|
                        0 <= i2 < i ==> #[trigger] in_slots@[i2] == slots@[op.input_ids@[i2]],
                decreases op.input_ids@.len() - i,
            {
                let id = op.input_ids[i];
                proof {
                    assert(resolvable(g, id));
                    lemma_resolvable_ready(g, ord, id);
                }
                let s = match slots.get(id) {
                    Some(s) => s,
                    None => {
                        proof {
                            assert(false);
                        }
                        0
                    },
                };
                in_slots.push(s);
                i = i + 1;
            }
            let mut out_slots: Vec<usize> = Vec::new();
            let mut out_sizes: Vec<usize> = Vec::new();
            let mut jj: usize = 0;
            while jj < op.output_ids.len()
                invariant
                    g == *graph,
                    ord == to_int_seq(order@),
                    n == order@.len() as int,
                    valid_order(g, ord),
                    k < order@.len(),
                    *op == g.operations@[ord[k as int]],
                    szm@ == szmap,
                    szmap == sizes_after(g, ord, input_sizes@, n),
                    forall|id: usize| slots@.contains_key(id) == ready_at(g, ord, n, id),
                    jj <= op.output_ids@.len(),
                    out_slots@.len() == jj,
                    out_sizes@.len() == jj,
                    forall|j2: int|
                        0 <= j2 < jj ==> #[trigger] out_slots@[j2] == slots@[op.output_ids@[j2]],
                    forall|j2: int|
                        0 <= j2 < jj ==> #[trigger] out_sizes@[j2] == szmap[op.output_ids@[j2]],
                decreases op.output_ids@.len() - jj,
            {
                let id = op.output_ids[jj];
                proof {
                    assert(produces_at(g, ord[k as int], id));
                    assert(ready_at(g, ord, n, id));
                    lemma_sizes_domain(g, ord, input_sizes@, n, id);
                }
                let s = match slots.get(id) {
                    Some(s) => s,
                    None => {
                        proof {
                            assert(false);
                        }
                        0
                    },
                };
                let sz = match szm.get(id) {
                    Some(sz) => sz,
                    None => {
                        proof {
                            assert(false);
                        }
                        0
                    },
                };
                out_slots.push(s);
                out_sizes.push(sz);
                jj = jj + 1;
            }
            steps.push(
                PlanStep { operator: rc_dup(&op.operator), in_slots, out_slots, out_sizes },
            );
            k = k + 1;
        }
        // Bind the graph inputs and outputs to their slots and sizes.
        let mut input_slots: Vec<usize> = Vec::new();
        let mut k2: usize = 0;
        while k2 < graph.input_ids.len()
            invariant
                g == *graph,
                ord == to_int_seq(order@),
                n == order@.len() as int,
                valid_order(g, ord),
                forall|id: usize| slots@.contains_key(id) == ready_at(g, ord, n, id),
                k2 <= graph.input_ids@.len(),
                input_slots@.len() == k2,
                forall|k3: int|
                    0 <= k3 < k2 ==> #[trigger] input_slots@[k3] == slots@[g.input_ids@[k3]],
            decreases graph.input_ids@.len() - k2,
        {
            let id = graph.input_ids[k2];
            proof {
                assert(g.input_ids@.contains(id));
                assert(ready_at(g, ord, n, id));
            }
            let s = match slots.get(id) {
                Some(s) => s,
                None => {
                    proof {
                        assert(false);
                    }
                    0
                },
            };
            input_slots.push(s);
            k2 = k2 + 1;
        }
        let mut output_slots: Vec<usize> = Vec::new();
        let mut output_sizes: Vec<usize> = Vec::new();
        let mut returned_sizes: Vec<usize> = Vec::new();
        let mut k3: usize = 0;
        while k3 < graph.output_ids.len()
            invariant
                g == *graph,
                ord == to_int_seq(order@),
                n == order@.len() as int,
                no_dangling(g),
                valid_order(g, ord),
                szm@ == szmap,
                szmap == sizes_after(g, ord, input_sizes@, n),
                forall|id: usize| slots@.contains_key(id) == ready_at(g, ord, n, id),
                k3 <= graph.output_ids@.len(),
                output_slots@.len() == k3,
                output_sizes@.len() == k3,
                returned_sizes@ == output_sizes@,
                forall|k4: int|
                    0 <= k4 < k3 ==> #[trigger] output_slots@[k4] == slots@[g.output_ids@[k4]],
                forall|k4: int|
                    0 <= k4 < k3 ==> #[trigger] output_sizes@[k4] == szmap[g.output_ids@[k4]],
            decreases graph.output_ids@.len() - k3,
        {
            let id = graph.output_ids[k3];
            proof {
                assert(resolvable(g, id));
                lemma_resolvable_ready(g, ord, id);
                lemma_sizes_domain(g, ord, input_sizes@, n, id);
            }
            let s = match slots.get(id) {
                Some(s) => s,
                None => {
                    proof {
                        assert(false);
                    }
                    0
                },
            };
            let sz = match szm.get(id) {
                Some(sz) => sz,
                None => {
                    proof {
                        assert(false);
                    }
                    0
                },
            };
            output_slots.push(s);
            output_sizes.push(sz);
            returned_sizes.push(sz);
            k3 = k3 + 1;
        }
        let next = SimpleGraphExecutor {
            ready: true,
            steps,
            slot_count,
            input_slots,
            input_sizes,
            output_slots,
            output_sizes,
            gg: Ghost(*graph),
            gorder: Ghost(ord),
            gslot: Ghost(slots@),
        };
        proof {
            assert(next.wf_plan());
        }
        *self = next;
        proof {
            assert(returned_sizes@ =~= output_sizes_spec(g, ord, input_sizes@));
        }
        Ok(returned_sizes)
    }

    fn execute(&mut self, inputs: Vec<Buffer>, outputs: &mut Vec<Buffer>) -> (result: Result<
        (),
        ExecError,
    >) {
        proof {
            use_type_invariant(&*self);
        }
        if !self.ready {
            return Err(ExecError::NotPrepared);
        }
        let ghost g = self.gg@;
        let ghost ord = self.gorder@;
        let ghost slotm = self.gslot@;
        let ghost n = ord.len() as int;
        let ghost invs = buffer_views(inputs@);
        if inputs.len() != self.input_slots.len() {
            return Err(ExecError::SizeCountMismatch);
        }
        let mut c: usize = 0;
        while c < inputs.len()
            invariant
                self.ready,
                self.wf_plan(),
                g == self.gg@,
                slotm == self.gslot@,
                inputs@.len() == self.input_slots@.len(),
                c <= inputs@.len(),
                forall|k: int|
                    0 <= k < c ==> (#[trigger] inputs@[k])@.len() == self.input_sizes@[k],
            decreases inputs@.len() - c,
        {
            if inputs[c].size() != self.input_sizes[c] {
                return Err(ExecError::NotPrepared);
            }
            c = c + 1;
        }
        // Allocate the slot storage and bind the graph inputs.
        let mut bufs: Vec<Buffer> = Vec::new();
        while bufs.len() < self.slot_count
            invariant
                bufs@.len() <= self.slot_count,
            decreases self.slot_count - bufs@.len(),
        {
            bufs.push(Buffer::new_from_size(0));
        }
        let mut kb: usize = 0;
        while kb < inputs.len()
            invariant
                self.ready,
                self.wf_plan(),
                g == self.gg@,
                ord == self.gorder@,
                slotm == self.gslot@,
                n == ord.len() as int,
                invs == buffer_views(inputs@),
                inputs@.len() == self.input_slots@.len(),
                kb <= inputs@.len(),
                bufs@.len() == self.slot_count,
                forall|k: int|
                    0 <= k < kb ==> bufs@[slotm[#[trigger] g.input_ids@[k]] as int]@
                        == inputs@[k]@,
            decreases inputs@.len() - kb,
        {
            let ghost id = g.input_ids@[kb as int];
            proof {
                assert(g.input_ids@.contains(id));
                assert(ready_at(g, ord, n, id));
                assert(slotm.contains_key(id));
                assert(self.input_slots@[kb as int] == slotm[id]);
            }
            let s = self.input_slots[kb];
            bufs.set(s, inputs[kb].clone());
            proof {
                assert forall|k: int|
                    0 <= k < kb + 1 implies bufs@[slotm[#[trigger] g.input_ids@[k]] as int]@
                    == inputs@[k]@ by {
                    if k < kb {
                        let id2 = g.input_ids@[k];
                        assert(id2 != id);
                        assert(g.input_ids@.contains(id2));
                        assert(ready_at(g, ord, n, id2));
                        assert(slotm.contains_key(id2));
                        assert(lives_at(g, ord, id, 0));
                        assert(lives_at(g, ord, id2, 0));
                        assert(slotm[id2] != slotm[id]);
                    }
                };
            }
            kb = kb + 1;
        }
        proof {
            // The initial buffers carry the initial valuation.
            assert forall|id: usize|
                #[trigger] slotm.contains_key(id) && lives_at(g, ord, id, 0) implies bufs@[slotm[id] as int]@
                == values_after(g, ord, invs, 0)[id] by {
                assert(born_by(g, ord, id, 0));
                assert(is_graph_input(g, id));
                let kx = choose|kx: int| 0 <= kx < g.input_ids@.len() && g.input_ids@[kx] == id;
                assert(bufs@[slotm[g.input_ids@[kx]] as int]@ == inputs@[kx]@);
                lemma_bind_ids_at(Map::<usize, Seq<u8>>::empty(), g.input_ids@, invs, kx);
                assert(values_after(g, ord, invs, 0)[id] == invs[kx]);
            };
        }
        // Run every step of the plan in order.
        let mut k: usize = 0;
        while k < self.steps.len()
            invariant
                self.ready,
                self.wf_plan(),
                g == self.gg@,
                ord == self.gorder@,
                slotm == self.gslot@,
                n == ord.len() as int,
                invs == buffer_views(inputs@),
                k <= self.steps@.len(),
                bufs@.len() == self.slot_count,
                forall|id: usize|
                    #[trigger] slotm.contains_key(id) && lives_at(g, ord, id, k as int)
                        ==> bufs@[slotm[id] as int]@ == values_after(g, ord, invs, k as int)[id],
            decreases self.steps@.len() - k,
        {
            proof {
                assert(0 <= ord[k as int] < g.operations@.len());
                assert(self.steps@[k as int].wf_at(
                    g,
                    ord,
                    slotm,
                    sizes_after(g, ord, self.input_sizes@, n),
                    k as int,
                ));
            }
            let ghost op = g.operations@[ord[k as int]];
            let ghost vmk = values_after(g, ord, invs, k as int);
            let step = &self.steps[k];
            // Gather the step's input buffers.
            let mut ins: Vec<Buffer> = Vec::new();
            let mut i: usize = 0;
            while i < step.in_slots.len()
                invariant
                    self.ready,
                    self.wf_plan(),
                    g == self.gg@,
                    ord == self.gorder@,
                    slotm == self.gslot@,
                    n == ord.len() as int,
                    invs == buffer_views(inputs@),
                    k < self.steps@.len(),
                    *step == self.steps@[k as int],
                    step.wf_at(g, ord, slotm, sizes_after(g, ord, self.input_sizes@, n), k as int),
                    op == g.operations@[ord[k as int]],
                    vmk == values_after(g, ord, invs, k as int),
                    bufs@.len() == self.slot_count,
                    forall|id: usize|
                        #[trigger] slotm.contains_key(id) && lives_at(g, ord, id, k as int)
                            ==> bufs@[slotm[id] as int]@ == vmk[id],
                    i <= step.in_slots@.len(),
                    ins@.len() == i,
                    forall|i2: int|
                        0 <= i2 < i ==> (#[trigger] ins@[i2])@ == vmk[op.input_ids@[i2]],
                decreases step.in_slots@.len() - i,
            {
                let ghost id = op.input_ids@[i as int];
                proof {
                    assert(ready_at(g, ord, k as int, id));
                    assert(born_by(g, ord, id, k as int));
                    assert(op.input_ids@.contains(id));
                    assert(consumes_at(g, ord[k as int], id));
                    assert(needed_from(g, ord, id, k as int));
                    assert(lives_at(g, ord, id, k as int));
                    lemma_born_monotone(g, ord, id, k as int, n);
                    assert(slotm.contains_key(id));
                    assert(step.in_slots@[i as int] == slotm[id]);
                }
                let s = step.in_slots[i];
                ins.push(bufs[s].clone());
                i = i + 1;
            }
            proof {
                assert(buffer_views(ins@) =~= op_input_values(op, vmk));
            }
            // Freshly sized output buffers for the step.
            let mut outs: Vec<Buffer> = Vec::new();
            let mut j2: usize = 0;
            while j2 < step.out_sizes.len()
                invariant
                    j2 <= step.out_sizes@.len(),
                    outs@.len() == j2,
                decreases step.out_sizes@.len() - j2,
            {
                outs.push(Buffer::new_from_size(step.out_sizes[j2]));
                j2 = j2 + 1;
            }
            proof {
                assert(ins@.len() == (*step.operator).spec_input_count());
                assert(outs@.len() == (*step.operator).spec_output_count());
            }
            step.operator.execute(&ins, &mut outs);
            let ghost vals = (*op.operator).spec_execute(op_input_values(op, vmk));
            let ghost snapshot = bufs@;
            proof {
                assert(buffer_views(outs@) == vals);
                assert(vals.len() == op.output_ids@.len());
                assert forall|ja: int, jb: int|
                    0 <= ja < jb < step.out_slots@.len() implies step.out_slots@[ja]
                    != step.out_slots@[jb] by {
                    let ida = op.output_ids@[ja];
                    let idb = op.output_ids@[jb];
                    assert(ida != idb);
                    assert(op.output_ids@.contains(ida));
                    assert(produces_at(g, ord[k as int], ida));
                    assert(op.output_ids@.contains(idb));
                    assert(produces_at(g, ord[k as int], idb));
                    lemma_fresh_at_birth(g, ord, k as int, ida);
                    lemma_fresh_at_birth(g, ord, k as int, idb);
                    assert(lives_at(g, ord, ida, k as int + 1));
                    assert(lives_at(g, ord, idb, k as int + 1));
                    lemma_born_monotone(g, ord, ida, k as int + 1, n);
                    lemma_born_monotone(g, ord, idb, k as int + 1, n);
                    assert(slotm.contains_key(ida));
                    assert(slotm.contains_key(idb));
                    if slotm[ida] == slotm[idb] {
                        assert(false);
                    }
                };
                assert forall|j3: int|
                    0 <= j3 < step.out_slots@.len() implies ((#[trigger] step.out_slots@[j3]) as int)
                    < bufs@.len() by {
                    let o = op.output_ids@[j3];
                    assert(op.output_ids@.contains(o));
                    assert(produces_at(g, ord[k as int], o));
                    assert(born_by(g, ord, o, k as int + 1));
                    lemma_born_monotone(g, ord, o, k as int + 1, n);
                    assert(slotm.contains_key(o));
                    assert(step.out_slots@[j3] == slotm[o]);
                };
            }
            // Write the step's outputs back into their slots.
            let mut jx: usize = 0;
            while jx < step.out_slots.len()
                invariant
                    self.ready,
                    self.wf_plan(),
                    g == self.gg@,
                    ord == self.gorder@,
                    slotm == self.gslot@,
                    n == ord.len() as int,
                    k < self.steps@.len(),
                    *step == self.steps@[k as int],
                    step.wf_at(g, ord, slotm, sizes_after(g, ord, self.input_sizes@, n), k as int),
                    op == g.operations@[ord[k as int]],
                    vals.len() == op.output_ids@.len(),
                    forall|j3: int| 0 <= j3 < outs@.len() ==> (#[trigger] outs@[j3])@ == vals[j3],
                    outs@.len() == vals.len(),
                    forall|ja: int, jb: int|
                        0 <= ja < jb < step.out_slots@.len() ==> step.out_slots@[ja]
                            != step.out_slots@[jb],
                    forall|j3: int|
                        0 <= j3 < step.out_slots@.len() ==> (#[trigger] step.out_slots@[j3] as int)
                            < bufs@.len(),
                    jx <= step.out_slots@.len(),
                    bufs@.len() == snapshot.len(),
                    forall|j3: int|
                        0 <= j3 < jx ==> bufs@[(#[trigger] step.out_slots@[j3]) as int]@
                            == vals[j3],
                    forall|s: int|
                        0 <= s < bufs@.len() && !slot_written(step.out_slots@, jx as int, s)
                            ==> bufs@[s] == snapshot[s],
                decreases step.out_slots@.len() - jx,
            {
                let s = step.out_slots[jx];
                bufs.set(s, outs[jx].clone());
                jx = jx + 1;
                proof {
                    assert forall|s2: int|
                        0 <= s2 < bufs@.len() && !slot_written(step.out_slots@, jx as int, s2)
                            implies bufs@[s2] == snapshot[s2] by {
                        assert(!(step.out_slots@[jx - 1] as int == s2));
                        assert(!slot_written(step.out_slots@, jx as int - 1, s2));
                    };
                }
            }
            k = k + 1;
            proof {
                let vmk1 = values_after(g, ord, invs, k as int);
                assert(vmk1 == bind_ids(vmk, op.output_ids@, vals));
                assert forall|id: usize|
                    #[trigger] slotm.contains_key(id) && lives_at(g, ord, id, k as int) implies
                    bufs@[slotm[id] as int]@ == vmk1[id] by {
                    if op.output_ids@.contains(id) {
                        let j3 = choose|j3: int|
                            0 <= j3 < op.output_ids@.len() && op.output_ids@[j3] == id;
                        assert(step.out_slots@[j3] == slotm[id]);
                        assert(bufs@[slotm[id] as int]@ == vals[j3]);
                        lemma_bind_ids_at(vmk, op.output_ids@, vals, j3);
                    } else {
                        assert(born_by(g, ord, id, k as int));
                        assert(born_by(g, ord, id, k as int - 1)) by {
                            if !born_by(g, ord, id, k as int - 1) {
                                let s = choose|s: int|
                                    0 <= s < k && produces_at(g, ord[s], id);
                                assert(s == k - 1);
                                assert(op.output_ids@.contains(id));
                                assert(false);
                            }
                        };
                        assert(lives_at(g, ord, id, k as int - 1)) by {
                            assert(needed_from(g, ord, id, k as int));
                            if !g.output_ids@.contains(id) {
                                let jc = choose|jc: int|
                                    k as int <= jc < ord.len() && consumes_at(g, ord[jc], id);
                                assert(
                                    k as int - 1 <= jc < ord.len() && consumes_at(g, ord[jc], id));
                            }
                            assert(needed_from(g, ord, id, k as int - 1));
                        };
                        assert(!slot_written(
                            step.out_slots@,
                            step.out_slots@.len() as int,
                            slotm[id] as int,
                        )) by {
                            if slot_written(
                                step.out_slots@,
                                step.out_slots@.len() as int,
                                slotm[id] as int,
                            ) {
                                let j3 = choose|j3: int|
                                    0 <= j3 < step.out_slots@.len() && step.out_slots@[j3] as int
                                        == slotm[id] as int;
                                let o = op.output_ids@[j3];
                                assert(step.out_slots@[j3] == slotm[o]);
                                assert(op.output_ids@.contains(o));
                                assert(o != id);
                                assert(produces_at(g, ord[k as int - 1], o));
                                lemma_fresh_at_birth(g, ord, k as int - 1, o);
                                assert(lives_at(g, ord, o, k as int));
                                lemma_born_monotone(g, ord, o, k as int, n);
                                assert(slotm.contains_key(o));
                                assert(false);
                            }
                        };
                        assert(bufs@[slotm[id] as int] == snapshot[slotm[id] as int]);
                        assert(snapshot[slotm[id] as int]@ == vmk[id]);
                        lemma_values_domain(g, ord, invs, k as int - 1, id);
                        lemma_bind_ids_frame(vmk, op.output_ids@, vals, id);
                    }
                };
            }
        }
        // Hand the graph outputs to the caller.
        let mut result: Vec<Buffer> = Vec::new();
        let mut ko: usize = 0;
        while ko < self.output_slots.len()
            invariant
                self.ready,
                self.wf_plan(),
                g == self.gg@,
                ord == self.gorder@,
                slotm == self.gslot@,
                n == ord.len() as int,
                invs == buffer_views(inputs@),
                bufs@.len() == self.slot_count,
                forall|id: usize|
                    #[trigger] slotm.contains_key(id) && lives_at(g, ord, id, n)
                        ==> bufs@[slotm[id] as int]@ == values_after(g, ord, invs, n)[id],
                ko <= self.output_slots@.len(),
                result@.len() == ko,
                forall|k4: int|
                    0 <= k4 < ko ==> (#[trigger] result@[k4])@ == values_after(g, ord, invs, n)[
                        g.output_ids@[k4]],
            decreases self.output_slots@.len() - ko,
        {
            let ghost id = g.output_ids@[ko as int];
            proof {
                assert(g.output_ids@.contains(id));
                assert(resolvable(g, id));
                lemma_resolvable_ready(g, ord, id);
                assert(born_by(g, ord, id, n));
                assert(lives_at(g, ord, id, n));
                assert(slotm.contains_key(id));
                assert(self.output_slots@[ko as int] == slotm[id]);
            }
            let s = self.output_slots[ko];
            result.push(bufs[s].clone());
            ko = ko + 1;
        }
        *outputs = result;
        proof {
            assert(buffer_views(outputs@) =~= output_values_spec(g, ord, invs));
            assert(crate::operator::byte_lens(invs) =~= self.input_sizes@);
            assert forall|k4: int|
                0 <= k4 < outputs@.len() implies (#[trigger] outputs@[k4])@.len()
                == output_sizes_spec(g, ord, self.input_sizes@)[k4] by {
                let id = g.output_ids@[k4];
                assert(resolvable(g, id));
                lemma_resolvable_ready(g, ord, id);
                lemma_sizes_predict(g, ord, invs, n, id);
                crate::buffer::lemma_buffer_len_bounded(outputs@[k4]);
                assert(outputs@[k4]@ == values_after(g, ord, invs, n)[id]);
            };
        }
        Ok(())
    }
}

/// Slot `s` is among the first `jx` output slots of a step.
spec fn slot_written(out_slots: Seq<usize>, jx: int, s: int) -> bool {
    exists|j2: int| 0 <= j2 < jx && (#[trigger] out_slots[j2]) as int == s
}

/// Execution of a prepared plan is deterministic: two runs of the same
/// plan on input buffers with identical byte contents produce bit-identical
/// output buffers, however often `execute` is repeated.
pub proof fn lemma_execute_deterministic<Op: Operator>(
    g: Graph<Op>,
    order: Seq<int>,
    inputs1: Seq<Buffer>,
    inputs2: Seq<Buffer>,
)
    requires
        buffer_views(inputs1) == buffer_views(inputs2),
    ensures
        output_values_spec(g, order, buffer_views(inputs1)) == output_values_spec(
            g,
            order,
            buffer_views(inputs2),
        ),
{
}

} // verus!
