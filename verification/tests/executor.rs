use std::rc::Rc;

use graph_exec::operator::{BroadcastOperator, CopyOperator};
use graph_exec::{Buffer, ExecError, Graph, GraphExecutor, Operation, SimpleGraphExecutor};

fn copy_op(arity: usize, inputs: Vec<usize>, outputs: Vec<usize>) -> Operation<CopyOperator> {
    Operation::new(Rc::new(CopyOperator { arity }), inputs, outputs)
}

#[test]
fn test_identity_graph() {
    // One size-preserving operation, one input id, one output id.
    let graph = Graph::new(vec![copy_op(1, vec![0], vec![1])], vec![0], vec![1]);
    let mut executor = SimpleGraphExecutor::new();
    assert_eq!(executor.prepare(&graph, vec![10]), Ok(vec![10]));
    let mut outputs: Vec<Buffer> = Vec::new();
    let result = executor.execute(vec![Buffer::new_from_data(vec![7; 10])], &mut outputs);
    assert_eq!(result, Ok(()));
    assert_eq!(outputs.len(), 1);
    assert_eq!(outputs[0].read(), &vec![7; 10]);
}

#[test]
fn test_repeated_execute_deterministic() {
    let graph = Graph::new(vec![copy_op(1, vec![0], vec![1])], vec![0], vec![1]);
    let mut executor = SimpleGraphExecutor::new();
    assert_eq!(executor.prepare(&graph, vec![4]), Ok(vec![4]));
    let mut first: Vec<Buffer> = Vec::new();
    let mut second: Vec<Buffer> = Vec::new();
    let input = vec![3, 1, 4, 1];
    assert_eq!(
        executor.execute(vec![Buffer::new_from_data(input.clone())], &mut first),
        Ok(())
    );
    assert_eq!(
        executor.execute(vec![Buffer::new_from_data(input.clone())], &mut second),
        Ok(())
    );
    assert_eq!(first, second);
    assert_eq!(first[0].read(), &input);
}

#[test]
fn test_cycle_detected() {
    // Operation A consumes what B produces, and B consumes what A produces.
    let graph = Graph::new(
        vec![copy_op(1, vec![1], vec![2]), copy_op(1, vec![2], vec![1])],
        vec![],
        vec![],
    );
    let mut executor = SimpleGraphExecutor::new();
    assert_eq!(executor.prepare(&graph, vec![]), Err(ExecError::CycleDetected));
}

#[test]
fn test_dangling_reference() {
    // Id 0 is consumed but has no producer and is not a graph input.
    let graph = Graph::new(vec![copy_op(1, vec![0], vec![1])], vec![], vec![1]);
    let mut executor = SimpleGraphExecutor::new();
    assert_eq!(executor.prepare(&graph, vec![]), Err(ExecError::DanglingReference));
}

#[test]
fn test_arity_mismatch() {
    // The operator declares two inputs; the operation lists one.
    let graph = Graph::new(vec![copy_op(2, vec![0], vec![1])], vec![0], vec![1]);
    let mut executor = SimpleGraphExecutor::new();
    assert_eq!(executor.prepare(&graph, vec![10]), Err(ExecError::ArityMismatch));
}

#[test]
fn test_size_count_mismatch() {
    let graph = Graph::new(vec![copy_op(1, vec![0], vec![1])], vec![0], vec![1]);
    let mut executor = SimpleGraphExecutor::new();
    assert_eq!(executor.prepare(&graph, vec![10, 20]), Err(ExecError::SizeCountMismatch));
}

#[test]
fn test_execute_not_prepared() {
    let mut executor: SimpleGraphExecutor<CopyOperator> = SimpleGraphExecutor::new();
    let mut outputs: Vec<Buffer> = Vec::new();
    assert_eq!(
        executor.execute(vec![Buffer::new_from_size(1)], &mut outputs),
        Err(ExecError::NotPrepared)
    );
    assert!(outputs.is_empty());
}

#[test]
fn test_execute_wrong_input_count() {
    let graph = Graph::new(vec![copy_op(1, vec![0], vec![1])], vec![0], vec![1]);
    let mut executor = SimpleGraphExecutor::new();
    assert_eq!(executor.prepare(&graph, vec![2]), Ok(vec![2]));
    let mut outputs: Vec<Buffer> = Vec::new();
    assert_eq!(executor.execute(vec![], &mut outputs), Err(ExecError::SizeCountMismatch));
}

#[test]
fn test_execute_wrong_input_size() {
    let graph = Graph::new(vec![copy_op(1, vec![0], vec![1])], vec![0], vec![1]);
    let mut executor = SimpleGraphExecutor::new();
    assert_eq!(executor.prepare(&graph, vec![2]), Ok(vec![2]));
    let mut outputs: Vec<Buffer> = Vec::new();
    assert_eq!(
        executor.execute(vec![Buffer::new_from_size(3)], &mut outputs),
        Err(ExecError::NotPrepared)
    );
}

#[test]
fn test_two_stage_graph() {
    // Stage one fans id 0 out to ids 1 and 2; stage two reads both and
    // produces id 3.  The operations are listed consumer first, so the
    // executor must order them by their dependencies.
    let stage_one = Operation::new(
        Rc::new(BroadcastOperator { in_arity: 1, out_arity: 2 }),
        vec![0],
        vec![1, 2],
    );
    let stage_two = Operation::new(
        Rc::new(BroadcastOperator { in_arity: 2, out_arity: 1 }),
        vec![1, 2],
        vec![3],
    );
    let graph = Graph::new(vec![stage_two, stage_one], vec![0], vec![3]);
    let mut executor = SimpleGraphExecutor::new();
    assert_eq!(executor.prepare(&graph, vec![10]), Ok(vec![10]));
    let mut outputs: Vec<Buffer> = Vec::new();
    assert_eq!(
        executor.execute(vec![Buffer::new_from_data(vec![9; 10])], &mut outputs),
        Ok(())
    );
    assert_eq!(outputs.len(), 1);
    assert_eq!(outputs[0].read(), &vec![9; 10]);
}

#[test]
fn test_linear_chain_slot_reuse() {
    // Three-stage chain: id 1 dies before id 3 is produced, so its slot
    // may be reused; the final output must match the identity reference
    // regardless.
    let graph = Graph::new(
        vec![
            copy_op(1, vec![0], vec![1]),
            copy_op(1, vec![1], vec![2]),
            copy_op(1, vec![2], vec![3]),
        ],
        vec![0],
        vec![3],
    );
    let mut executor = SimpleGraphExecutor::new();
    assert_eq!(executor.prepare(&graph, vec![3]), Ok(vec![3]));
    let mut outputs: Vec<Buffer> = Vec::new();
    assert_eq!(
        executor.execute(vec![Buffer::new_from_data(vec![5, 6, 7])], &mut outputs),
        Ok(())
    );
    assert_eq!(outputs.len(), 1);
    assert_eq!(outputs[0].read(), &vec![5, 6, 7]);
}

#[test]
fn test_pass_through_output() {
    // A graph output may name a graph input directly.
    let graph = Graph::new(vec![copy_op(1, vec![0], vec![1])], vec![0], vec![0]);
    let mut executor = SimpleGraphExecutor::new();
    assert_eq!(executor.prepare(&graph, vec![2]), Ok(vec![2]));
    let mut outputs: Vec<Buffer> = Vec::new();
    assert_eq!(
        executor.execute(vec![Buffer::new_from_data(vec![8, 9])], &mut outputs),
        Ok(())
    );
    assert_eq!(outputs[0].read(), &vec![8, 9]);
}
