use graph_exec::operator::{BroadcastOperator, CopyOperator};
use graph_exec::{Buffer, Operator};

#[test]
fn test_operator_execute() {
    let operator = CopyOperator { arity: 2 };
    let input_buffers = vec![
        Buffer::new_from_data(vec![1 as u8; 10]),
        Buffer::new_from_data(vec![2 as u8; 20]),
    ];
    let mut output_buffers = vec![Buffer::new_from_size(10), Buffer::new_from_size(20)];
    operator.execute(&input_buffers, &mut output_buffers);
    assert_eq!(input_buffers, output_buffers);
}

#[test]
fn test_operator_compute_output_buffer_sizes() {
    let operator = CopyOperator { arity: 2 };
    let input_buffer_sizes = vec![10, 20];
    let expected_output_buffer_sizes = vec![10, 20];
    assert_eq!(
        operator.compute_output_buffer_sizes(&input_buffer_sizes),
        expected_output_buffer_sizes
    );
}

#[test]
fn test_operator_counts() {
    let operator = CopyOperator { arity: 3 };
    assert_eq!(operator.input_count(), 3);
    assert_eq!(operator.output_count(), 3);
    let fan = BroadcastOperator { in_arity: 1, out_arity: 4 };
    assert_eq!(fan.input_count(), 1);
    assert_eq!(fan.output_count(), 4);
}

#[test]
fn test_broadcast_execute() {
    let fan = BroadcastOperator { in_arity: 1, out_arity: 2 };
    let input_buffers = vec![Buffer::new_from_data(vec![7, 8])];
    let mut output_buffers = vec![Buffer::new_from_size(2), Buffer::new_from_size(2)];
    fan.execute(&input_buffers, &mut output_buffers);
    assert_eq!(output_buffers[0].read(), &vec![7, 8]);
    assert_eq!(output_buffers[1].read(), &vec![7, 8]);
    assert_eq!(fan.compute_output_buffer_sizes(&vec![2]), vec![2, 2]);
}
