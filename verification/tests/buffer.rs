use graph_exec::Buffer;

#[test]
fn test_buffer() {
    let buffer = Buffer::new_from_size(10);
    assert_eq!(buffer.size(), 10);
    assert_eq!(buffer.read(), &vec![0; 10]);
}

#[test]
fn test_buffer_write() {
    let mut buffer = Buffer::new_from_size(10);
    buffer.write(&vec![1; 10]);
    assert_eq!(buffer.read(), &vec![1; 10]);
}

#[test]
fn test_buffer_new_from_data() {
    let buffer = Buffer::new_from_data(vec![1; 10]);
    assert_eq!(buffer.read(), &vec![1; 10]);
}

#[test]
fn test_buffer_round_trip() {
    let mut buffer = Buffer::new_from_size(0);
    buffer.write(&vec![1, 2, 3]);
    assert_eq!(buffer.read(), &vec![1, 2, 3]);
    assert_eq!(buffer.size(), 3);
}

#[test]
fn test_buffer_fresh_is_zeroed() {
    let buffer = Buffer::new_from_size(5);
    assert_eq!(buffer.read(), &vec![0, 0, 0, 0, 0]);
    let empty = Buffer::new_from_size(0);
    assert_eq!(empty.size(), 0);
    assert_eq!(empty.read(), &Vec::<u8>::new());
}

#[test]
fn test_buffer_write_changes_size() {
    let mut buffer = Buffer::new_from_size(4);
    buffer.write(&vec![9; 7]);
    assert_eq!(buffer.size(), 7);
    assert_eq!(buffer.read(), &vec![9; 7]);
}
