use vibrato::ring_buffer::RingBuffer;

// FIFO order survives many wrap cycles of a small ring: each pop returns
// the value pushed three steps earlier, long past several wraparounds.
#[test]
fn test_fifo_many_wrap_cycles() {
    let capacity = 4;
    let queued = 3;
    let mut ring_buffer: RingBuffer<u64> = RingBuffer::new(capacity);
    for i in 0..queued {
        ring_buffer.push(i as u64);
    }
    for i in queued..200 {
        assert_eq!(ring_buffer.len(), queued);
        assert_eq!(ring_buffer.pop(), (i - queued) as u64);
        ring_buffer.push(i as u64);
    }
}

// A buffer of a single slot still behaves as a ring.
#[test]
fn test_capacity_one() {
    let mut ring_buffer: RingBuffer<i32> = RingBuffer::new(1);
    assert_eq!(ring_buffer.capacity(), 1);
    assert_eq!(ring_buffer.len(), 0);
    ring_buffer.push(7);
    assert_eq!(ring_buffer.get_write_index(), 0);
    assert_eq!(ring_buffer.pop(), 7);
    assert_eq!(ring_buffer.get_read_index(), 0);
    ring_buffer.put(9);
    assert_eq!(ring_buffer.peek(), 9);
}

// `get` wraps any offset modulo the capacity, even offsets past the end.
#[test]
fn test_get_wraps_large_offsets() {
    let capacity = 4;
    let mut ring_buffer: RingBuffer<i32> = RingBuffer::new(capacity);
    for v in [10, 20, 30, 40] {
        ring_buffer.push(v);
    }
    assert_eq!(ring_buffer.get(0), 10);
    assert_eq!(ring_buffer.get(1), 20);
    assert_eq!(ring_buffer.get(4), 10);
    assert_eq!(ring_buffer.get(5), 20);
    assert_eq!(ring_buffer.get(11), 40);
}

// `len` uses wraparound-safe subtraction when the write cursor sits
// before the read cursor.
#[test]
fn test_len_wrapped_cursors() {
    let mut ring_buffer: RingBuffer<i32> = RingBuffer::new(10);
    ring_buffer.set_write_index(2);
    ring_buffer.set_read_index(7);
    assert_eq!(ring_buffer.len(), 5);
    ring_buffer.set_write_index(7);
    ring_buffer.set_read_index(2);
    assert_eq!(ring_buffer.len(), 5);
}

// `put` and `peek` move no cursor; only `push` and `pop` advance them.
#[test]
fn test_put_peek_do_not_advance() {
    let mut ring_buffer: RingBuffer<i32> = RingBuffer::new(3);
    ring_buffer.put(5);
    assert_eq!(ring_buffer.get_write_index(), 0);
    assert_eq!(ring_buffer.len(), 0);
    assert_eq!(ring_buffer.peek(), 5);
    assert_eq!(ring_buffer.get_read_index(), 0);
    ring_buffer.put(6);
    assert_eq!(ring_buffer.peek(), 6);
}
