use easy_fs::pipe::{PipeRingBuffer, RING_BUFFER_SIZE};

#[test]
fn new_ring_is_empty() {
    let ring = PipeRingBuffer::new();
    assert_eq!(ring.available_read(), 0);
    assert_eq!(ring.available_write(), RING_BUFFER_SIZE);
}

#[test]
fn bytes_come_out_in_order() {
    let mut ring = PipeRingBuffer::new();
    for b in [1u8, 2, 3] {
        ring.write_byte(b);
    }
    assert_eq!(ring.available_read(), 3);
    assert_eq!(ring.available_write(), 29);
    assert_eq!(ring.read_byte(), 1);
    assert_eq!(ring.read_byte(), 2);
    assert_eq!(ring.read_byte(), 3);
    assert_eq!(ring.available_read(), 0);
}

#[test]
fn ring_fills_and_wraps() {
    let mut ring = PipeRingBuffer::new();
    for i in 0..20u8 {
        ring.write_byte(i);
    }
    for i in 0..20u8 {
        assert_eq!(ring.read_byte(), i);
    }
    for i in 0..32u8 {
        ring.write_byte(100 + i);
    }
    assert_eq!(ring.available_read(), 32);
    assert_eq!(ring.available_write(), 0);
    for i in 0..32u8 {
        assert_eq!(ring.read_byte(), 100 + i);
    }
    assert_eq!(ring.available_write(), 32);
}
