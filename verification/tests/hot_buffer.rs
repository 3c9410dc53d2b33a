use tesseract::hot_buffer::HotBuffer;

/// A buffered vector as the tree's buffer holds it: id, coordinates, metadata.
type Entry = (u64, Vec<f32>, String);

fn entry(id: u64, v: &[f32]) -> Entry {
    (id, v.to_vec(), String::new())
}

#[test]
fn insert_single_vector() {
    let mut buffer: HotBuffer<Entry> = HotBuffer::new(100);
    let inserted = buffer.insert(entry(42, &[1.0, 0.0, 0.0]));
    assert_eq!(buffer.len(), 1);
    assert!(!inserted, "buffer should not be full yet");
}

#[test]
fn empty_buffer_returns_no_results() {
    let buffer: HotBuffer<Entry> = HotBuffer::new(100);
    assert!(buffer.is_empty());
    assert!(buffer.items().is_empty());
}

#[test]
fn buffer_full_when_capacity_reached() {
    let mut buffer = HotBuffer::new(3);
    assert!(!buffer.insert(entry(1, &[1.0, 0.0, 0.0])));
    assert!(!buffer.insert(entry(2, &[0.0, 1.0, 0.0])));
    let full = buffer.insert(entry(3, &[0.0, 0.0, 1.0]));
    assert!(full, "buffer should be full at capacity");
    assert_eq!(buffer.len(), 3);
}

#[test]
fn buffer_capacity_exceeded_stays_full() {
    let mut buffer = HotBuffer::new(2);
    buffer.insert(entry(1, &[1.0, 0.0]));
    buffer.insert(entry(2, &[0.0, 1.0]));
    assert!(buffer.is_full());
    let full = buffer.insert(entry(3, &[0.5, 0.5]));
    assert!(full);
}

#[test]
fn drain_empties_buffer() {
    let mut buffer = HotBuffer::new(100);
    buffer.insert(entry(1, &[1.0, 0.0, 0.0]));
    buffer.insert(entry(2, &[0.0, 1.0, 0.0]));
    assert_eq!(buffer.len(), 2);

    let drained = buffer.drain();
    assert_eq!(drained.len(), 2);
    assert!(buffer.is_empty());
    assert_eq!(buffer.len(), 0);
}

#[test]
fn drain_empty_buffer_returns_empty_vec() {
    let mut buffer: HotBuffer<Entry> = HotBuffer::new(100);
    let drained = buffer.drain();
    assert!(drained.is_empty());
    assert!(buffer.is_empty());
}

#[test]
fn capacity_returns_configured_value() {
    let buffer: HotBuffer<Entry> = HotBuffer::new(5000);
    assert_eq!(buffer.capacity(), 5000);
}

#[test]
fn is_full_returns_false_when_below_capacity() {
    let mut buffer = HotBuffer::new(10);
    for i in 0..5u64 {
        buffer.insert(entry(i, &[1.0, 0.0, 0.0]));
    }
    assert!(!buffer.is_full());
}

#[test]
fn drain_hands_out_every_insert_in_order() {
    let mut buffer = HotBuffer::new(2);
    for i in 0..5u64 {
        buffer.insert(i);
    }
    assert_eq!(buffer.items(), &vec![0, 1, 2, 3, 4]);
    assert_eq!(buffer.drain(), vec![0, 1, 2, 3, 4]);
    buffer.insert(9);
    assert_eq!(buffer.drain(), vec![9]);
    assert_eq!(buffer.capacity(), 2);
}

#[test]
fn zero_capacity_is_always_full() {
    let mut buffer: HotBuffer<u8> = HotBuffer::new(0);
    assert!(buffer.is_full());
    assert!(buffer.insert(1));
}
