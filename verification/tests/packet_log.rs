use pcpvpn::packet_log::{Direction, PacketLogEntry, RingBuffer};

fn entry(t: u64) -> PacketLogEntry {
    PacketLogEntry { t_ms: t, dir: Direction::Rx, proto: "UDP".to_string(), len: 1, note: String::new() }
}

#[test]
fn ring_buffer_keeps_the_newest_entries_up_to_its_capacity() {
    let mut rb = RingBuffer::new(3);
    for t in 0..5 {
        rb.push(entry(t));
        assert!(rb.snapshot().len() <= 3);
    }
    let ts: Vec<u64> = rb.snapshot().iter().map(|e| e.t_ms).collect();
    assert_eq!(ts, vec![2, 3, 4]);
    rb.extend(vec![entry(9)]);
    let ts: Vec<u64> = rb.snapshot().iter().map(|e| e.t_ms).collect();
    assert_eq!(ts, vec![3, 4, 9]);
    rb.clear();
    assert!(rb.snapshot().is_empty());
}

#[test]
fn ring_buffer_of_capacity_zero_keeps_nothing() {
    let mut rb = RingBuffer::new(0);
    rb.push(entry(1));
    rb.extend(vec![entry(2), entry(3)]);
    assert!(rb.snapshot().is_empty());
}
