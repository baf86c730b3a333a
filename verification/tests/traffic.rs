use yggdrasil::traffic::{DeliveryQueue, PacketQueue, TrafficPacket, MAX_PACKET_AGE};

fn make_packet(src: u8, dst: u8, payload: &[u8]) -> TrafficPacket {
    TrafficPacket {
        path: Vec::new(),
        from: Vec::new(),
        source: [src; 32],
        dest: [dst; 32],
        watermark: u64::MAX,
        payload: payload.to_vec(),
    }
}

#[test]
fn push_and_pop() {
    let mut q = PacketQueue::new();
    q.push(make_packet(1, 2, b"hello"), 1);
    q.push(make_packet(3, 4, b"world"), 2);
    assert!(!q.is_empty());

    let p1 = q.pop().unwrap();
    assert_eq!(p1.payload, b"hello");
    let p2 = q.pop().unwrap();
    assert_eq!(p2.payload, b"world");
    assert!(q.is_empty());
    assert!(q.pop().is_none());
}

#[test]
fn drop_largest_removes_from_biggest_flow() {
    let mut q = PacketQueue::new();
    q.push(make_packet(1, 2, &[0; 100]), 1);
    q.push(make_packet(1, 2, &[0; 100]), 2);
    q.push(make_packet(1, 2, &[0; 100]), 3);
    q.push(make_packet(3, 4, &[0; 100]), 4);

    assert!(q.drop_largest());
    let mut count = 0;
    while q.pop().is_some() {
        count += 1;
    }
    assert_eq!(count, 3);
}

#[test]
fn same_dest_different_sources() {
    let mut q = PacketQueue::new();
    q.push(make_packet(1, 10, b"a"), 1);
    q.push(make_packet(2, 10, b"b"), 2);
    q.push(make_packet(3, 10, b"c"), 3);

    let p1 = q.pop().unwrap();
    assert_eq!(p1.payload, b"a");
    let p2 = q.pop().unwrap();
    assert_eq!(p2.payload, b"b");
    let p3 = q.pop().unwrap();
    assert_eq!(p3.payload, b"c");
}

#[test]
fn copy_from_reuses_allocations() {
    let mut p1 = TrafficPacket::new([1; 32], [2; 32], b"original".to_vec());
    p1.path = vec![10, 20, 30];
    let p2 = TrafficPacket::new([3; 32], [4; 32], b"copy target".to_vec());

    p1.copy_from(&p2);
    assert_eq!(p1.source, [3; 32]);
    assert_eq!(p1.payload, b"copy target");
    assert!(p1.path.is_empty());
}

#[test]
fn the_oldest_flow_comes_first() {
    let mut q = PacketQueue::new();
    q.push(make_packet(1, 2, b"a1"), 10);
    q.push(make_packet(1, 2, b"a2"), 11);
    q.push(make_packet(3, 4, b"b1"), 12);
    assert_eq!(q.pop().unwrap().payload, b"a1");
    assert_eq!(q.pop().unwrap().payload, b"a2");
    assert_eq!(q.pop().unwrap().payload, b"b1");
}

#[test]
fn size_counts_the_wire() {
    let mut q = PacketQueue::new();
    let p = make_packet(1, 2, b"abc");
    let n = p.wire_size();
    // Two empty paths, two keys, a watermark of ten bytes and the payload.
    assert_eq!(n, 1 + 1 + 32 + 32 + 10 + 3);
    q.push(p, 5);
    assert_eq!(q.size(), n);
    assert_eq!(q.oldest_age(9), Some(4));
    q.pop();
    assert_eq!(q.size(), 0);
    assert_eq!(q.oldest_age(9), None);
}

#[test]
fn packets_that_waited_too_long_make_room() {
    let mut q = PacketQueue::new();
    q.push_relieved(make_packet(1, 2, b"old"), 0);
    q.push_relieved(make_packet(3, 4, b"newer"), MAX_PACKET_AGE);
    assert_eq!(q.pop_batch(8).len(), 2);

    q.push_relieved(make_packet(1, 2, b"old"), 0);
    q.push_relieved(make_packet(3, 4, b"newer"), MAX_PACKET_AGE + 1);
    let left = q.pop_batch(8);
    assert_eq!(left.len(), 1);
    assert_eq!(left[0].payload, b"newer");
    assert!(q.pop_batch(8).is_empty());
}

#[test]
fn a_waiting_reader_gets_the_packet() {
    let mut d = DeliveryQueue::new();
    assert!(d.try_pop_or_wait().is_none());
    let p = d.deliver(make_packet(1, 2, b"x"), 1).unwrap();
    assert_eq!(p.payload, b"x");
    assert_eq!(d.queue_size(), 0);

    assert!(d.deliver(make_packet(1, 2, b"y"), 2).is_none());
    assert!(d.queue_size() > 0);
    assert_eq!(d.try_pop_or_wait().unwrap().payload, b"y");
}

fn pop_all(q: &mut PacketQueue) -> Vec<Vec<u8>> {
    let mut out = Vec::new();
    while let Some(p) = q.pop() {
        out.push(p.payload);
    }
    out
}

#[test]
fn what_is_pushed_last_is_popped_last() {
    let fill = |q: &mut PacketQueue| {
        q.push(make_packet(1, 9, b"a"), 1);
        q.push(make_packet(2, 8, b"b"), 2);
        q.push(make_packet(1, 9, b"c"), 3);
        q.push(make_packet(3, 9, b"d"), 4);
    };
    let mut q = PacketQueue::new();
    fill(&mut q);
    let before = pop_all(&mut q);
    assert_eq!(before, vec![b"a".to_vec(), b"b".to_vec(), b"c".to_vec(), b"d".to_vec()]);
    // In a flow that has packets, in a new flow, and for a new destination.
    for (src, dst) in [(1, 9), (7, 9), (7, 7)] {
        let mut q = PacketQueue::new();
        fill(&mut q);
        q.push(make_packet(src, dst, b"e"), 5);
        let mut expected = before.clone();
        expected.push(b"e".to_vec());
        assert_eq!(pop_all(&mut q), expected);
    }
}

#[test]
fn readers_wait_only_while_nothing_is_queued() {
    let mut q = DeliveryQueue::new();
    assert!(q.try_pop_or_wait().is_none());
    assert!(q.try_pop_or_wait().is_none());
    // Two readers wait: two packets are handed out, the third is queued.
    assert!(q.deliver(make_packet(1, 2, b"1"), 1).is_some());
    assert!(q.deliver(make_packet(1, 2, b"2"), 2).is_some());
    assert_eq!(q.queue_size(), 0);
    assert!(q.deliver(make_packet(1, 2, b"3"), 3).is_none());
    assert!(q.queue_size() > 0);
    assert_eq!(q.try_pop_or_wait().unwrap().payload, b"3");
    assert!(q.try_pop_or_wait().is_none());
}

#[test]
fn packets_of_a_flow_leave_in_the_order_they_came() {
    let mut q = PacketQueue::new();
    q.push(make_packet(1, 9, b"a1"), 1);
    q.push(make_packet(2, 9, b"b1"), 1);
    q.push(make_packet(1, 9, b"a2"), 2);
    assert_eq!(q.pop().unwrap().payload, b"a1");
    q.push(make_packet(1, 9, b"a3"), 3);
    q.push(make_packet(2, 9, b"b2"), 4);
    let rest = pop_all(&mut q);
    let of = |c: u8| -> Vec<Vec<u8>> { rest.iter().filter(|p| p[0] == c).cloned().collect() };
    assert_eq!(of(b'a'), vec![b"a2".to_vec(), b"a3".to_vec()]);
    assert_eq!(of(b'b'), vec![b"b1".to_vec(), b"b2".to_vec()]);
}

#[test]
fn the_rest_keeps_its_order_when_one_is_dropped() {
    let fill = |q: &mut PacketQueue| {
        q.push(make_packet(1, 9, b"a1"), 1);
        q.push(make_packet(2, 8, b"b1-large"), 2);
        q.push(make_packet(1, 9, b"a2"), 3);
        q.push(make_packet(2, 8, b"b2-large"), 4);
    };
    let mut q = PacketQueue::new();
    fill(&mut q);
    let before = pop_all(&mut q);
    fill(&mut q);
    assert!(q.drop_largest());
    let after = pop_all(&mut q);
    assert_eq!(after.len(), 3);
    let dropped = before.iter().position(|p| !after.contains(p)).unwrap();
    let mut expected = before.clone();
    expected.remove(dropped);
    assert_eq!(after, expected);
    assert_eq!(before[dropped], b"b1-large");
}
