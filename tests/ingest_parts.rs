use span_forest::batch::BatchProcessor;
use span_forest::queue::BoundedQueue;
use span_forest::span::{AmaruSpan, WireSpan};

fn named(id: &str, name: &str) -> AmaruSpan {
    AmaruSpan {
        trace_id: "t".to_string(),
        span_id: id.to_string(),
        parent_id_opt: None,
        name: name.to_string(),
        start: 0,
        end: 1,
    }
}

#[test]
fn wire_ids_are_hex_encoded() {
    let w = WireSpan {
        trace_id: vec![0x0a, 0xff],
        span_id: vec![0x12, 0x34, 0xab],
        parent_span_id: vec![0x00, 0x9c],
        name: "op".to_string(),
        start_time_unix_nano: 7,
        end_time_unix_nano: 9,
    };
    let s = AmaruSpan::from_wire(w);
    assert_eq!(s.trace_id, "0aff");
    assert_eq!(s.span_id, "1234ab");
    assert_eq!(s.parent_id_opt, Some("009c".to_string()));
    assert_eq!(s.name, "op");
    assert_eq!((s.start, s.end), (7, 9));
}

#[test]
fn empty_wire_parent_is_a_root() {
    let w = WireSpan {
        trace_id: vec![1],
        span_id: vec![],
        parent_span_id: vec![],
        name: String::new(),
        start_time_unix_nano: 0,
        end_time_unix_nano: 0,
    };
    let s = AmaruSpan::from_wire(w);
    assert_eq!(s.parent_id_opt, None);
    assert_eq!(s.span_id, "");
    assert_eq!(s.trace_id, "01");
}

#[test]
fn full_queue_hands_the_item_back() {
    let mut q: BoundedQueue<u32> = BoundedQueue::new(2);
    assert_eq!(q.push(1), Ok(()));
    assert_eq!(q.push(2), Ok(()));
    assert!(q.is_full());
    assert_eq!(q.push(3), Err(3));
    assert_eq!(q.len(), 2);
    assert_eq!(q.pop(), Some(1));
    assert_eq!(q.push(3), Ok(()));
    assert_eq!(q.pop(), Some(2));
    assert_eq!(q.pop(), Some(3));
    assert_eq!(q.pop(), None);
    assert_eq!(q.capacity(), 2);
}

#[test]
fn zero_capacity_queue_takes_nothing() {
    let mut q: BoundedQueue<u8> = BoundedQueue::new(0);
    assert_eq!(q.push(9), Err(9));
    assert_eq!(q.len(), 0);
}

#[test]
fn drain_empties_buffer_and_hands_back_overflow() {
    let mut b = BatchProcessor::new(4);
    b.push_batch(vec![named("a", "work"), named("b", "low_priority_event")]);
    b.push_batch(vec![named("c", "work"), named("d", "more")]);
    assert!(b.is_full(4));
    assert!(!b.is_full(5));
    let mut out: BoundedQueue<AmaruSpan> = BoundedQueue::new(2);
    let refused = b.drain_filtered_into(&mut out);
    assert!(b.buffer.is_empty());
    let back: Vec<String> = refused.iter().map(|s| s.span_id.clone()).collect();
    assert_eq!(back, vec!["d".to_string()]);
    assert_eq!(out.pop().map(|s| s.span_id), Some("a".to_string()));
    assert_eq!(out.pop().map(|s| s.span_id), Some("c".to_string()));
    assert_eq!(out.pop(), None);
    assert!(b.drain_filtered_into(&mut out).is_empty());
}
