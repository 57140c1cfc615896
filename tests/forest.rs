use span_forest::forest::{FlamegraphData, TraceRequestHandler};
use span_forest::span::AmaruSpan;

const SECOND: u64 = 1_000_000_000;

fn span(id: &str, trace: &str, parent: Option<&str>, start: u64, end: u64) -> AmaruSpan {
    AmaruSpan {
        trace_id: trace.to_string(),
        span_id: id.to_string(),
        parent_id_opt: parent.map(|p| p.to_string()),
        name: format!("op-{}", id),
        start,
        end,
    }
}

fn ids(v: &[&str]) -> Vec<String> {
    v.iter().map(|s| s.to_string()).collect()
}

fn root_of(view: &FlamegraphData, id: &str) -> Option<String> {
    view.root_of(&id.to_string())
}

#[test]
fn chain_arriving_leaf_first_resolves_into_one_tree() {
    let mut h = TraceRequestHandler::new(600 * SECOND);
    h.handle_span(span("c2", "t1", Some("c1"), 20, 30));
    h.handle_span(span("c1", "t1", Some("r1"), 10, 50));
    assert_eq!(h.parent_to_orphans.len(), 2);
    assert!(h.nodes.is_empty());
    h.handle_span(span("r1", "t1", None, 0, 100));

    let view = h.flamegraph_snapshot();
    assert_eq!(view.root_ids(), ids(&["r1"]));
    assert_eq!(view.children_of(&"r1".to_string()), ids(&["c1"]));
    assert_eq!(view.children_of(&"c1".to_string()), ids(&["c2"]));
    assert!(view.children_of(&"c2".to_string()).is_empty());
    assert!(h.parent_to_orphans.is_empty());
    for id in ["r1", "c1", "c2"] {
        assert_eq!(root_of(&view, id), Some("r1".to_string()));
    }
    assert_eq!(view.roots_of_trace(&"t1".to_string()), ids(&["r1"]));
}

#[test]
fn grandchild_child_root_order_attaches_grandchild_under_root() {
    let mut h = TraceRequestHandler::new(SECOND);
    h.handle_span(span("g", "t", Some("c"), 3, 4));
    h.handle_span(span("c", "t", Some("r"), 2, 5));
    h.handle_span(span("r", "t", None, 1, 6));
    let view = h.flamegraph_snapshot();
    assert_eq!(view.children_of(&"r".to_string()), ids(&["c"]));
    assert_eq!(view.children_of(&"c".to_string()), ids(&["g"]));
    assert_eq!(root_of(&view, "g"), Some("r".to_string()));
    assert!(h.parent_to_orphans.is_empty());
}

#[test]
fn span_without_parent_is_a_root() {
    let mut h = TraceRequestHandler::new(SECOND);
    h.handle_span(span("a", "t", None, 0, 1));
    h.handle_span(span("b", "t", Some("a"), 0, 1));
    h.handle_span(span("x", "t", None, 0, 1));
    let view = h.flamegraph_snapshot();
    assert_eq!(view.root_ids(), ids(&["a", "x"]));
    assert_eq!(root_of(&view, "x"), Some("x".to_string()));
    assert_eq!(view.children_of(&"a".to_string()), ids(&["b"]));
    assert!(h.parent_to_orphans.is_empty());
}

#[test]
fn child_of_unknown_parent_waits() {
    let mut h = TraceRequestHandler::new(SECOND);
    let s = span("b", "t", Some("missing"), 0, 1);
    h.handle_span(s.clone());
    assert!(h.nodes.is_empty());
    assert_eq!(h.parent_to_orphans, vec![s]);
    assert_eq!(root_of(&h.flamegraph_snapshot(), "b"), None);
}

#[test]
fn any_arrival_order_builds_the_same_forest() {
    let spans = vec![
        span("r", "t", None, 0, 10),
        span("a", "t", Some("r"), 1, 2),
        span("b", "t", Some("r"), 3, 4),
        span("a1", "t", Some("a"), 1, 2),
        span("b1", "t", Some("b"), 3, 4),
        span("q", "u", None, 5, 6),
    ];
    let orders: Vec<Vec<usize>> = vec![
        vec![0, 1, 2, 3, 4, 5],
        vec![5, 4, 3, 2, 1, 0],
        vec![3, 4, 1, 5, 0, 2],
        vec![4, 0, 3, 2, 5, 1],
    ];
    let mut first: Option<Vec<(String, Vec<String>, Option<String>)>> = None;
    for order in orders {
        let mut h = TraceRequestHandler::new(SECOND);
        h.handle_spans(order.iter().map(|&i| spans[i].clone()).collect());
        assert!(h.parent_to_orphans.is_empty());
        let view = h.flamegraph_snapshot();
        let mut shape: Vec<(String, Vec<String>, Option<String>)> = spans
            .iter()
            .map(|s| {
                let mut kids = view.children_of(&s.span_id);
                kids.sort();
                (s.span_id.clone(), kids, view.root_of(&s.span_id))
            })
            .collect();
        shape.sort();
        match &first {
            None => first = Some(shape),
            Some(f) => assert_eq!(f, &shape),
        }
    }
}

#[test]
fn eviction_takes_every_root_of_an_expired_trace() {
    let expire = 10 * SECOND;
    let mut h = TraceRequestHandler::new(expire);
    h.handle_span(span("old", "t", None, SECOND, 2 * SECOND));
    h.handle_span(span("late", "t", None, 50 * SECOND, 51 * SECOND));
    h.handle_span(span("late-kid", "t", Some("late"), 50 * SECOND, 51 * SECOND));
    h.handle_span(span("other", "u", None, 50 * SECOND, 51 * SECOND));
    // cutoff = 45 s: only "old" started before it, but its trace holds "late" too
    h.evict_expired_at(55 * SECOND);
    let view = h.flamegraph_snapshot();
    assert_eq!(view.root_ids(), ids(&["other"]));
    assert_eq!(root_of(&view, "late-kid"), None);
    assert!(view.roots_of_trace(&"t".to_string()).is_empty());
}

#[test]
fn eviction_after_window_empties_everything() {
    let expire = 600 * SECOND;
    let t = 1_700_000_000 * SECOND;
    let mut h = TraceRequestHandler::new(expire);
    h.handle_span(span("r", "t", None, t, t + 5));
    h.handle_span(span("k", "t", Some("r"), t + 1, t + 2));
    h.evict_expired_at(t + expire + SECOND);
    assert!(h.nodes.is_empty());
    assert!(h.parent_to_orphans.is_empty());
    let view = h.flamegraph_snapshot();
    assert!(view.root_ids().is_empty());
    assert!(view.roots_of_trace(&"t".to_string()).is_empty());
    assert_eq!(root_of(&view, "r"), None);
    assert_eq!(root_of(&view, "k"), None);
}

#[test]
fn eviction_keeps_roots_started_at_or_after_cutoff() {
    let mut h = TraceRequestHandler::new(10);
    h.handle_span(span("r", "t", None, 90, 95));
    h.evict_expired_at(100);
    assert_eq!(h.flamegraph_snapshot().root_ids(), ids(&["r"]));
    h.evict_expired_at(101);
    assert!(h.nodes.is_empty());
}

#[test]
fn eviction_with_window_before_epoch_does_nothing() {
    let mut h = TraceRequestHandler::new(100);
    h.handle_span(span("r", "t", None, 0, 1));
    h.handle_span(span("o", "t", Some("nowhere"), 0, 1));
    h.evict_expired_at(99);
    assert_eq!(h.nodes.len(), 1);
    assert_eq!(h.parent_to_orphans.len(), 1);
}

#[test]
fn eviction_drops_expired_orphans_only() {
    let mut h = TraceRequestHandler::new(10);
    h.handle_span(span("o1", "t", Some("p"), 5, 6));
    h.handle_span(span("o2", "t", Some("p"), 50, 60));
    h.handle_span(span("o3", "t", Some("q"), 8, 9));
    h.evict_expired_at(30);
    let left: Vec<String> = h.parent_to_orphans.iter().map(|s| s.span_id.clone()).collect();
    assert_eq!(left, ids(&["o2"]));
}

#[test]
fn evict_with_clock_removes_old_traces() {
    let mut h = TraceRequestHandler::new(SECOND);
    h.handle_span(span("r", "t", None, 0, 1));
    h.evict_expired();
    assert!(h.nodes.is_empty());
}

#[test]
fn reingested_span_overwrites_the_earlier_one() {
    let mut h = TraceRequestHandler::new(SECOND);
    h.handle_span(span("r", "t", None, 0, 10));
    h.handle_span(span("c", "t", Some("r"), 1, 2));
    let mut again = span("c", "t", Some("r"), 1, 2);
    again.name = "renamed".to_string();
    h.handle_span(again);
    let view = h.flamegraph_snapshot();
    assert_eq!(view.children_of(&"r".to_string()), ids(&["c"]));
    assert_eq!(view.nodes.len(), 2);
    assert_eq!(view.nodes[1].span.name, "renamed");
}

#[test]
fn snapshot_twice_reads_the_same() {
    let mut h = TraceRequestHandler::new(SECOND);
    h.handle_span(span("r", "t", None, 0, 10));
    h.handle_span(span("s", "t", None, 0, 10));
    h.handle_span(span("c", "t", Some("r"), 1, 2));
    let v1 = h.flamegraph_snapshot();
    let v2 = h.flamegraph_snapshot();
    assert_eq!(v1.nodes, v2.nodes);
    assert_eq!(v1.root_ids(), v2.root_ids());
    assert_eq!(
        v1.roots_of_trace(&"t".to_string()),
        v2.roots_of_trace(&"t".to_string())
    );
    assert_eq!(v1.roots_of_trace(&"t".to_string()), ids(&["r", "s"]));
}

#[test]
fn empty_view_has_nothing() {
    let v = FlamegraphData::new();
    assert!(v.root_ids().is_empty());
    assert_eq!(v.root_of(&"x".to_string()), None);
}

#[test]
fn tree_copy_holds_only_that_tree_parents_first() {
    let mut h = TraceRequestHandler::new(SECOND);
    h.handle_span(span("k", "t", Some("r"), 1, 2));
    h.handle_span(span("r", "t", None, 0, 10));
    h.handle_span(span("s", "u", None, 0, 10));
    h.handle_span(span("g", "t", Some("k"), 1, 2));
    let view = h.flamegraph_snapshot();
    let tree: Vec<String> = view
        .tree_of(&"r".to_string())
        .iter()
        .map(|n| n.span.span_id.clone())
        .collect();
    assert_eq!(tree, ids(&["r", "k", "g"]));
    assert_eq!(view.tree_of(&"s".to_string()).len(), 1);
    assert!(view.tree_of(&"nope".to_string()).is_empty());
}

#[test]
fn resent_root_replaces_the_root_span() {
    let mut h = TraceRequestHandler::new(SECOND);
    h.handle_span(span("r", "t", None, 0, 10));
    h.handle_span(span("c", "t", Some("r"), 1, 2));
    h.handle_span(span("r", "t", None, 0, 20));
    let view = h.flamegraph_snapshot();
    assert_eq!(view.root_ids(), ids(&["r"]));
    assert_eq!(view.nodes[0].span.end, 20);
    assert_eq!(view.children_of(&"r".to_string()), ids(&["c"]));
}

#[test]
fn eviction_keeps_order_of_survivors() {
    let mut h = TraceRequestHandler::new(10);
    h.handle_span(span("a", "x", None, 50, 60));
    h.handle_span(span("old", "y", None, 1, 2));
    h.handle_span(span("b", "z", None, 40, 60));
    h.handle_span(span("a1", "x", Some("a"), 50, 60));
    h.evict_expired_at(45);
    let view = h.flamegraph_snapshot();
    assert_eq!(view.root_ids(), ids(&["a", "b"]));
    assert_eq!(view.nodes.len(), 3);
    h.evict_expired_at(45);
    assert_eq!(h.flamegraph_snapshot(), view);
}

#[test]
fn root_span_takes_over_an_id_held_by_a_child() {
    let mut h = TraceRequestHandler::new(SECOND);
    h.handle_span(span("r", "t", None, 0, 10));
    h.handle_span(span("c", "t", Some("r"), 1, 5));
    h.handle_span(span("g", "t", Some("c"), 2, 3));
    h.handle_span(span("c", "u", None, 1, 5));
    let view = h.flamegraph_snapshot();
    assert_eq!(view.root_ids(), ids(&["r", "c"]));
    assert!(view.children_of(&"r".to_string()).is_empty());
    assert_eq!(root_of(&view, "c"), Some("c".to_string()));
    assert_eq!(root_of(&view, "g"), Some("c".to_string()));
    assert_eq!(view.roots_of_trace(&"u".to_string()), ids(&["c"]));
}

#[test]
fn resent_span_moves_under_its_new_parent() {
    let mut h = TraceRequestHandler::new(SECOND);
    h.handle_span(span("a", "t", None, 0, 10));
    h.handle_span(span("b", "t", None, 0, 10));
    h.handle_span(span("c", "t", Some("a"), 1, 5));
    h.handle_span(span("g", "t", Some("c"), 2, 3));
    h.handle_span(span("c", "t", Some("b"), 1, 5));
    let view = h.flamegraph_snapshot();
    assert!(view.children_of(&"a".to_string()).is_empty());
    assert_eq!(view.children_of(&"b".to_string()), ids(&["c"]));
    assert_eq!(root_of(&view, "g"), Some("b".to_string()));
}

#[test]
fn resent_span_that_would_close_a_cycle_is_dropped() {
    let mut h = TraceRequestHandler::new(SECOND);
    h.handle_span(span("a", "t", None, 0, 10));
    h.handle_span(span("c", "t", Some("a"), 1, 5));
    h.handle_span(span("g", "t", Some("c"), 2, 3));
    h.handle_span(span("c", "t", Some("g"), 1, 5));
    let view = h.flamegraph_snapshot();
    assert_eq!(view.children_of(&"a".to_string()), ids(&["c"]));
    assert_eq!(view.children_of(&"c".to_string()), ids(&["g"]));
    assert_eq!(root_of(&view, "g"), Some("a".to_string()));
}
