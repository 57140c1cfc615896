//! The span forest: attaching spans to the trees of their traces whatever
//! order they arrive in, holding orphans until their parent is seen, and
//! evicting whole traces once they fall out of the expiration window.
//!
//! Every attached span is one entry of a node table that records the root of
//! its tree. The children of each node, the root of each span and the roots of
//! each trace are all read from that one table, and eviction scans its roots
//! by start time, so these indices cannot disagree with each other: a parent
//! that is known to be attached is always found.
use crate::span::AmaruSpan;
use vstd::prelude::*;

verus! {

/// An attached span and the id of the root of the tree that holds it.
#[derive(Clone, Debug, PartialEq, Eq)]
pub struct SpanNode {
    pub span: AmaruSpan,
    pub root_id: String,
}

impl SpanNode {
    /// A field-for-field copy.
    pub fn copy(&self) -> (r: SpanNode)
        ensures
            r == *self,
    {
        SpanNode { span: self.span.copy(), root_id: self.root_id.clone() }
    }
}

/// Whether `s` names `p` as its parent.
pub open spec fn parent_is(s: AmaruSpan, p: Seq<char>) -> bool {
    s.parent_id_opt matches Some(q) && q@ == p
}

/// Whether some node of the table holds the span with this id.
pub open spec fn has_id(nodes: Seq<SpanNode>, id: Seq<char>) -> bool {
    exists|i: int| 0 <= i < nodes.len() && (#[trigger] nodes[i]).span.span_id@ == id
}

/// Whether some node of the table is a root with this id.
pub open spec fn has_root(nodes: Seq<SpanNode>, id: Seq<char>) -> bool {
    exists|i: int|
        0 <= i < nodes.len() && (#[trigger] nodes[i]).span.span_id@ == id
            && nodes[i].span.parent_id_opt is None
}

/// A node is linked into the forest: a root is its own root; any other node
/// has its parent in the table, under the same root; and that root is present.
pub open spec fn linked(nodes: Seq<SpanNode>, n: SpanNode) -> bool {
    &&& match n.span.parent_id_opt {
        None => n.root_id@ == n.span.span_id@,
        Some(p) => exists|j: int|
            0 <= j < nodes.len() && (#[trigger] nodes[j]).span.span_id@ == p@ && nodes[j].root_id@
                == n.root_id@,
    }
    &&& has_root(nodes, n.root_id@)
}

/// The node's parent, if it names one, stands earlier in the table. With ids
/// held once, this rules out cycles: following parents always ends at a root.
pub open spec fn parent_before(nodes: Seq<SpanNode>, i: int) -> bool {
    match nodes[i].span.parent_id_opt {
        None => true,
        Some(p) => exists|j: int| 0 <= j < i && (#[trigger] nodes[j]).span.span_id@ == p@,
    }
}

/// The node table holds each span id once, every node is linked, and every
/// parent stands before its children.
pub open spec fn nodes_wf(nodes: Seq<SpanNode>) -> bool {
    &&& forall|i: int, j: int|
        0 <= i < nodes.len() && 0 <= j < nodes.len() && (#[trigger] nodes[i]).span.span_id@ == (
        #[trigger] nodes[j]).span.span_id@ ==> i == j
    &&& forall|i: int| 0 <= i < nodes.len() ==> linked(nodes, #[trigger] nodes[i])
    &&& forall|i: int| 0 <= i < nodes.len() ==> #[trigger] parent_before(nodes, i)
}

/// Each node of `pre` keeps its place in `post`: the same id stands at the
/// same index, and new nodes come after.
pub open spec fn kept_in_place(pre: Seq<SpanNode>, post: Seq<SpanNode>) -> bool {
    &&& post.len() >= pre.len()
    &&& forall|k: int| 0 <= k < pre.len() ==> (#[trigger] post[k]).span.span_id@ == pre[k].span.span_id@
}

/// Some node of the table holds exactly this span.
pub open spec fn holds_span(nodes: Seq<SpanNode>, s: AmaruSpan) -> bool {
    exists|j: int| 0 <= j < nodes.len() && (#[trigger] nodes[j]).span == s
}

/// Every pending span names a parent, and that parent is not attached.
pub open spec fn orphans_wf(nodes: Seq<SpanNode>, orphans: Seq<AmaruSpan>) -> bool {
    forall|k: int|
        0 <= k < orphans.len() ==> ((#[trigger] orphans[k]).parent_id_opt matches Some(p)
            && !has_id(nodes, p@))
}

/// Whether two optional parent ids name the same parent.
pub open spec fn same_parent(a: Option<String>, b: Option<String>) -> bool {
    match (a, b) {
        (None, None) => true,
        (Some(x), Some(y)) => x@ == y@,
        _ => false,
    }
}

fn parents_match(a: &Option<String>, b: &Option<String>) -> (r: bool)
    ensures
        r == same_parent(*a, *b),
{
    match (a, b) {
        (None, None) => true,
        (Some(x), Some(y)) => *x == *y,
        _ => false,
    }
}

/// A node stays linked when another node is appended to the table.
proof fn lemma_linked_push(nodes: Seq<SpanNode>, n: SpanNode, x: SpanNode)
    requires
        linked(nodes, x),
    ensures
        linked(nodes.push(n), x),
{
    let big = nodes.push(n);
    if let Some(p) = x.span.parent_id_opt {
        let j = choose|j: int|
            0 <= j < nodes.len() && (#[trigger] nodes[j]).span.span_id@ == p@ && nodes[j].root_id@
                == x.root_id@;
        assert(big[j] == nodes[j]);
    }
    let k = choose|k: int|
        0 <= k < nodes.len() && (#[trigger] nodes[k]).span.span_id@ == x.root_id@
            && nodes[k].span.parent_id_opt is None;
    assert(big[k] == nodes[k]);
}

/// Replacing a node by one with the same id, root and parent keeps the table
/// well formed and attached to the same ids.
proof fn lemma_replace_same_shape(nodes: Seq<SpanNode>, i: int, n: SpanNode)
    requires
        nodes_wf(nodes),
        0 <= i < nodes.len(),
        n.span.span_id@ == nodes[i].span.span_id@,
        n.root_id@ == nodes[i].root_id@,
        same_parent(n.span.parent_id_opt, nodes[i].span.parent_id_opt),
    ensures
        nodes_wf(nodes.update(i, n)),
        forall|id: Seq<char>| has_id(nodes, id) <==> has_id(nodes.update(i, n), id),
{
    let big = nodes.update(i, n);
    assert forall|k: int| 0 <= k < big.len() implies linked(big, #[trigger] big[k]) by {
        assert(linked(nodes, nodes[k]));
        if let Some(p) = big[k].span.parent_id_opt {
            let j = choose|j: int|
                0 <= j < nodes.len() && (#[trigger] nodes[j]).span.span_id@ == p@
                    && nodes[j].root_id@ == big[k].root_id@;
            assert(big[j].span.span_id@ == p@);
        }
        let r = choose|r: int|
            0 <= r < nodes.len() && (#[trigger] nodes[r]).span.span_id@ == big[k].root_id@
                && nodes[r].span.parent_id_opt is None;
        assert(big[r].span.span_id@ == big[k].root_id@);
    }
    assert forall|k: int| 0 <= k < big.len() implies #[trigger] parent_before(big, k) by {
        assert(parent_before(nodes, k));
        if big[k].span.parent_id_opt is Some {
            let p = big[k].span.parent_id_opt->Some_0;
            let j = choose|j: int| 0 <= j < k && (#[trigger] nodes[j]).span.span_id@ == p@;
            assert(big[j].span.span_id@ == p@);
        }
    }
    assert forall|id: Seq<char>| has_id(nodes, id) <==> has_id(big, id) by {
        if has_id(nodes, id) {
            let j = choose|j: int| 0 <= j < nodes.len() && (#[trigger] nodes[j]).span.span_id@ == id;
            assert(big[j].span.span_id@ == id);
        }
        if has_id(big, id) {
            let j = choose|j: int| 0 <= j < big.len() && (#[trigger] big[j]).span.span_id@ == id;
            assert(nodes[j].span.span_id@ == id);
        }
    }
}

/// What one call of `handle_span` does, from the state `pre` to the state `post`.
pub open spec fn ingest_step(pre: TraceRequestHandler, span: AmaruSpan, post: TraceRequestHandler) -> bool {
    &&& post.wf()
    &&& post.expire_duration == pre.expire_duration
    // attached ids stay attached, each at its index; new nodes are appended
    &&& forall|id: Seq<char>| has_id(pre.nodes@, id) ==> #[trigger] has_id(post.nodes@, id)
    &&& post.nodes@.len() >= pre.nodes@.len()
    &&& kept_in_place(pre.nodes@, post.nodes@)
    // only the node with the span's id, and its subtree, may change
    &&& forall|k: int|
        0 <= k < pre.nodes@.len() && !in_subtree(pre.nodes@, span.span_id@, k) ==> #[trigger] post.nodes@[k]
            == pre.nodes@[k]
    // the last write wins: a span sent again under the same parent replaces the stored one
    &&& forall|k: int|
        0 <= k < pre.nodes@.len() && pre.nodes@[k].span.span_id@ == span.span_id@ && same_parent(
            pre.nodes@[k].span.parent_id_opt,
            span.parent_id_opt,
        ) ==> (#[trigger] post.nodes@[k]).span == span
    // a span without a parent is filed as a root, taking over its id
    &&& span.parent_id_opt is None ==> {
        &&& has_id(post.nodes@, span.span_id@)
        &&& post.nodes@[index_of(post.nodes@, span.span_id@)].span == span
        &&& root_of(post.nodes@, span.span_id@) == Some(span.span_id@)
    }
    // a span whose parent is attached joins it, unless its id is held by a node
    // that stands before that parent (it would close a cycle)
    &&& (span.parent_id_opt matches Some(p) && has_id(pre.nodes@, p@) && (!has_id(
        pre.nodes@,
        span.span_id@,
    ) || index_of(pre.nodes@, p@) < index_of(pre.nodes@, span.span_id@))) ==> has_id(
        post.nodes@,
        span.span_id@,
    ) && post.nodes@[index_of(post.nodes@, span.span_id@)].span == span
    // every node holds an earlier node's span, the new span, or a span that was pending
    &&& forall|k: int|
        0 <= k < post.nodes@.len() ==> holds_span(pre.nodes@, (#[trigger] post.nodes@[k]).span)
            || post.nodes@[k].span == span || pre.parent_to_orphans@.contains(post.nodes@[k].span)
    // every pending span was pending before, or is the new span
    &&& forall|k: int|
        0 <= k < post.parent_to_orphans@.len() ==> pre.parent_to_orphans@.contains(
            #[trigger] post.parent_to_orphans@[k],
        ) || post.parent_to_orphans@[k] == span
    // nothing is lost: every span that was pending, and the new span, is pending or attached
    &&& forall|k: int|
        0 <= k < pre.parent_to_orphans@.len() ==> post.parent_to_orphans@.contains(
            #[trigger] pre.parent_to_orphans@[k],
        ) || has_id(post.nodes@, pre.parent_to_orphans@[k].span_id@)
    &&& post.parent_to_orphans@.contains(span) || has_id(post.nodes@, span.span_id@)
    // a span whose parent is not attached waits, and nothing else changes
    &&& (span.parent_id_opt matches Some(p) && !has_id(pre.nodes@, p@)) ==> post.nodes@
        == pre.nodes@ && post.parent_to_orphans@ == pre.parent_to_orphans@.push(span)
    // a root, or a span whose parent is attached, is attached
    &&& (span.parent_id_opt matches Some(p) ==> has_id(pre.nodes@, p@)) ==> has_id(
        post.nodes@,
        span.span_id@,
    )
    // a span with a new id that can attach gets a node of its own at the end
    &&& ((span.parent_id_opt matches Some(p) ==> has_id(pre.nodes@, p@)) && !has_id(
        pre.nodes@,
        span.span_id@,
    )) ==> post.nodes@.len() > pre.nodes@.len() && post.nodes@[pre.nodes@.len() as int].span == span
}

/// `states` runs from `pre` to `post` by one `handle_span` step per span, in order.
pub open spec fn ingest_chain(
    pre: TraceRequestHandler,
    spans: Seq<AmaruSpan>,
    states: Seq<TraceRequestHandler>,
    post: TraceRequestHandler,
) -> bool {
    &&& states.len() == spans.len() + 1
    &&& states[0] == pre
    &&& states[spans.len() as int] == post
    &&& forall|i: int| 0 <= i < spans.len() ==> ingest_step(#[trigger] states[i], spans[i], states[i + 1])
}

/// What one call of `handle_spans` does, from the state `pre` to the state
/// `post`: the same as `handle_span` on each span in turn. So attached nodes
/// keep their place, each span is attached (its id is) or pending, and every
/// node and every pending span comes from what was there before or from the batch.
pub open spec fn ingest_all_step(pre: TraceRequestHandler, spans: Seq<AmaruSpan>, post: TraceRequestHandler) -> bool {
    &&& exists|states: Seq<TraceRequestHandler>| ingest_chain(pre, spans, states, post)
    &&& post.wf()
    &&& post.expire_duration == pre.expire_duration
    &&& kept_in_place(pre.nodes@, post.nodes@)
    &&& forall|id: Seq<char>| has_id(pre.nodes@, id) ==> #[trigger] has_id(post.nodes@, id)
    &&& forall|k: int|
        0 <= k < spans.len() ==> post.parent_to_orphans@.contains(#[trigger] spans[k]) || has_id(
            post.nodes@,
            spans[k].span_id@,
        )
    &&& forall|k: int|
        0 <= k < post.nodes@.len() ==> holds_span(pre.nodes@, (#[trigger] post.nodes@[k]).span)
            || pre.parent_to_orphans@.contains(post.nodes@[k].span) || spans.contains(post.nodes@[k].span)
    &&& forall|k: int|
        0 <= k < post.parent_to_orphans@.len() ==> pre.parent_to_orphans@.contains(
            #[trigger] post.parent_to_orphans@[k],
        ) || spans.contains(post.parent_to_orphans@[k])
    &&& forall|k: int|
        0 <= k < pre.parent_to_orphans@.len() ==> post.parent_to_orphans@.contains(
            #[trigger] pre.parent_to_orphans@[k],
        ) || has_id(post.nodes@, pre.parent_to_orphans@[k].span_id@)
}

/// Calling `handle_span` on each span in turn does what one call of
/// `handle_spans` on the whole batch does.
pub proof fn lemma_chain_gives_batch(
    pre: TraceRequestHandler,
    spans: Seq<AmaruSpan>,
    states: Seq<TraceRequestHandler>,
    post: TraceRequestHandler,
)
    requires
        pre.wf(),
        ingest_chain(pre, spans, states, post),
    ensures
        ingest_all_step(pre, spans, post),
    decreases spans.len(),
{
    if spans.len() == 0 {
        assert(post == pre);
        assert forall|k: int| 0 <= k < post.nodes@.len() implies holds_span(
            pre.nodes@,
            (#[trigger] post.nodes@[k]).span,
        ) || pre.parent_to_orphans@.contains(post.nodes@[k].span) || spans.contains(post.nodes@[k].span) by {
            assert(pre.nodes@[k] == post.nodes@[k]);
        }
        assert forall|k: int| 0 <= k < post.parent_to_orphans@.len() implies pre.parent_to_orphans@.contains(
            #[trigger] post.parent_to_orphans@[k],
        ) || spans.contains(post.parent_to_orphans@[k]) by {
            assert(pre.parent_to_orphans@[k] == post.parent_to_orphans@[k]);
        }
        assert forall|k: int| 0 <= k < pre.parent_to_orphans@.len() implies post.parent_to_orphans@.contains(
            #[trigger] pre.parent_to_orphans@[k],
        ) || has_id(post.nodes@, pre.parent_to_orphans@[k].span_id@) by {
            assert(pre.parent_to_orphans@[k] == post.parent_to_orphans@[k]);
        }
    } else {
        let n = spans.len() - 1;
        let mid = states[n];
        let first = spans.drop_last();
        let st = states.drop_last();
        assert forall|i: int| 0 <= i < first.len() implies ingest_step(
            #[trigger] st[i],
            first[i],
            st[i + 1],
        ) by {
            assert(ingest_step(states[i], spans[i], states[i + 1]));
        }
        assert(ingest_chain(pre, first, st, mid));
        lemma_chain_gives_batch(pre, first, st, mid);
        assert(ingest_step(states[n], spans[n], states[n + 1]));
        let span = spans[n];
        lemma_kept_in_place_trans(pre.nodes@, mid.nodes@, post.nodes@);
        assert(spans.contains(span));
        assert forall|k: int| 0 <= k < spans.len() implies post.parent_to_orphans@.contains(
            #[trigger] spans[k],
        ) || has_id(post.nodes@, spans[k].span_id@) by {
            if k < n {
                assert(first[k] == spans[k]);
                if mid.parent_to_orphans@.contains(spans[k]) {
                    let m = choose|m: int|
                        0 <= m < mid.parent_to_orphans@.len() && mid.parent_to_orphans@[m] == spans[k];
                    assert(mid.parent_to_orphans@[m] == spans[k]);
                }
            }
        }
        assert forall|k: int| 0 <= k < post.nodes@.len() implies holds_span(
            pre.nodes@,
            (#[trigger] post.nodes@[k]).span,
        ) || pre.parent_to_orphans@.contains(post.nodes@[k].span) || spans.contains(post.nodes@[k].span) by {
            let x = post.nodes@[k];
            if holds_span(mid.nodes@, x.span) {
                let m = choose|m: int| 0 <= m < mid.nodes@.len() && (#[trigger] mid.nodes@[m]).span == x.span;
                assert(holds_span(pre.nodes@, mid.nodes@[m].span) || pre.parent_to_orphans@.contains(
                    mid.nodes@[m].span) || first.contains(mid.nodes@[m].span));
                if first.contains(x.span) {
                    let j = choose|j: int| 0 <= j < first.len() && first[j] == x.span;
                    assert(spans[j] == x.span);
                }
            } else if mid.parent_to_orphans@.contains(x.span) {
                let m = choose|m: int|
                    0 <= m < mid.parent_to_orphans@.len() && mid.parent_to_orphans@[m] == x.span;
                assert(mid.parent_to_orphans@[m] == x.span);
                if first.contains(x.span) {
                    let j = choose|j: int| 0 <= j < first.len() && first[j] == x.span;
                    assert(spans[j] == x.span);
                }
            }
        }
        assert forall|k: int| 0 <= k < post.parent_to_orphans@.len() implies pre.parent_to_orphans@.contains(
            #[trigger] post.parent_to_orphans@[k],
        ) || spans.contains(post.parent_to_orphans@[k]) by {
            let o = post.parent_to_orphans@[k];
            if mid.parent_to_orphans@.contains(o) {
                let m = choose|m: int| 0 <= m < mid.parent_to_orphans@.len() && mid.parent_to_orphans@[m] == o;
                assert(mid.parent_to_orphans@[m] == o);
                if first.contains(o) {
                    let j = choose|j: int| 0 <= j < first.len() && first[j] == o;
                    assert(spans[j] == o);
                }
            }
        }
        assert forall|k: int| 0 <= k < pre.parent_to_orphans@.len() implies post.parent_to_orphans@.contains(
            #[trigger] pre.parent_to_orphans@[k],
        ) || has_id(post.nodes@, pre.parent_to_orphans@[k].span_id@) by {
            let o = pre.parent_to_orphans@[k];
            if mid.parent_to_orphans@.contains(o) {
                let m = choose|m: int| 0 <= m < mid.parent_to_orphans@.len() && mid.parent_to_orphans@[m] == o;
                assert(mid.parent_to_orphans@[m] == o);
            }
        }
        assert(ingest_chain(pre, spans, states, post));
    }
}

/// Some root of the trace started strictly before the cutoff.
pub open spec fn trace_expired(nodes: Seq<SpanNode>, trace_id: Seq<char>, cutoff: int) -> bool {
    exists|k: int|
        0 <= k < nodes.len() && (#[trigger] nodes[k]).span.parent_id_opt is None
            && nodes[k].span.trace_id@ == trace_id && nodes[k].span.start < cutoff
}

/// The root with this id belongs to an expired trace: its whole tree goes.
pub open spec fn root_evicted(nodes: Seq<SpanNode>, root_id: Seq<char>, cutoff: int) -> bool {
    exists|k: int|
        0 <= k < nodes.len() && (#[trigger] nodes[k]).span.parent_id_opt is None
            && nodes[k].span.span_id@ == root_id && trace_expired(nodes, nodes[k].span.trace_id@, cutoff)
}

/// The nodes of `nodes` whose tree survives an eviction of the table `all` at
/// the cutoff, in table order.
pub open spec fn surviving_nodes(nodes: Seq<SpanNode>, all: Seq<SpanNode>, cutoff: int) -> Seq<SpanNode>
    decreases nodes.len(),
{
    if nodes.len() == 0 {
        Seq::empty()
    } else {
        let rest = surviving_nodes(nodes.drop_last(), all, cutoff);
        if root_evicted(all, nodes.last().root_id@, cutoff) {
            rest
        } else {
            rest.push(nodes.last())
        }
    }
}

/// The pending spans that started at or after the cutoff, in arrival order.
pub open spec fn surviving_orphans(orphans: Seq<AmaruSpan>, cutoff: int) -> Seq<AmaruSpan>
    decreases orphans.len(),
{
    if orphans.len() == 0 {
        Seq::empty()
    } else {
        let rest = surviving_orphans(orphans.drop_last(), cutoff);
        if orphans.last().start >= cutoff {
            rest.push(orphans.last())
        } else {
            rest
        }
    }
}

/// What one eviction at time `now` does, from the state `pre` to the state `post`:
/// with cutoff `now - expire_duration`, every tree of a trace that has a root
/// started before the cutoff goes, and every pending span started before the
/// cutoff goes. Where the window reaches back before the epoch nothing changes.
pub open spec fn evict_step(pre: TraceRequestHandler, now: u64, post: TraceRequestHandler) -> bool {
    &&& post.wf()
    &&& post.expire_duration == pre.expire_duration
    &&& if now < pre.expire_duration {
        post.nodes@ == pre.nodes@ && post.parent_to_orphans@ == pre.parent_to_orphans@
    } else {
        let cutoff = now - pre.expire_duration;
        &&& post.nodes@ == surviving_nodes(pre.nodes@, pre.nodes@, cutoff)
        &&& post.parent_to_orphans@ == surviving_orphans(pre.parent_to_orphans@, cutoff)
        &&& forall|k: int|
            0 <= k < post.nodes@.len() ==> pre.nodes@.contains(#[trigger] post.nodes@[k])
                && !root_evicted(pre.nodes@, post.nodes@[k].root_id@, cutoff)
        &&& forall|k: int|
            0 <= k < pre.nodes@.len() && !root_evicted(pre.nodes@, pre.nodes@[k].root_id@, cutoff)
                ==> post.nodes@.contains(#[trigger] pre.nodes@[k])
        &&& forall|k: int|
            0 <= k < post.parent_to_orphans@.len() ==> pre.parent_to_orphans@.contains(
                #[trigger] post.parent_to_orphans@[k],
            ) && post.parent_to_orphans@[k].start >= cutoff
        &&& forall|k: int|
            0 <= k < pre.parent_to_orphans@.len() && pre.parent_to_orphans@[k].start >= cutoff
                ==> post.parent_to_orphans@.contains(#[trigger] pre.parent_to_orphans@[k])
    }
}

fn contains_id(ids: &Vec<String>, id: &String) -> (r: bool)
    ensures
        r == exists|m: int| 0 <= m < ids@.len() && (#[trigger] ids@[m])@ == id@,
{
    let mut i: usize = 0;
    while i < ids.len()
        invariant
            i <= ids@.len(),
            forall|m: int| 0 <= m < i ==> (#[trigger] ids@[m])@ != id@,
        decreases ids@.len() - i,
    {
        if ids[i] == *id {
            return true;
        }
        i += 1;
    }
    false
}

/// Keeping exactly the nodes whose tree is not evicted, in order, keeps the
/// table well formed.
proof fn lemma_filtered_wf(pre: Seq<SpanNode>, kept: Seq<SpanNode>, idx: Seq<int>, cutoff: int)
    requires
        nodes_wf(pre),
        idx.len() == kept.len(),
        forall|m: int| 0 <= m < idx.len() ==> 0 <= #[trigger] idx[m] < pre.len() && kept[m] == pre[idx[m]],
        forall|a: int, b: int| 0 <= a < b < idx.len() ==> #[trigger] idx[a] < #[trigger] idx[b],
        forall|m: int| 0 <= m < kept.len() ==> !root_evicted(pre, (#[trigger] kept[m]).root_id@, cutoff),
        forall|k: int|
            0 <= k < pre.len() && !root_evicted(pre, pre[k].root_id@, cutoff) ==> exists|m: int|
                0 <= m < idx.len() && #[trigger] idx[m] == k,
    ensures
        nodes_wf(kept),
        forall|m: int| 0 <= m < kept.len() ==> pre.contains(#[trigger] kept[m]),
        forall|k: int|
            0 <= k < pre.len() && !root_evicted(pre, pre[k].root_id@, cutoff) ==> kept.contains(
                #[trigger] pre[k],
            ),
{
    assert forall|m: int| 0 <= m < kept.len() implies pre.contains(#[trigger] kept[m]) by {
        assert(kept[m] == pre[idx[m]]);
    }
    assert forall|k: int|
        0 <= k < pre.len() && !root_evicted(pre, pre[k].root_id@, cutoff) implies kept.contains(
            #[trigger] pre[k],
        ) by {
        let m = choose|m: int| 0 <= m < idx.len() && #[trigger] idx[m] == k;
        assert(kept[m] == pre[k]);
    }
    assert forall|a: int, b: int|
        0 <= a < kept.len() && 0 <= b < kept.len() && (#[trigger] kept[a]).span.span_id@ == (
        #[trigger] kept[b]).span.span_id@ implies a == b by {
        assert(kept[a] == pre[idx[a]]);
        assert(kept[b] == pre[idx[b]]);
        if a < b {
            assert(idx[a] < idx[b]);
        } else if b < a {
            assert(idx[b] < idx[a]);
        }
    }
    assert forall|m: int| 0 <= m < kept.len() implies linked(kept, #[trigger] kept[m])
        && parent_before(kept, m) by {
        let n = kept[m];
        let z = idx[m];
        assert(kept[m] == pre[z]);
        assert(linked(pre, pre[z]));
        assert(parent_before(pre, z));
        if n.span.parent_id_opt is Some {
            let p = n.span.parent_id_opt->Some_0;
            let j = choose|j: int|
                0 <= j < pre.len() && (#[trigger] pre[j]).span.span_id@ == p@ && pre[j].root_id@
                    == n.root_id@;
            let jb = choose|jb: int| 0 <= jb < z && (#[trigger] pre[jb]).span.span_id@ == p@;
            assert(jb == j);
            let jj = choose|jj: int| 0 <= jj < idx.len() && #[trigger] idx[jj] == j;
            assert(kept[jj] == pre[j]);
            assert(kept[jj].span.span_id@ == p@);
            if jj >= m {
                if jj > m {
                    assert(idx[m] < idx[jj]);
                }
            }
            assert(jj < m);
        }
        let r = choose|r: int|
            0 <= r < pre.len() && (#[trigger] pre[r]).span.span_id@ == n.root_id@
                && pre[r].span.parent_id_opt is None;
        assert(linked(pre, pre[r]));
        let rr = choose|rr: int| 0 <= rr < idx.len() && #[trigger] idx[rr] == r;
        assert(kept[rr] == pre[r]);
        assert(kept[rr].span.span_id@ == n.root_id@);
    }
}

/// Ids of the nodes whose span names `parent` as its parent, in table order.
pub open spec fn child_ids(nodes: Seq<SpanNode>, parent: Seq<char>) -> Seq<Seq<char>>
    decreases nodes.len(),
{
    if nodes.len() == 0 {
        Seq::empty()
    } else {
        let rest = child_ids(nodes.drop_last(), parent);
        if parent_is(nodes.last().span, parent) {
            rest.push(nodes.last().span.span_id@)
        } else {
            rest
        }
    }
}

/// Ids of the roots of the trace, in table order.
pub open spec fn trace_root_ids(nodes: Seq<SpanNode>, trace_id: Seq<char>) -> Seq<Seq<char>>
    decreases nodes.len(),
{
    if nodes.len() == 0 {
        Seq::empty()
    } else {
        let rest = trace_root_ids(nodes.drop_last(), trace_id);
        let n = nodes.last();
        if n.span.parent_id_opt is None && n.span.trace_id@ == trace_id {
            rest.push(n.span.span_id@)
        } else {
            rest
        }
    }
}

/// Ids of all roots, in table order.
pub open spec fn root_ids(nodes: Seq<SpanNode>) -> Seq<Seq<char>>
    decreases nodes.len(),
{
    if nodes.len() == 0 {
        Seq::empty()
    } else {
        let rest = root_ids(nodes.drop_last());
        if nodes.last().span.parent_id_opt is None {
            rest.push(nodes.last().span.span_id@)
        } else {
            rest
        }
    }
}

/// The nodes of the tree with this root, in table order.
pub open spec fn tree_nodes(nodes: Seq<SpanNode>, root_id: Seq<char>) -> Seq<SpanNode>
    decreases nodes.len(),
{
    if nodes.len() == 0 {
        Seq::empty()
    } else {
        let rest = tree_nodes(nodes.drop_last(), root_id);
        if nodes.last().root_id@ == root_id {
            rest.push(nodes.last())
        } else {
            rest
        }
    }
}

/// The views of a sequence of strings.
pub open spec fn views(v: Seq<String>) -> Seq<Seq<char>> {
    v.map_values(|s: String| s@)
}

/// The root of the tree that holds the span with this id, if it is attached.
pub open spec fn root_of(nodes: Seq<SpanNode>, span_id: Seq<char>) -> Option<Seq<char>> {
    if has_id(nodes, span_id) {
        Some(
            nodes[choose|i: int| 0 <= i < nodes.len() && (#[trigger] nodes[i]).span.span_id@ == span_id].root_id@,
        )
    } else {
        None
    }
}

/// A read-only view of the forest, taken after a batch of spans: every attached
/// span with the root of its tree. The trees of each root, the roots of each
/// trace and each span's root are read from it. A view is a frozen copy of the
/// node table: spans attached after it was taken do not show through it.
#[derive(Clone, Debug, PartialEq, Eq)]
pub struct FlamegraphData {
    pub nodes: Vec<SpanNode>,
}

fn copy_nodes(nodes: &Vec<SpanNode>) -> (r: Vec<SpanNode>)
    ensures
        r@ == nodes@,
{
    let mut r: Vec<SpanNode> = Vec::new();
    let mut i: usize = 0;
    while i < nodes.len()
        invariant
            i <= nodes@.len(),
            r@ == nodes@.subrange(0, i as int),
        decreases nodes@.len() - i,
    {
        r.push(nodes[i].copy());
        proof {
            assert(r@ =~= nodes@.subrange(0, i + 1));
        }
        i += 1;
    }
    assert(r@ =~= nodes@);
    r
}

impl FlamegraphData {
    /// An empty view.
    pub fn new() -> (r: FlamegraphData)
        ensures
            r.nodes@.len() == 0,
    {
        FlamegraphData { nodes: Vec::new() }
    }

    /// Ids of the attached children of a span, in the order they were attached.
    pub fn children_of(&self, span_id: &String) -> (r: Vec<String>)
        ensures
            views(r@) == child_ids(self.nodes@, span_id@),
    {
        let mut r: Vec<String> = Vec::new();
        let mut i: usize = 0;
        while i < self.nodes.len()
            invariant
                i <= self.nodes@.len(),
                views(r@) == child_ids(self.nodes@.subrange(0, i as int), span_id@),
            decreases self.nodes@.len() - i,
        {
            let is_child = match &self.nodes[i].span.parent_id_opt {
                Some(p) => *p == *span_id,
                None => false,
            };
            if is_child {
                r.push(self.nodes[i].span.span_id.clone());
            }
            proof {
                assert(self.nodes@.subrange(0, i + 1).drop_last() =~= self.nodes@.subrange(0, i as int));
                assert(views(r@) =~= child_ids(self.nodes@.subrange(0, i + 1), span_id@));
            }
            i += 1;
        }
        assert(self.nodes@.subrange(0, self.nodes@.len() as int) =~= self.nodes@);
        r
    }

    /// A deep copy of the tree with this root: its nodes, in table order, so
    /// that each parent comes before its children.
    pub fn tree_of(&self, root_id: &String) -> (r: Vec<SpanNode>)
        ensures
            r@ == tree_nodes(self.nodes@, root_id@),
    {
        let mut r: Vec<SpanNode> = Vec::new();
        let mut i: usize = 0;
        while i < self.nodes.len()
            invariant
                i <= self.nodes@.len(),
                r@ == tree_nodes(self.nodes@.subrange(0, i as int), root_id@),
            decreases self.nodes@.len() - i,
        {
            if self.nodes[i].root_id == *root_id {
                r.push(self.nodes[i].copy());
            }
            proof {
                assert(self.nodes@.subrange(0, i + 1).drop_last() =~= self.nodes@.subrange(0, i as int));
            }
            i += 1;
        }
        assert(self.nodes@.subrange(0, self.nodes@.len() as int) =~= self.nodes@);
        r
    }

    /// Ids of the roots of a trace, in the order they were attached.
    pub fn roots_of_trace(&self, trace_id: &String) -> (r: Vec<String>)
        ensures
            views(r@) == trace_root_ids(self.nodes@, trace_id@),
    {
        let mut r: Vec<String> = Vec::new();
        let mut i: usize = 0;
        while i < self.nodes.len()
            invariant
                i <= self.nodes@.len(),
                views(r@) == trace_root_ids(self.nodes@.subrange(0, i as int), trace_id@),
            decreases self.nodes@.len() - i,
        {
            let n = &self.nodes[i];
            if n.span.parent_id_opt.is_none() && n.span.trace_id == *trace_id {
                r.push(n.span.span_id.clone());
            }
            proof {
                assert(self.nodes@.subrange(0, i + 1).drop_last() =~= self.nodes@.subrange(0, i as int));
                assert(views(r@) =~= trace_root_ids(self.nodes@.subrange(0, i + 1), trace_id@));
            }
            i += 1;
        }
        assert(self.nodes@.subrange(0, self.nodes@.len() as int) =~= self.nodes@);
        r
    }

    /// Ids of all roots, in the order they were attached.
    pub fn root_ids(&self) -> (r: Vec<String>)
        ensures
            views(r@) == root_ids(self.nodes@),
    {
        let mut r: Vec<String> = Vec::new();
        let mut i: usize = 0;
        while i < self.nodes.len()
            invariant
                i <= self.nodes@.len(),
                views(r@) == root_ids(self.nodes@.subrange(0, i as int)),
            decreases self.nodes@.len() - i,
        {
            if self.nodes[i].span.parent_id_opt.is_none() {
                r.push(self.nodes[i].span.span_id.clone());
            }
            proof {
                assert(self.nodes@.subrange(0, i + 1).drop_last() =~= self.nodes@.subrange(0, i as int));
                assert(views(r@) =~= root_ids(self.nodes@.subrange(0, i + 1)));
            }
            i += 1;
        }
        assert(self.nodes@.subrange(0, self.nodes@.len() as int) =~= self.nodes@);
        r
    }

    /// The root of the tree that holds the span with this id, if it is attached.
    pub fn root_of(&self, span_id: &String) -> (r: Option<String>)
        requires
            nodes_wf(self.nodes@),
        ensures
            match r {
                Some(x) => root_of(self.nodes@, span_id@) == Some(x@),
                None => root_of(self.nodes@, span_id@) is None,
            },
    {
        let mut i: usize = 0;
        while i < self.nodes.len()
            invariant
                nodes_wf(self.nodes@),
                i <= self.nodes@.len(),
                forall|k: int| 0 <= k < i ==> (#[trigger] self.nodes@[k]).span.span_id@ != span_id@,
            decreases self.nodes@.len() - i,
        {
            if self.nodes[i].span.span_id == *span_id {
                proof {
                    assert(self.nodes@[i as int].span.span_id@ == span_id@);
                    assert(has_id(self.nodes@, span_id@));
                    let c = choose|c: int|
                        0 <= c < self.nodes@.len() && (#[trigger] self.nodes@[c]).span.span_id@ == span_id@;
                    assert(c == i);
                }
                return Some(self.nodes[i].root_id.clone());
            }
            i += 1;
        }
        None
    }
}

/// Relies on std::time::SystemTime::now: the wall-clock time, read as
/// nanoseconds since the Unix epoch (zero before the epoch).
#[verifier::external_body]
fn now_unix_nanos() -> (r: u64) {
    match std::time::SystemTime::now().duration_since(std::time::UNIX_EPOCH) {
        Ok(d) => d.as_nanos() as u64,
        Err(_) => 0,
    }
}

proof fn lemma_kept_in_place_trans(a: Seq<SpanNode>, b: Seq<SpanNode>, c: Seq<SpanNode>)
    requires
        kept_in_place(a, b),
        kept_in_place(b, c),
    ensures
        kept_in_place(a, c),
{
    assert forall|k: int| 0 <= k < a.len() implies (#[trigger] c[k]).span.span_id@ == a[k].span.span_id@ by {
        assert(b[k].span.span_id@ == a[k].span.span_id@);
    }
}

/// The index of the node that holds the span with this id.
pub open spec fn index_of(nodes: Seq<SpanNode>, id: Seq<char>) -> int {
    choose|i: int| 0 <= i < nodes.len() && (#[trigger] nodes[i]).span.span_id@ == id
}

/// The node at index `k` is the node with id `x` or one of its descendants.
pub open spec fn in_subtree(nodes: Seq<SpanNode>, x: Seq<char>, k: int) -> bool
    decreases k,
{
    if k < 0 || k >= nodes.len() {
        false
    } else if nodes[k].span.span_id@ == x {
        true
    } else {
        match nodes[k].span.parent_id_opt {
            None => false,
            Some(p) => {
                let j = index_of(nodes, p@);
                if has_id(nodes, p@) && 0 <= j < k {
                    in_subtree(nodes, x, j)
                } else {
                    false
                }
            },
        }
    }
}

/// In a well-formed table, a node's parent is found at the parent's index,
/// which comes earlier, under the same root.
proof fn lemma_parent_index(nodes: Seq<SpanNode>, k: int)
    requires
        nodes_wf(nodes),
        0 <= k < nodes.len(),
        nodes[k].span.parent_id_opt is Some,
    ensures
        ({
            let p = nodes[k].span.parent_id_opt->Some_0;
            let j = index_of(nodes, p@);
            &&& has_id(nodes, p@)
            &&& 0 <= j < k
            &&& nodes[j].span.span_id@ == p@
            &&& nodes[j].root_id@ == nodes[k].root_id@
        }),
{
    let p = nodes[k].span.parent_id_opt->Some_0;
    assert(linked(nodes, nodes[k]));
    assert(parent_before(nodes, k));
    let jb = choose|jb: int| 0 <= jb < k && (#[trigger] nodes[jb]).span.span_id@ == p@;
    let jr = choose|jr: int|
        0 <= jr < nodes.len() && (#[trigger] nodes[jr]).span.span_id@ == p@ && nodes[jr].root_id@
            == nodes[k].root_id@;
    assert(has_id(nodes, p@));
    let j = index_of(nodes, p@);
    assert(j == jb);
    assert(j == jr);
}

/// A descendant of the node at `i` stands at or after `i`.
proof fn lemma_subtree_after(nodes: Seq<SpanNode>, i: int, k: int)
    requires
        nodes_wf(nodes),
        0 <= i < nodes.len(),
        in_subtree(nodes, nodes[i].span.span_id@, k),
    ensures
        i <= k,
    decreases k,
{
    if nodes[k].span.span_id@ != nodes[i].span.span_id@ {
        let p = nodes[k].span.parent_id_opt->Some_0;
        lemma_subtree_after(nodes, i, index_of(nodes, p@));
    }
}

/// Every node under the root at `i` is a descendant of it.
proof fn lemma_tree_is_subtree(nodes: Seq<SpanNode>, i: int, k: int)
    requires
        nodes_wf(nodes),
        0 <= i < nodes.len(),
        nodes[i].span.parent_id_opt is None,
        0 <= k < nodes.len(),
        nodes[k].root_id@ == nodes[i].span.span_id@,
    ensures
        in_subtree(nodes, nodes[i].span.span_id@, k),
    decreases k,
{
    assert(linked(nodes, nodes[k]));
    if nodes[k].span.parent_id_opt is None {
        assert(nodes[k].span.span_id@ == nodes[i].span.span_id@);
    } else {
        lemma_parent_index(nodes, k);
        let p = nodes[k].span.parent_id_opt->Some_0;
        lemma_tree_is_subtree(nodes, i, index_of(nodes, p@));
    }
}

/// Giving the node at `i` a new span with the same id, whose parent (if any)
/// stands before `i`, and moving its whole subtree under the new root, keeps
/// the table well formed.
proof fn lemma_reroot_wf(old: Seq<SpanNode>, new: Seq<SpanNode>, i: int, span: AmaruSpan, new_root: Seq<char>)
    requires
        nodes_wf(old),
        0 <= i < old.len(),
        new.len() == old.len(),
        span.span_id@ == old[i].span.span_id@,
        new[i].span == span,
        new[i].root_id@ == new_root,
        match span.parent_id_opt {
            None => new_root == span.span_id@,
            Some(p) => has_id(old, p@) && index_of(old, p@) < i && old[index_of(old, p@)].root_id@
                == new_root,
        },
        forall|k: int|
            0 <= k < old.len() && k != i ==> (#[trigger] new[k]).span == old[k].span,
        forall|k: int|
            0 <= k < old.len() && k != i && in_subtree(old, span.span_id@, k) ==> (
            #[trigger] new[k]).root_id@ == new_root,
        forall|k: int|
            0 <= k < old.len() && !in_subtree(old, span.span_id@, k) ==> #[trigger] new[k] == old[k],
    ensures
        nodes_wf(new),
        forall|id: Seq<char>| #[trigger] has_id(new, id) <==> has_id(old, id),
{
    let x = span.span_id@;
    assert(in_subtree(old, x, i));
    assert forall|k: int| 0 <= k < new.len() implies #[trigger] new[k].span.span_id@ == old[k].span.span_id@ by {
        if k != i {
            assert(new[k].span == old[k].span);
        }
    }
    assert forall|id: Seq<char>| #[trigger] has_id(new, id) <==> has_id(old, id) by {
        if has_id(new, id) {
            let j = choose|j: int| 0 <= j < new.len() && (#[trigger] new[j]).span.span_id@ == id;
            assert(old[j].span.span_id@ == id);
        }
        if has_id(old, id) {
            let j = choose|j: int| 0 <= j < old.len() && (#[trigger] old[j]).span.span_id@ == id;
            assert(new[j].span.span_id@ == id);
        }
    }
    // the root that the moved subtree ends up under
    if span.parent_id_opt is Some {
        let p = span.parent_id_opt->Some_0;
        let jp = index_of(old, p@);
        assert(linked(old, old[jp]));
        let q = choose|q: int|
            0 <= q < old.len() && (#[trigger] old[q]).span.span_id@ == new_root
                && old[q].span.parent_id_opt is None;
        if in_subtree(old, x, q) {
            assert(old[q].span.span_id@ == x);
            assert(q == i);
            lemma_tree_is_subtree(old, i, jp);
            lemma_subtree_after(old, i, jp);
        }
        assert(new[q] == old[q]);
        assert(has_root(new, new_root));
    } else {
        assert(new[i].span.parent_id_opt is None);
        assert(has_root(new, new_root));
    }
    assert forall|k: int| 0 <= k < new.len() implies linked(new, #[trigger] new[k]) && parent_before(
        new,
        k,
    ) by {
        assert(linked(old, old[k]));
        assert(parent_before(old, k));
        if k == i {
            if span.parent_id_opt is Some {
                let p = span.parent_id_opt->Some_0;
                let jp = index_of(old, p@);
                lemma_subtree_after_contra(old, i, jp);
                assert(new[jp] == old[jp]);
                assert(new[jp].root_id@ == new_root);
            }
        } else if in_subtree(old, x, k) {
            lemma_parent_index(old, k);
            let p = old[k].span.parent_id_opt->Some_0;
            let j = index_of(old, p@);
            assert(in_subtree(old, x, j));
            assert(new[j].span.span_id@ == p@);
            assert(new[j].root_id@ == new_root);
        } else {
            if old[k].span.parent_id_opt is Some {
                lemma_parent_index(old, k);
                let p = old[k].span.parent_id_opt->Some_0;
                let j = index_of(old, p@);
                assert(!in_subtree(old, x, j));
                assert(new[j] == old[j]);
            }
            let q = choose|q: int|
                0 <= q < old.len() && (#[trigger] old[q]).span.span_id@ == old[k].root_id@
                    && old[q].span.parent_id_opt is None;
            if in_subtree(old, x, q) {
                assert(old[q].span.span_id@ == x);
                assert(q == i);
                lemma_tree_is_subtree(old, i, k);
            }
            assert(new[q] == old[q]);
        }
    }
}

/// A node that stands before `i` is no descendant of the node at `i`.
proof fn lemma_subtree_after_contra(nodes: Seq<SpanNode>, i: int, j: int)
    requires
        nodes_wf(nodes),
        0 <= i < nodes.len(),
        0 <= j < i,
    ensures
        !in_subtree(nodes, nodes[i].span.span_id@, j),
{
    if in_subtree(nodes, nodes[i].span.span_id@, j) {
        lemma_subtree_after(nodes, i, j);
    }
}

/// Some node at index `from` or later holds the span with this id.
pub open spec fn held_from(nodes: Seq<SpanNode>, from: int, id: Seq<char>) -> bool {
    exists|m: int| from <= m < nodes.len() && (#[trigger] nodes[m]).span.span_id@ == id
}

/// Some entry of `ids` has the view `t`.
pub open spec fn in_ids(ids: Seq<String>, t: Seq<char>) -> bool {
    exists|w: int| 0 <= w < ids.len() && (#[trigger] ids[w])@ == t
}

/// Some descendant of `x` standing in `[from, to)` has the id `t`.
pub open spec fn subtree_id_in(nodes: Seq<SpanNode>, x: Seq<char>, from: int, to: int, t: Seq<char>) -> bool {
    exists|m: int| from <= m < to && in_subtree(nodes, x, m) && (#[trigger] nodes[m]).span.span_id@ == t
}

/// Builds the forest of call trees, one span at a time.
pub struct TraceRequestHandler {
    /// Every attached span, roots included, with the root of its tree.
    pub nodes: Vec<SpanNode>,
    /// Spans whose parent has not been seen yet, in arrival order.
    pub parent_to_orphans: Vec<AmaruSpan>,
    /// Width of the expiration window, in nanoseconds.
    pub expire_duration: u64,
}

impl TraceRequestHandler {
    pub open spec fn wf(&self) -> bool {
        &&& nodes_wf(self.nodes@)
        &&& orphans_wf(self.nodes@, self.parent_to_orphans@)
    }

    /// An empty forest with the given expiration window, in nanoseconds.
    pub fn new(expire_duration: u64) -> (r: TraceRequestHandler)
        ensures
            r.wf(),
            r.nodes@.len() == 0,
            r.parent_to_orphans@.len() == 0,
            r.expire_duration == expire_duration,
    {
        TraceRequestHandler { nodes: Vec::new(), parent_to_orphans: Vec::new(), expire_duration }
    }

    /// The index of the node that holds the span with this id.
    fn find_node(&self, span_id: &String) -> (r: Option<usize>)
        ensures
            match r {
                Some(i) => i < self.nodes@.len() && self.nodes@[i as int].span.span_id@ == span_id@,
                None => !has_id(self.nodes@, span_id@),
            },
    {
        let mut i: usize = 0;
        while i < self.nodes.len()
            invariant
                i <= self.nodes@.len(),
                forall|k: int| 0 <= k < i ==> (#[trigger] self.nodes@[k]).span.span_id@ != span_id@,
            decreases self.nodes@.len() - i,
        {
            if self.nodes[i].span.span_id == *span_id {
                return Some(i);
            }
            i += 1;
        }
        None
    }
    /// Gives the node at `i` a new span with the same id and moves its whole
    /// subtree under `new_root`: the node's own id when the span has no
    /// parent, else the root of its parent, which stands before `i`.
    #[verifier::rlimit(100)]
    fn move_node(&mut self, i: usize, span: AmaruSpan, new_root: String)
        requires
            nodes_wf(old(self).nodes@),
            i < old(self).nodes@.len(),
            span.span_id@ == old(self).nodes@[i as int].span.span_id@,
            match span.parent_id_opt {
                None => new_root@ == span.span_id@,
                Some(p) => has_id(old(self).nodes@, p@) && index_of(old(self).nodes@, p@) < i
                    && old(self).nodes@[index_of(old(self).nodes@, p@)].root_id@ == new_root@,
            },
        ensures
            nodes_wf(final(self).nodes@),
            final(self).parent_to_orphans == old(self).parent_to_orphans,
            final(self).expire_duration == old(self).expire_duration,
            final(self).nodes@.len() == old(self).nodes@.len(),
            final(self).nodes@[i as int].span == span,
            final(self).nodes@[i as int].root_id@ == new_root@,
            forall|id: Seq<char>| #[trigger] has_id(final(self).nodes@, id) <==> has_id(old(self).nodes@, id),
            forall|k: int|
                0 <= k < old(self).nodes@.len() && k != i ==> (#[trigger] final(self).nodes@[k]).span
                    == old(self).nodes@[k].span,
            forall|k: int|
                0 <= k < old(self).nodes@.len() && k != i && in_subtree(old(self).nodes@, span.span_id@, k)
                    ==> (#[trigger] final(self).nodes@[k]).root_id@ == new_root@,
            forall|k: int|
                0 <= k < old(self).nodes@.len() && !in_subtree(old(self).nodes@, span.span_id@, k)
                    ==> #[trigger] final(self).nodes@[k] == old(self).nodes@[k],
    {
        let ghost pre = self.nodes@;
        let ghost x = span.span_id@;
        let len = self.nodes.len();
        let mut ids: Vec<String> = Vec::new();
        ids.push(span.span_id.clone());
        let n = SpanNode { span, root_id: new_root.clone() };
        let ghost gn = n;
        self.nodes.set(i, n);
        proof {
            assert(in_subtree(pre, x, i as int));
            assert(ids@[0]@ == x);
            assert forall|m: int| 0 <= m < i implies !in_subtree(pre, x, m) by {
                lemma_subtree_after_contra(pre, i as int, m);
            }
            assert forall|t: Seq<char>| #[trigger] in_ids(ids@, t) <==> subtree_id_in(pre, x, i as int, i + 1, t) by {
                if subtree_id_in(pre, x, i as int, i + 1, t) {
                    let m = choose|m: int|
                        i <= m < i + 1 && in_subtree(pre, x, m) && (#[trigger] pre[m]).span.span_id@ == t;
                    assert(m == i);
                    assert(ids@[0]@ == t);
                }
            }
        }
        let mut k: usize = i + 1;
        while k < self.nodes.len()
            invariant
                nodes_wf(pre),
                len == pre.len(),
                i < k <= pre.len(),
                self.parent_to_orphans == old(self).parent_to_orphans,
                self.expire_duration == old(self).expire_duration,
                self.nodes@.len() == pre.len(),
                self.nodes@[i as int] == gn,
                gn.root_id@ == new_root@,
                pre[i as int].span.span_id@ == x,
                forall|m: int| 0 <= m < pre.len() && m != i ==> (#[trigger] self.nodes@[m]).span == pre[m].span,
                forall|m: int|
                    0 <= m < k && m != i && in_subtree(pre, x, m) ==> (#[trigger] self.nodes@[m]).root_id@
                        == new_root@,
                forall|m: int|
                    0 <= m < pre.len() && m != i && !(m < k && in_subtree(pre, x, m)) ==> #[trigger] self.nodes@[m]
                        == pre[m],
                forall|t: Seq<char>|
                    #[trigger] in_ids(ids@, t) <==> subtree_id_in(pre, x, i as int, k as int, t),
            decreases pre.len() - k,
        {
            let moves = match &self.nodes[k].span.parent_id_opt {
                Some(p) => contains_id(&ids, p),
                None => false,
            };
            proof {
                assert(self.nodes@[k as int] == pre[k as int]);
                assert(pre[k as int].span.span_id@ != x);
                if pre[k as int].span.parent_id_opt is Some {
                    lemma_parent_index(pre, k as int);
                    let p = pre[k as int].span.parent_id_opt->Some_0;
                    let j = index_of(pre, p@);
                    if moves {
                        assert(in_ids(ids@, p@));
                        let m = choose|m: int|
                            i <= m < k && in_subtree(pre, x, m) && (#[trigger] pre[m]).span.span_id@ == p@;
                        assert(m == j);
                    }
                    if in_subtree(pre, x, j) {
                        lemma_subtree_after(pre, i as int, j);
                        assert(subtree_id_in(pre, x, i as int, k as int, p@));
                        assert(in_ids(ids@, p@));
                    }
                    assert(moves == in_subtree(pre, x, k as int));
                } else {
                    assert(!in_subtree(pre, x, k as int));
                }
            }
            if moves {
                let s = self.nodes[k].span.copy();
                let sid = s.span_id.clone();
                let ghost ids0 = ids@;
                self.nodes.set(k, SpanNode { span: s, root_id: new_root.clone() });
                ids.push(sid);
                proof {
                    assert(sid@ == pre[k as int].span.span_id@);
                    assert(ids@.len() == ids0.len() + 1);
                    assert(ids@[ids0.len() as int] == sid);
                    assert forall|t: Seq<char>|
                        #[trigger] in_ids(ids@, t) <==> subtree_id_in(pre, x, i as int, k + 1, t) by {
                        if in_ids(ids@, t) {
                            let w = choose|w: int| 0 <= w < ids@.len() && (#[trigger] ids@[w])@ == t;
                            if w < ids0.len() {
                                assert(ids0[w] == ids@[w]);
                                assert(in_ids(ids0, t));
                                let m = choose|m: int|
                                    i <= m < k && in_subtree(pre, x, m) && (#[trigger] pre[m]).span.span_id@ == t;
                                assert(i <= m < k + 1);
                            } else {
                                assert(pre[k as int].span.span_id@ == t);
                            }
                        }
                        if subtree_id_in(pre, x, i as int, k + 1, t) {
                            let m = choose|m: int|
                                i <= m < k + 1 && in_subtree(pre, x, m) && (#[trigger] pre[m]).span.span_id@ == t;
                            if m < k {
                                assert(subtree_id_in(pre, x, i as int, k as int, t));
                                assert(in_ids(ids0, t));
                                let w = choose|w: int| 0 <= w < ids0.len() && (#[trigger] ids0[w])@ == t;
                                assert(ids@[w] == ids0[w]);
                            } else {
                                assert(ids@[ids0.len() as int]@ == t);
                            }
                        }
                    }
                }
            } else {
                proof {
                    assert forall|t: Seq<char>|
                        #[trigger] in_ids(ids@, t) <==> subtree_id_in(pre, x, i as int, k + 1, t) by {
                        if subtree_id_in(pre, x, i as int, k + 1, t) {
                            let m = choose|m: int|
                                i <= m < k + 1 && in_subtree(pre, x, m) && (#[trigger] pre[m]).span.span_id@ == t;
                            assert(m < k);
                            assert(subtree_id_in(pre, x, i as int, k as int, t));
                        }
                    }
                }
            }
            k += 1;
        }
        proof {
            lemma_reroot_wf(pre, self.nodes@, i as int, gn.span, new_root@);
        }
    }

    /// Places a span whose parent, if it names one, is attached. A span with
    /// a new id gets a node of its own at the end of the table, under the root
    /// of its parent (or as its own root). A span whose id is attached already
    /// takes over that node (the last write wins): without a parent the node
    /// becomes a root, and with a parent that stands before it the node moves
    /// under that parent; either way its whole subtree comes along. A span
    /// whose parent stands at or after the node with its id would close a
    /// cycle, and is dropped. Returns whether the id is newly attached.
    fn attach(&mut self, span: AmaruSpan) -> (placed: bool)
        requires
            nodes_wf(old(self).nodes@),
            match span.parent_id_opt {
                None => true,
                Some(p) => has_id(old(self).nodes@, p@),
            },
        ensures
            nodes_wf(final(self).nodes@),
            final(self).parent_to_orphans == old(self).parent_to_orphans,
            final(self).expire_duration == old(self).expire_duration,
            placed == !has_id(old(self).nodes@, span.span_id@),
            has_id(final(self).nodes@, span.span_id@),
            forall|id: Seq<char>|
                #[trigger] has_id(final(self).nodes@, id) <==> (has_id(old(self).nodes@, id) || id
                    == span.span_id@),
            kept_in_place(old(self).nodes@, final(self).nodes@),
            forall|k: int|
                0 <= k < final(self).nodes@.len() ==> holds_span(
                    old(self).nodes@,
                    (#[trigger] final(self).nodes@[k]).span,
                ) || final(self).nodes@[k].span == span,
            placed ==> final(self).nodes@.len() == old(self).nodes@.len() + 1
                && final(self).nodes@.last().span == span && final(self).nodes@.last().root_id@
                == match span.parent_id_opt {
                None => span.span_id@,
                Some(p) => old(self).nodes@[index_of(old(self).nodes@, p@)].root_id@,
            },
            !placed ==> final(self).nodes@.len() == old(self).nodes@.len(),
            placed ==> forall|k: int|
                0 <= k < old(self).nodes@.len() ==> #[trigger] final(self).nodes@[k] == old(self).nodes@[k],
            forall|k: int|
                0 <= k < old(self).nodes@.len() && !in_subtree(old(self).nodes@, span.span_id@, k)
                    ==> #[trigger] final(self).nodes@[k] == old(self).nodes@[k],
            has_id(old(self).nodes@, span.span_id@) ==> forall|k: int|
                0 <= k < index_of(old(self).nodes@, span.span_id@) ==> #[trigger] final(self).nodes@[k]
                    == old(self).nodes@[k],
            (has_id(old(self).nodes@, span.span_id@) && (span.parent_id_opt matches Some(p) && index_of(
                old(self).nodes@,
                p@,
            ) >= index_of(old(self).nodes@, span.span_id@))) ==> final(self).nodes@ == old(self).nodes@,
            (span.parent_id_opt is None || (span.parent_id_opt matches Some(p) && (!has_id(
                old(self).nodes@,
                span.span_id@,
            ) || index_of(old(self).nodes@, p@) < index_of(old(self).nodes@, span.span_id@)))) ==> {
                let i = index_of(final(self).nodes@, span.span_id@);
                &&& final(self).nodes@[i].span == span
                &&& span.parent_id_opt is None ==> final(self).nodes@[i].root_id@ == span.span_id@
            },
    {
        let span_id = span.span_id.clone();
        match self.find_node(&span_id) {
            Some(i) => {
                let ghost pre = self.nodes@;
                proof {
                    assert(has_id(pre, span_id@));
                    let c = index_of(pre, span_id@);
                    assert(c == i);
                }
                let target = match &span.parent_id_opt {
                    None => Some(span_id.clone()),
                    Some(p) => {
                        let j = self.find_node(p).unwrap();
                        proof {
                            assert(has_id(pre, p@));
                            let c = index_of(pre, p@);
                            assert(c == j);
                        }
                        if j < i {
                            Some(self.nodes[j].root_id.clone())
                        } else {
                            None
                        }
                    },
                };
                match target {
                    Some(new_root) => {
                        let ghost sp = span;
                        self.move_node(i, span, new_root);
                        proof {
                            assert forall|k: int|
                                0 <= k < self.nodes@.len() implies holds_span(
                                    pre,
                                    (#[trigger] self.nodes@[k]).span,
                                ) || self.nodes@[k].span == sp by {
                                if k != i {
                                    assert(self.nodes@[k].span == pre[k].span);
                                }
                            }
                            assert forall|k: int| 0 <= k < pre.len() implies (
                            #[trigger] self.nodes@[k]).span.span_id@ == pre[k].span.span_id@ by {
                                if k != i {
                                    assert(self.nodes@[k].span == pre[k].span);
                                }
                            }
                            assert forall|k: int| 0 <= k < i implies #[trigger] self.nodes@[k] == pre[k] by {
                                lemma_subtree_after_contra(pre, i as int, k);
                            }
                            assert(has_id(self.nodes@, sp.span_id@));
                            let c = index_of(self.nodes@, sp.span_id@);
                            assert(self.nodes@[i as int].span.span_id@ == sp.span_id@);
                            assert(c == i);
                        }
                    },
                    None => {
                        proof {
                            assert forall|k: int| 0 <= k < self.nodes@.len() implies holds_span(
                                pre,
                                (#[trigger] self.nodes@[k]).span,
                            ) by {
                                assert(self.nodes@[k] == pre[k]);
                            }
                        }
                    },
                }
                false
            },
            None => {
                let root_id = match &span.parent_id_opt {
                    None => span_id.clone(),
                    Some(p) => {
                        let j = self.find_node(p).unwrap();
                        proof {
                            assert(has_id(self.nodes@, p@));
                            let c = index_of(self.nodes@, p@);
                            assert(c == j);
                        }
                        self.nodes[j].root_id.clone()
                    },
                };
                let n = SpanNode { span, root_id };
                let ghost before = self.nodes@;
                proof {
                    assert forall|k: int| 0 <= k < before.len() implies linked(
                        before.push(n),
                        #[trigger] before.push(n)[k],
                    ) by {
                        assert(linked(before, before[k]));
                        lemma_linked_push(before, n, before[k]);
                    }
                    if n.span.parent_id_opt is Some {
                        let p = n.span.parent_id_opt->Some_0;
                        let j = choose|j: int|
                            0 <= j < before.len() && (#[trigger] before[j]).span.span_id@ == p@
                                && before[j].root_id@ == n.root_id@;
                        assert(linked(before, before[j]));
                        lemma_linked_push(before, n, n);
                    }
                    assert(before.push(n)[before.len() as int] == n);
                    assert forall|k: int| 0 <= k < before.len() + 1 implies #[trigger] parent_before(
                        before.push(n),
                        k,
                    ) by {
                        if k < before.len() {
                            assert(parent_before(before, k));
                            if before[k].span.parent_id_opt is Some {
                                let p = before[k].span.parent_id_opt->Some_0;
                                let j = choose|j: int|
                                    0 <= j < k && (#[trigger] before[j]).span.span_id@ == p@;
                                assert(before.push(n)[j] == before[j]);
                            }
                        } else if n.span.parent_id_opt is Some {
                            let p = n.span.parent_id_opt->Some_0;
                            let j = choose|j: int|
                                0 <= j < before.len() && (#[trigger] before[j]).span.span_id@ == p@;
                            assert(before.push(n)[j] == before[j]);
                        }
                    }
                }
                self.nodes.push(n);
                proof {
                    assert forall|id: Seq<char>|
                        #[trigger] has_id(self.nodes@, id) <==> (has_id(before, id) || id
                            == span_id@) by {
                        if has_id(before, id) {
                            let j = choose|j: int|
                                0 <= j < before.len() && (#[trigger] before[j]).span.span_id@ == id;
                            assert(self.nodes@[j] == before[j]);
                        }
                        if has_id(self.nodes@, id) && id != span_id@ {
                            let j = choose|j: int|
                                0 <= j < self.nodes@.len() && (#[trigger] self.nodes@[j]).span.span_id@
                                    == id;
                            assert(before[j] == self.nodes@[j]);
                        }
                    }
                    assert forall|k: int| 0 <= k < self.nodes@.len() implies holds_span(
                        before,
                        (#[trigger] self.nodes@[k]).span,
                    ) || self.nodes@[k].span == n.span by {
                        if k < before.len() {
                            assert(self.nodes@[k] == before[k]);
                        }
                    }
                    assert forall|k: int| 0 <= k < before.len() implies #[trigger] self.nodes@[k]
                        == before[k] by {}
                    assert(has_id(self.nodes@, span_id@));
                    let c = index_of(self.nodes@, span_id@);
                    assert(self.nodes@[before.len() as int].span.span_id@ == span_id@);
                    assert(c == before.len());
                }
                true
            },
        }
    }

    /// Removes from the pending list every span waiting for `parent_id`, and
    /// returns them in arrival order.
    fn take_orphans_of(&mut self, parent_id: &String) -> (taken: Vec<AmaruSpan>)
        ensures
            final(self).nodes == old(self).nodes,
            final(self).expire_duration == old(self).expire_duration,
            final(self).parent_to_orphans@.len() + taken@.len() == old(self).parent_to_orphans@.len(),
            forall|k: int|
                0 <= k < final(self).parent_to_orphans@.len() ==> old(self).parent_to_orphans@.contains(#[trigger] final(self).parent_to_orphans@[k])
                    && !parent_is(final(self).parent_to_orphans@[k], parent_id@),
            forall|k: int|
                0 <= k < taken@.len() ==> old(self).parent_to_orphans@.contains(#[trigger] taken@[k])
                    && parent_is(taken@[k], parent_id@),
            forall|k: int|
                0 <= k < old(self).parent_to_orphans@.len() ==> final(self).parent_to_orphans@.contains(#[trigger] old(self).parent_to_orphans@[k])
                    || taken@.contains(old(self).parent_to_orphans@[k]),
            (forall|k: int|
                0 <= k < old(self).parent_to_orphans@.len() ==> !parent_is(
                    #[trigger] old(self).parent_to_orphans@[k],
                    parent_id@,
                )) ==> final(self).parent_to_orphans@ == old(self).parent_to_orphans@ && taken@.len()
                == 0,
    {
        let mut kept: Vec<AmaruSpan> = Vec::new();
        let mut taken: Vec<AmaruSpan> = Vec::new();
        let ghost all = self.parent_to_orphans@;
        let mut i: usize = 0;
        while i < self.parent_to_orphans.len()
            invariant
                self.parent_to_orphans@ == all,
                i <= all.len(),
                kept@.len() + taken@.len() == i,
                forall|k: int|
                    0 <= k < kept@.len() ==> all.contains(#[trigger] kept@[k]) && !parent_is(
                        kept@[k],
                        parent_id@,
                    ),
                forall|k: int|
                    0 <= k < taken@.len() ==> all.contains(#[trigger] taken@[k]) && parent_is(
                        taken@[k],
                        parent_id@,
                    ),
                forall|k: int|
                    0 <= k < i ==> kept@.contains(#[trigger] all[k]) || taken@.contains(all[k]),
                (forall|k: int| 0 <= k < all.len() ==> !parent_is(#[trigger] all[k], parent_id@))
                    ==> kept@ == all.subrange(0, i as int) && taken@.len() == 0,
            decreases all.len() - i,
        {
            let o = self.parent_to_orphans[i].copy();
            let waits_here = match &o.parent_id_opt {
                Some(q) => *q == *parent_id,
                None => false,
            };
            let ghost kept0 = kept@;
            let ghost taken0 = taken@;
            if waits_here {
                taken.push(o);
            } else {
                kept.push(o);
            }
            proof {
                assert forall|k: int| 0 <= k < i + 1 implies kept@.contains(#[trigger] all[k])
                    || taken@.contains(all[k]) by {
                    if k < i {
                        if kept0.contains(all[k]) {
                            let m = choose|m: int| 0 <= m < kept0.len() && kept0[m] == all[k];
                            assert(kept@[m] == all[k]);
                        } else {
                            let m = choose|m: int| 0 <= m < taken0.len() && taken0[m] == all[k];
                            assert(taken@[m] == all[k]);
                        }
                    } else if waits_here {
                        assert(taken@[taken0.len() as int] == all[k]);
                    } else {
                        assert(kept@[kept0.len() as int] == all[k]);
                    }
                }
            }
            proof {
                if forall|k: int| 0 <= k < all.len() ==> !parent_is(#[trigger] all[k], parent_id@) {
                    assert(!parent_is(all[i as int], parent_id@));
                    assert(kept@ =~= all.subrange(0, i + 1));
                }
            }
            i += 1;
        }
        proof {
            assert(all.subrange(0, all.len() as int) =~= all);
        }
        self.parent_to_orphans = kept;
        taken
    }

    /// Attaches, transitively, every pending span that waits for `parent_id`,
    /// which has just been attached: each one that lands may in turn free the
    /// spans that wait for it.
    fn resolve_orphans_for(&mut self, parent_id: String)
        requires
            nodes_wf(old(self).nodes@),
            has_id(old(self).nodes@, parent_id@),
            old(self).nodes@.len() > 0,
            old(self).nodes@.last().span.span_id@ == parent_id@,
            forall|k: int|
                0 <= k < old(self).parent_to_orphans@.len() ==> ((#[trigger] old(self).parent_to_orphans@[k]).parent_id_opt matches Some(p) && (has_id(
                    old(self).nodes@,
                    p@,
                ) ==> p@ == parent_id@)),
        ensures
            final(self).wf(),
            final(self).expire_duration == old(self).expire_duration,
            forall|id: Seq<char>|
                has_id(old(self).nodes@, id) ==> #[trigger] has_id(final(self).nodes@, id),
            final(self).nodes@.len() >= old(self).nodes@.len(),
            kept_in_place(old(self).nodes@, final(self).nodes@),
            (forall|k: int|
                0 <= k < old(self).parent_to_orphans@.len() ==> !parent_is(
                    #[trigger] old(self).parent_to_orphans@[k],
                    parent_id@,
                )) ==> final(self).nodes@ == old(self).nodes@ && final(self).parent_to_orphans@ == old(
                self,
            ).parent_to_orphans@,
            forall|k: int|
                0 <= k < old(self).nodes@.len() ==> #[trigger] final(self).nodes@[k] == old(self).nodes@[k],
            forall|k: int|
                0 <= k < final(self).nodes@.len() ==> holds_span(
                    old(self).nodes@,
                    (#[trigger] final(self).nodes@[k]).span,
                ) || old(self).parent_to_orphans@.contains(final(self).nodes@[k].span),
            forall|k: int|
                0 <= k < final(self).parent_to_orphans@.len() ==> old(self).parent_to_orphans@.contains(#[trigger] final(self).parent_to_orphans@[k]),
            forall|k: int|
                0 <= k < old(self).parent_to_orphans@.len() ==> final(self).parent_to_orphans@.contains(#[trigger] old(self).parent_to_orphans@[k])
                    || has_id(final(self).nodes@, old(self).parent_to_orphans@[k].span_id@),
    {
        let ghost nodes0 = self.nodes@;
        let ghost orphans0 = self.parent_to_orphans@;
        let ghost pid = parent_id@;
        let ghost quiet = forall|k: int|
            0 <= k < orphans0.len() ==> !parent_is(#[trigger] orphans0[k], pid);
        let mut work: Vec<String> = Vec::new();
        work.push(parent_id);
        assert(work@[0]@ == pid);
        assert(held_from(nodes0, nodes0.len() - 1, pid)) by {
            assert(nodes0[nodes0.len() - 1].span.span_id@ == pid);
        }
        while work.len() > 0
            invariant
                nodes_wf(self.nodes@),
                nodes0.len() > 0,
                self.expire_duration == old(self).expire_duration,
                forall|k: int| 0 <= k < work@.len() ==> has_id(self.nodes@, (#[trigger] work@[k])@),
                forall|k: int|
                    0 <= k < self.parent_to_orphans@.len() ==> ((
                    #[trigger] self.parent_to_orphans@[k]).parent_id_opt matches Some(p) && (has_id(
                        self.nodes@,
                        p@,
                    ) ==> exists|w: int| 0 <= w < work@.len() && (#[trigger] work@[w])@ == p@)),
                forall|id: Seq<char>| has_id(nodes0, id) ==> #[trigger] has_id(self.nodes@, id),
                self.nodes@.len() >= nodes0.len(),
                kept_in_place(nodes0, self.nodes@),
                quiet == (forall|k: int|
                    0 <= k < orphans0.len() ==> !parent_is(#[trigger] orphans0[k], pid)),
                quiet ==> self.nodes@ == nodes0 && self.parent_to_orphans@ == orphans0 && forall|w: int|
                    0 <= w < work@.len() ==> (#[trigger] work@[w])@ == pid,
                forall|k: int| 0 <= k < nodes0.len() ==> #[trigger] self.nodes@[k] == nodes0[k],
                forall|w: int| 0 <= w < work@.len() ==> held_from(self.nodes@, nodes0.len() - 1, (#[trigger] work@[w])@),
                forall|k: int|
                    0 <= k < self.nodes@.len() ==> holds_span(nodes0, (#[trigger] self.nodes@[k]).span)
                        || orphans0.contains(self.nodes@[k].span),
                forall|k: int|
                    0 <= k < self.parent_to_orphans@.len() ==> orphans0.contains(
                        #[trigger] self.parent_to_orphans@[k],
                    ),
                forall|k: int|
                    0 <= k < orphans0.len() ==> self.parent_to_orphans@.contains(
                        #[trigger] orphans0[k],
                    ) || has_id(self.nodes@, orphans0[k].span_id@),
            decreases self.parent_to_orphans@.len() + work@.len(),
        {
            let ghost bound = self.parent_to_orphans@.len() + work@.len();
            let ghost pre_take = self.parent_to_orphans@;
            let ghost work0 = work@;
            let p = work.pop().unwrap();
            let taken = self.take_orphans_of(&p);
            let ghost orphans1 = self.parent_to_orphans@;
            proof {
                assert(work0[work0.len() - 1] == p);
                assert(held_from(self.nodes@, nodes0.len() - 1, work0[work0.len() - 1]@));
                assert forall|w: int| 0 <= w < work@.len() implies held_from(
                    self.nodes@,
                    nodes0.len() - 1,
                    (#[trigger] work@[w])@,
                ) by {
                    assert(work@[w] == work0[w]);
                    assert(held_from(self.nodes@, nodes0.len() - 1, work0[w]@));
                }
                if quiet {
                    assert(work0[work0.len() - 1] == p);
                    assert(pre_take == orphans0);
                    assert(p@ == pid);
                    assert(forall|k: int|
                        0 <= k < pre_take.len() ==> !parent_is(#[trigger] pre_take[k], p@));
                    assert forall|w: int| 0 <= w < work@.len() implies (#[trigger] work@[w])@ == pid by {
                        assert(work@[w] == work0[w]);
                    }
                }
                assert forall|k: int| 0 <= k < orphans1.len() implies ((
                #[trigger] orphans1[k]).parent_id_opt matches Some(q) && q@ != p@ && (has_id(
                    self.nodes@,
                    q@,
                ) ==> exists|w: int| 0 <= w < work@.len() && (#[trigger] work@[w])@ == q@)) by {
                    let o = orphans1[k];
                    let m = choose|m: int| 0 <= m < pre_take.len() && pre_take[m] == o;
                    assert(pre_take[m] == o);
                    let q = o.parent_id_opt->Some_0;
                    if has_id(self.nodes@, q@) {
                        let w = choose|w: int| 0 <= w < work0.len() && (#[trigger] work0[w])@ == q@;
                        assert(work0[work0.len() - 1] == p);
                        assert(w < work@.len());
                        assert(work@[w] == work0[w]);
                    }
                }
                assert(taken@.subrange(0, taken@.len() as int) =~= taken@);
                assert forall|k: int| 0 <= k < orphans0.len() implies orphans1.contains(
                    #[trigger] orphans0[k],
                ) || has_id(self.nodes@, orphans0[k].span_id@) || taken@.subrange(
                    0,
                    taken@.len() as int,
                ).contains(orphans0[k]) by {
                    if pre_take.contains(orphans0[k]) {
                        let m = choose|m: int| 0 <= m < pre_take.len() && pre_take[m] == orphans0[k];
                        assert(pre_take[m] == orphans0[k]);
                    }
                }
            }
            let mut t: usize = 0;
            while t < taken.len()
                invariant
                    nodes_wf(self.nodes@),
                    self.expire_duration == old(self).expire_duration,
                    self.parent_to_orphans@ == orphans1,
                    t <= taken@.len(),
                    self.parent_to_orphans@.len() + work@.len() + (taken@.len() - t) < bound,
                    has_id(self.nodes@, p@),
                    forall|k: int|
                        0 <= k < taken@.len() ==> orphans0.contains(#[trigger] taken@[k])
                            && parent_is(taken@[k], p@),
                    forall|k: int|
                        0 <= k < work@.len() ==> has_id(self.nodes@, (#[trigger] work@[k])@),
                    forall|k: int|
                        0 <= k < orphans1.len() ==> ((#[trigger] orphans1[k]).parent_id_opt matches Some(
                            q,
                        ) && q@ != p@ && (has_id(self.nodes@, q@) ==> exists|w: int|
                            0 <= w < work@.len() && (#[trigger] work@[w])@ == q@)),
                    forall|id: Seq<char>| has_id(nodes0, id) ==> #[trigger] has_id(self.nodes@, id),
                    self.nodes@.len() >= nodes0.len(),
                    kept_in_place(nodes0, self.nodes@),
                    quiet ==> self.nodes@ == nodes0 && orphans1 == orphans0 && taken@.len() == 0
                        && forall|w: int| 0 <= w < work@.len() ==> (#[trigger] work@[w])@ == pid,
                    forall|k: int| 0 <= k < nodes0.len() ==> #[trigger] self.nodes@[k] == nodes0[k],
                    forall|w: int| 0 <= w < work@.len() ==> held_from(self.nodes@, nodes0.len() - 1, (#[trigger] work@[w])@),
                    held_from(self.nodes@, nodes0.len() - 1, p@),
                    nodes0.len() > 0,
                    forall|k: int|
                        0 <= k < self.nodes@.len() ==> holds_span(nodes0, (#[trigger] self.nodes@[k]).span)
                            || orphans0.contains(self.nodes@[k].span),
                    forall|k: int|
                        0 <= k < orphans1.len() ==> orphans0.contains(#[trigger] orphans1[k]),
                    forall|k: int|
                        0 <= k < orphans0.len() ==> orphans1.contains(#[trigger] orphans0[k])
                            || has_id(self.nodes@, orphans0[k].span_id@)
                            || taken@.subrange(t as int, taken@.len() as int).contains(orphans0[k]),
                decreases taken@.len() - t,
            {
                let o = taken[t].copy();
                let o_id = o.span_id.clone();
                let ghost nodes_before = self.nodes@;
                let ghost work_before = work@;
                let ghost ot = taken@[t as int];
                let placed = self.attach(o);
                if placed {
                    work.push(o_id);
                }
                proof {
                    lemma_kept_in_place_trans(nodes0, nodes_before, self.nodes@);
                    let n0 = nodes0.len() as int;
                    let m = choose|m: int|
                        n0 - 1 <= m < nodes_before.len() && (#[trigger] nodes_before[m]).span.span_id@ == p@;
                    assert(has_id(nodes_before, p@));
                    assert(index_of(nodes_before, p@) == m);
                    if has_id(nodes_before, ot.span_id@) {
                        let i = index_of(nodes_before, ot.span_id@);
                        if i < n0 {
                            assert(self.nodes@ == nodes_before);
                        }
                    }
                    assert forall|k: int| 0 <= k < n0 implies #[trigger] self.nodes@[k] == nodes0[k] by {
                        assert(nodes_before[k] == nodes0[k]);
                    }
                    assert forall|w: int| 0 <= w < work@.len() implies held_from(
                        self.nodes@,
                        n0 - 1,
                        (#[trigger] work@[w])@,
                    ) by {
                        if w < work_before.len() {
                            assert(work@[w] == work_before[w]);
                            assert(held_from(nodes_before, n0 - 1, work_before[w]@));
                            let mm = choose|mm: int|
                                n0 - 1 <= mm < nodes_before.len() && (#[trigger] nodes_before[mm]).span.span_id@
                                    == work_before[w]@;
                            assert(self.nodes@[mm].span.span_id@ == work_before[w]@);
                        } else {
                            assert(self.nodes@[nodes_before.len() as int].span.span_id@ == work@[w]@);
                        }
                    }
                    assert(held_from(self.nodes@, n0 - 1, p@)) by {
                        assert(self.nodes@[m].span.span_id@ == p@);
                    }
                    assert forall|k: int| 0 <= k < orphans1.len() implies ((
                    #[trigger] orphans1[k]).parent_id_opt matches Some(q) && q@ != p@ && (has_id(
                        self.nodes@,
                        q@,
                    ) ==> exists|w: int| 0 <= w < work@.len() && (#[trigger] work@[w])@ == q@)) by {
                        let q = orphans1[k].parent_id_opt->Some_0;
                        if has_id(nodes_before, q@) {
                            let w = choose|w: int|
                                0 <= w < work_before.len() && (#[trigger] work_before[w])@ == q@;
                            assert(work@[w] == work_before[w]);
                        } else if has_id(self.nodes@, q@) {
                            assert(work@[work_before.len() as int]@ == q@);
                        }
                    }
                    assert forall|k: int| 0 <= k < orphans0.len() implies orphans1.contains(
                        #[trigger] orphans0[k],
                    ) || has_id(self.nodes@, orphans0[k].span_id@) || taken@.subrange(
                        t + 1,
                        taken@.len() as int,
                    ).contains(orphans0[k]) by {
                        let x = orphans0[k];
                        if !orphans1.contains(x) && !has_id(self.nodes@, x.span_id@) {
                            assert(!has_id(nodes_before, x.span_id@));
                            let sub = taken@.subrange(t as int, taken@.len() as int);
                            let m = choose|m: int| 0 <= m < sub.len() && sub[m] == x;
                            assert(sub[m] == taken@[t + m]);
                            if m == 0 {
                                assert(x == ot);
                            } else {
                                assert(taken@.subrange(t + 1, taken@.len() as int)[m - 1] == x);
                            }
                        }
                    }
                    assert forall|k: int| 0 <= k < work@.len() implies has_id(
                        self.nodes@,
                        (#[trigger] work@[k])@,
                    ) by {
                        if k < work_before.len() {
                            assert(work@[k] == work_before[k]);
                        }
                    }
                }
                t += 1;
            }
        }
    }

    /// Ingests one span. A root starts a tree of its own; a span whose parent
    /// is attached joins the parent's tree; any other span waits for its
    /// parent. Each span that lands frees, transitively, the spans that were
    /// waiting for it. A span whose id is attached already takes over that
    /// node, with its subtree (the last write wins): a span without a parent
    /// makes it a root, and one whose parent stands before it moves it there.
    /// One whose parent stands at or after that node would close a cycle, and
    /// is dropped.
    pub fn handle_span(&mut self, span: AmaruSpan)
        requires
            old(self).wf(),
        ensures
            ingest_step(*old(self), span, *final(self)),
    {
        let span_id = span.span_id.clone();
        let ghost pre = *self;
        let ghost pre_orphans = self.parent_to_orphans@;
        let ghost sp = span;
        let attachable = match &span.parent_id_opt {
            None => true,
            Some(p) => self.find_node(p).is_some(),
        };
        if attachable {
            let placed = self.attach(span);
            let ghost mid = self.nodes@;
            if placed {
                self.resolve_orphans_for(span_id);
            }
            proof {
                let post = self.nodes@;
                assert forall|k: int| 0 <= k < mid.len() implies #[trigger] post[k] == mid[k] by {}
                assert forall|k: int|
                    0 <= k < post.len() implies holds_span(pre.nodes@, (#[trigger] post[k]).span)
                        || post[k].span == sp || pre_orphans.contains(post[k].span) by {
                    if holds_span(mid, post[k].span) {
                        let j = choose|j: int| 0 <= j < mid.len() && (#[trigger] mid[j]).span == post[k].span;
                        assert(holds_span(pre.nodes@, mid[j].span) || mid[j].span == sp);
                    }
                }
                if has_id(mid, sp.span_id@) {
                    let i = index_of(mid, sp.span_id@);
                    assert(post[i] == mid[i]);
                    assert(index_of(post, sp.span_id@) == i);
                }
                if sp.parent_id_opt is None {
                    let i = index_of(post, sp.span_id@);
                    assert(root_of(post, sp.span_id@) == Some(post[i].root_id@));
                }
                assert forall|k: int|
                    0 <= k < pre.nodes@.len() && pre.nodes@[k].span.span_id@ == sp.span_id@ && same_parent(
                        pre.nodes@[k].span.parent_id_opt,
                        sp.parent_id_opt,
                    ) implies (#[trigger] post[k]).span == sp by {
                    assert(has_id(pre.nodes@, sp.span_id@));
                    assert(index_of(pre.nodes@, sp.span_id@) == k);
                    if sp.parent_id_opt is Some {
                        lemma_parent_index(pre.nodes@, k);
                        let q = pre.nodes@[k].span.parent_id_opt->Some_0;
                        let p = sp.parent_id_opt->Some_0;
                        assert(q@ == p@);
                    }
                    assert(mid[k].span.span_id@ == sp.span_id@);
                    assert(index_of(mid, sp.span_id@) == k);
                }
            }
        } else {
            self.parent_to_orphans.push(span);
            assert(self.parent_to_orphans@[pre_orphans.len() as int] == sp);
        }
        proof {
            assert forall|k: int| 0 <= k < pre_orphans.len() implies self.parent_to_orphans@.contains(
                #[trigger] pre_orphans[k],
            ) || has_id(self.nodes@, pre_orphans[k].span_id@) by {
                if k < self.parent_to_orphans@.len() {
                    assert(self.parent_to_orphans@[k] == pre_orphans[k] ==> self.parent_to_orphans@.contains(
                        pre_orphans[k],
                    ));
                }
            }
        }
    }
    /// Evicts, as of `now` (nanoseconds since the epoch), every trace that has
    /// a root started before `now - expire_duration`, all of its roots and
    /// their trees together, and every pending span started before that cutoff.
    #[verifier::rlimit(60)]
    pub fn evict_expired_at(&mut self, now: u64)
        requires
            old(self).wf(),
        ensures
            evict_step(*old(self), now, *final(self)),
    {
        if now < self.expire_duration {
            return;
        }
        let cutoff = now - self.expire_duration;
        let ghost pre = self.nodes@;
        // the traces that have a root started before the cutoff
        let mut expired: Vec<String> = Vec::new();
        let mut i: usize = 0;
        while i < self.nodes.len()
            invariant
                self.nodes@ == pre,
                i <= pre.len(),
                forall|m: int|
                    0 <= m < expired@.len() ==> trace_expired(pre, (#[trigger] expired@[m])@, cutoff as int),
                forall|k: int|
                    0 <= k < i && (#[trigger] pre[k]).span.parent_id_opt is None && pre[k].span.start
                        < cutoff ==> exists|m: int|
                        0 <= m < expired@.len() && (#[trigger] expired@[m])@ == pre[k].span.trace_id@,
            decreases pre.len() - i,
        {
            let n = &self.nodes[i];
            if n.span.parent_id_opt.is_none() && n.span.start < cutoff {
                let ghost before = expired@;
                expired.push(n.span.trace_id.clone());
                proof {
                    assert(trace_expired(pre, pre[i as int].span.trace_id@, cutoff as int));
                    assert forall|k: int|
                        0 <= k < i + 1 && (#[trigger] pre[k]).span.parent_id_opt is None
                            && pre[k].span.start < cutoff implies exists|m: int|
                        0 <= m < expired@.len() && (#[trigger] expired@[m])@ == pre[k].span.trace_id@ by {
                        if k < i {
                            let m = choose|m: int|
                                0 <= m < before.len() && (#[trigger] before[m])@ == pre[k].span.trace_id@;
                            assert(expired@[m] == before[m]);
                        } else {
                            assert(expired@[before.len() as int]@ == pre[k].span.trace_id@);
                        }
                    }
                }
            }
            i += 1;
        }
        // keep the nodes whose root is not in an expired trace
        let mut kept: Vec<SpanNode> = Vec::new();
        let ghost mut idx: Seq<int> = Seq::empty();
        let mut i: usize = 0;
        while i < self.nodes.len()
            invariant
                self.nodes@ == pre,
                nodes_wf(pre),
                i <= pre.len(),
                forall|m: int|
                    0 <= m < expired@.len() ==> trace_expired(pre, (#[trigger] expired@[m])@, cutoff as int),
                forall|k: int|
                    0 <= k < pre.len() && (#[trigger] pre[k]).span.parent_id_opt is None && pre[k].span.start
                        < cutoff ==> exists|m: int|
                        0 <= m < expired@.len() && (#[trigger] expired@[m])@ == pre[k].span.trace_id@,
                kept@ == surviving_nodes(pre.subrange(0, i as int), pre, cutoff as int),
                idx.len() == kept@.len(),
                forall|m: int| 0 <= m < idx.len() ==> 0 <= #[trigger] idx[m] < i && kept@[m] == pre[idx[m]],
                forall|a: int, b: int| 0 <= a < b < idx.len() ==> #[trigger] idx[a] < #[trigger] idx[b],
                forall|m: int|
                    0 <= m < kept@.len() ==> !root_evicted(pre, (#[trigger] kept@[m]).root_id@, cutoff as int),
                forall|k: int|
                    0 <= k < i && !root_evicted(pre, pre[k].root_id@, cutoff as int)
                        ==> exists|m: int| 0 <= m < idx.len() && #[trigger] idx[m] == k,
            decreases pre.len() - i,
        {
            proof {
                assert(linked(pre, pre[i as int]));
            }
            let r = self.find_node(&self.nodes[i].root_id).unwrap();
            let gone = contains_id(&expired, &self.nodes[r].span.trace_id);
            proof {
                let rk = choose|rk: int|
                    0 <= rk < pre.len() && (#[trigger] pre[rk]).span.span_id@ == pre[i as int].root_id@
                        && pre[rk].span.parent_id_opt is None;
                assert(rk == r);
                if gone {
                    let m = choose|m: int|
                        0 <= m < expired@.len() && (#[trigger] expired@[m])@ == pre[r as int].span.trace_id@;
                    assert(trace_expired(pre, expired@[m]@, cutoff as int));
                    assert(root_evicted(pre, pre[i as int].root_id@, cutoff as int));
                } else if root_evicted(pre, pre[i as int].root_id@, cutoff as int) {
                    let k = choose|k: int|
                        0 <= k < pre.len() && (#[trigger] pre[k]).span.parent_id_opt is None
                            && pre[k].span.span_id@ == pre[i as int].root_id@ && trace_expired(
                            pre,
                            pre[k].span.trace_id@,
                            cutoff as int,
                        );
                    assert(k == r);
                    let e = choose|e: int|
                        0 <= e < pre.len() && (#[trigger] pre[e]).span.parent_id_opt is None
                            && pre[e].span.trace_id@ == pre[k].span.trace_id@ && pre[e].span.start < cutoff;
                    assert(pre[e].span.parent_id_opt is None);
                }
                assert(pre.subrange(0, i + 1).drop_last() =~= pre.subrange(0, i as int));
            }
            let ghost idx0 = idx;
            if !gone {
                kept.push(self.nodes[i].copy());
                proof {
                    idx = idx.push(i as int);
                    assert forall|k: int|
                        0 <= k < i + 1 && !root_evicted(pre, pre[k].root_id@, cutoff as int)
                            implies exists|m: int| 0 <= m < idx.len() && #[trigger] idx[m] == k by {
                        if k < i {
                            let m = choose|m: int| 0 <= m < idx0.len() && #[trigger] idx0[m] == k;
                            assert(idx[m] == idx0[m]);
                        } else {
                            assert(idx[idx0.len() as int] == k);
                        }
                    }
                    assert forall|a: int, b: int| 0 <= a < b < idx.len() implies #[trigger] idx[a]
                        < #[trigger] idx[b] by {
                        assert(idx[a] == idx0[a]);
                        if b < idx0.len() {
                            assert(idx[b] == idx0[b]);
                        }
                    }
                }
            }
            i += 1;
        }
        proof {
            assert(pre.subrange(0, pre.len() as int) =~= pre);
            lemma_filtered_wf(pre, kept@, idx, cutoff as int);
        }
        self.nodes = kept;
        // drop the pending spans started before the cutoff
        let ghost pending = self.parent_to_orphans@;
        let mut waiting: Vec<AmaruSpan> = Vec::new();
        let mut i: usize = 0;
        while i < self.parent_to_orphans.len()
            invariant
                self.parent_to_orphans@ == pending,
                i <= pending.len(),
                waiting@ == surviving_orphans(pending.subrange(0, i as int), cutoff as int),
                forall|m: int|
                    0 <= m < waiting@.len() ==> pending.contains(#[trigger] waiting@[m])
                        && waiting@[m].start >= cutoff,
                forall|k: int|
                    0 <= k < i && (#[trigger] pending[k]).start >= cutoff ==> waiting@.contains(
                        pending[k],
                    ),
            decreases pending.len() - i,
        {
            proof {
                assert(pending.subrange(0, i + 1).drop_last() =~= pending.subrange(0, i as int));
            }
            if self.parent_to_orphans[i].start >= cutoff {
                let ghost before = waiting@;
                waiting.push(self.parent_to_orphans[i].copy());
                proof {
                    assert(waiting@[before.len() as int] == pending[i as int]);
                    assert forall|k: int|
                        0 <= k < i + 1 && (#[trigger] pending[k]).start >= cutoff
                            implies waiting@.contains(pending[k]) by {
                        if k < i {
                            let m = choose|m: int| 0 <= m < before.len() && before[m] == pending[k];
                            assert(waiting@[m] == before[m]);
                        }
                    }
                }
            }
            i += 1;
        }
        assert(pending.subrange(0, pending.len() as int) =~= pending);
        self.parent_to_orphans = waiting;
        proof {
            assert forall|k: int| 0 <= k < self.parent_to_orphans@.len() implies ((
            #[trigger] self.parent_to_orphans@[k]).parent_id_opt matches Some(p) && !has_id(
                self.nodes@,
                p@,
            )) by {
                let o = self.parent_to_orphans@[k];
                let j = choose|j: int| 0 <= j < pending.len() && pending[j] == o;
                assert(pending[j] == o);
                let p = o.parent_id_opt->Some_0;
                if has_id(self.nodes@, p@) {
                    let q = choose|q: int|
                        0 <= q < self.nodes@.len() && (#[trigger] self.nodes@[q]).span.span_id@ == p@;
                    let z = choose|z: int| 0 <= z < pre.len() && pre[z] == self.nodes@[q];
                    assert(pre[z].span.span_id@ == p@);
                }
            }
        }
    }
    /// Evicts as of the current wall-clock time (see `evict_expired_at`).
    pub fn evict_expired(&mut self)
        requires
            old(self).wf(),
        ensures
            exists|now: u64| evict_step(*old(self), now, *final(self)),
    {
        let now = now_unix_nanos();
        self.evict_expired_at(now);
    }

    /// Ingests the spans in order, as `handle_span` does each one.
    pub fn handle_spans(&mut self, spans: Vec<AmaruSpan>)
        requires
            old(self).wf(),
        ensures
            ingest_all_step(*old(self), spans@, *final(self)),
    {
        let ghost pre = *self;
        let ghost mut states: Seq<TraceRequestHandler> = seq![*self];
        let mut i: usize = 0;
        while i < spans.len()
            invariant
                self.wf(),
                self.expire_duration == pre.expire_duration,
                pre == *old(self),
                i <= spans@.len(),
                states.len() == i + 1,
                states[0] == pre,
                states[i as int] == *self,
                forall|j: int| 0 <= j < i ==> ingest_step(#[trigger] states[j], spans@[j], states[j + 1]),
                kept_in_place(pre.nodes@, self.nodes@),
                forall|id: Seq<char>| has_id(pre.nodes@, id) ==> #[trigger] has_id(self.nodes@, id),
                forall|k: int|
                    0 <= k < i ==> self.parent_to_orphans@.contains(#[trigger] spans@[k]) || has_id(
                        self.nodes@,
                        spans@[k].span_id@,
                    ),
                forall|k: int|
                    0 <= k < self.nodes@.len() ==> holds_span(pre.nodes@, (#[trigger] self.nodes@[k]).span)
                        || pre.parent_to_orphans@.contains(self.nodes@[k].span) || spans@.contains(
                        self.nodes@[k].span,
                    ),
                forall|k: int|
                    0 <= k < self.parent_to_orphans@.len() ==> pre.parent_to_orphans@.contains(
                        #[trigger] self.parent_to_orphans@[k],
                    ) || spans@.contains(self.parent_to_orphans@[k]),
                forall|k: int|
                    0 <= k < pre.parent_to_orphans@.len() ==> self.parent_to_orphans@.contains(
                        #[trigger] pre.parent_to_orphans@[k],
                    ) || has_id(self.nodes@, pre.parent_to_orphans@[k].span_id@),
            decreases spans@.len() - i,
        {
            let ghost mid = *self;
            self.handle_span(spans[i].copy());
            proof {
                let states0 = states;
                states = states.push(*self);
                assert forall|j: int| 0 <= j < i + 1 implies ingest_step(
                    #[trigger] states[j],
                    spans@[j],
                    states[j + 1],
                ) by {
                    if j < i {
                        assert(states[j] == states0[j]);
                        assert(states[j + 1] == states0[j + 1]);
                    }
                }
                lemma_kept_in_place_trans(pre.nodes@, mid.nodes@, self.nodes@);
                assert(spans@.contains(spans@[i as int]));
                assert forall|k: int| 0 <= k < i + 1 implies self.parent_to_orphans@.contains(
                    #[trigger] spans@[k],
                ) || has_id(self.nodes@, spans@[k].span_id@) by {
                    if k < i && mid.parent_to_orphans@.contains(spans@[k]) {
                        let m = choose|m: int|
                            0 <= m < mid.parent_to_orphans@.len() && mid.parent_to_orphans@[m] == spans@[k];
                        assert(mid.parent_to_orphans@[m] == spans@[k]);
                    }
                }
                assert forall|k: int| 0 <= k < self.nodes@.len() implies holds_span(
                    pre.nodes@,
                    (#[trigger] self.nodes@[k]).span,
                ) || pre.parent_to_orphans@.contains(self.nodes@[k].span) || spans@.contains(
                    self.nodes@[k].span,
                ) by {
                    let n = self.nodes@[k];
                    if holds_span(mid.nodes@, n.span) {
                        let m = choose|m: int| 0 <= m < mid.nodes@.len() && (#[trigger] mid.nodes@[m]).span == n.span;
                        assert(holds_span(pre.nodes@, mid.nodes@[m].span) || pre.parent_to_orphans@.contains(
                            mid.nodes@[m].span) || spans@.contains(mid.nodes@[m].span));
                    } else if mid.parent_to_orphans@.contains(n.span) {
                        let m = choose|m: int|
                            0 <= m < mid.parent_to_orphans@.len() && mid.parent_to_orphans@[m] == n.span;
                        assert(mid.parent_to_orphans@[m] == n.span);
                    }
                }
                assert forall|k: int| 0 <= k < self.parent_to_orphans@.len() implies pre.parent_to_orphans@.contains(
                    #[trigger] self.parent_to_orphans@[k],
                ) || spans@.contains(self.parent_to_orphans@[k]) by {
                    let o = self.parent_to_orphans@[k];
                    if mid.parent_to_orphans@.contains(o) {
                        let m = choose|m: int|
                            0 <= m < mid.parent_to_orphans@.len() && mid.parent_to_orphans@[m] == o;
                        assert(mid.parent_to_orphans@[m] == o);
                    }
                }
                assert forall|k: int| 0 <= k < pre.parent_to_orphans@.len() implies self.parent_to_orphans@.contains(
                    #[trigger] pre.parent_to_orphans@[k],
                ) || has_id(self.nodes@, pre.parent_to_orphans@[k].span_id@) by {
                    let o = pre.parent_to_orphans@[k];
                    if mid.parent_to_orphans@.contains(o) {
                        let m = choose|m: int|
                            0 <= m < mid.parent_to_orphans@.len() && mid.parent_to_orphans@[m] == o;
                        assert(mid.parent_to_orphans@[m] == o);
                    }
                }
            }
            i += 1;
        }
        assert(ingest_chain(pre, spans@, states, *self));
    }

    /// A view of the forest as it stands.
    pub fn flamegraph_snapshot(&self) -> (r: FlamegraphData)
        ensures
            r.nodes@ == self.nodes@,
    {
        FlamegraphData { nodes: copy_nodes(&self.nodes) }
    }
}

} // verus!
