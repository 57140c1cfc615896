//! Properties that span several calls, or several states, of the forest and
//! the queue, each proved from the contracts of the functions involved.
use crate::forest::{
    evict_step, root_evicted, surviving_nodes, surviving_orphans, trace_expired, has_id, has_root, ingest_all_step, ingest_chain, ingest_step,
    lemma_chain_gives_batch, linked, root_ids, root_of, trace_root_ids, FlamegraphData,
    TraceRequestHandler,
};
use crate::span::AmaruSpan;
use vstd::prelude::*;

verus! {

/// Whether some node of the table holds exactly this span.
pub open spec fn holds(h: TraceRequestHandler, s: AmaruSpan) -> bool {
    exists|k: int| 0 <= k < h.nodes@.len() && (#[trigger] h.nodes@[k]).span == s
}

/// The spans form a forest listed parents first: ids are distinct, and each
/// span that names a parent comes after the span with that id.
pub open spec fn parents_first_forest(spans: Seq<AmaruSpan>) -> bool {
    &&& forall|i: int, j: int|
        0 <= i < spans.len() && 0 <= j < spans.len() && (#[trigger] spans[i]).span_id@ == (
        #[trigger] spans[j]).span_id@ ==> i == j
    &&& forall|i: int|
        0 <= i < spans.len() ==> ((#[trigger] spans[i]).parent_id_opt matches Some(p) ==> exists|j: int|
            0 <= j < i && (#[trigger] spans[j]).span_id@ == p@)
}

/// An empty forest.
pub open spec fn is_empty(h: TraceRequestHandler) -> bool {
    &&& h.wf()
    &&& h.nodes@.len() == 0
    &&& h.parent_to_orphans@.len() == 0
}

/// No span of the forest is left pending after a run over its spans in any order.
proof fn lemma_run_leaves_none_pending(
    forest: Seq<AmaruSpan>,
    order: Seq<AmaruSpan>,
    h0: TraceRequestHandler,
    post: TraceRequestHandler,
    i: int,
)
    requires
        parents_first_forest(forest),
        forall|x: AmaruSpan| order.contains(x) <==> forest.contains(x),
        is_empty(h0),
        ingest_all_step(h0, order, post),
        0 <= i < forest.len(),
    ensures
        !post.parent_to_orphans@.contains(forest[i]),
        has_id(post.nodes@, forest[i].span_id@),
    decreases i,
{
    assert(forest.contains(forest[i]));
    let m = choose|m: int| 0 <= m < order.len() && order[m] == forest[i];
    assert(order[m] == forest[i]);
    if post.parent_to_orphans@.contains(forest[i]) {
        let k = choose|k: int|
            0 <= k < post.parent_to_orphans@.len() && post.parent_to_orphans@[k] == forest[i];
        assert(post.parent_to_orphans@[k] == forest[i]);
        let p = forest[i].parent_id_opt->Some_0;
        let j = choose|j: int| 0 <= j < i && (#[trigger] forest[j]).span_id@ == p@;
        lemma_run_leaves_none_pending(forest, order, h0, post, j);
    }
}

/// After a run over the forest's spans, from an empty forest, in any order:
/// nothing is pending, every span is held by a node, and every node holds one
/// of the spans.
proof fn lemma_run_is_complete(
    forest: Seq<AmaruSpan>,
    order: Seq<AmaruSpan>,
    h0: TraceRequestHandler,
    post: TraceRequestHandler,
)
    requires
        parents_first_forest(forest),
        forall|x: AmaruSpan| order.contains(x) <==> forest.contains(x),
        is_empty(h0),
        ingest_all_step(h0, order, post),
    ensures
        post.parent_to_orphans@.len() == 0,
        forall|i: int| 0 <= i < forest.len() ==> holds(post, #[trigger] forest[i]),
        forall|k: int| 0 <= k < post.nodes@.len() ==> forest.contains(#[trigger] post.nodes@[k].span),
{
    assert forall|k: int| 0 <= k < post.nodes@.len() implies forest.contains(
        #[trigger] post.nodes@[k].span,
    ) by {
        assert(!h0.nodes@.contains(post.nodes@[k]));
        assert(!h0.parent_to_orphans@.contains(post.nodes@[k].span));
    }
    if post.parent_to_orphans@.len() > 0 {
        let o = post.parent_to_orphans@[0];
        assert(!h0.parent_to_orphans@.contains(o));
        assert(forest.contains(o));
        let i = choose|i: int| 0 <= i < forest.len() && forest[i] == o;
        lemma_run_leaves_none_pending(forest, order, h0, post, i);
    }
    assert forall|i: int| 0 <= i < forest.len() implies holds(post, #[trigger] forest[i]) by {
        lemma_run_leaves_none_pending(forest, order, h0, post, i);
        let k = choose|k: int|
            0 <= k < post.nodes@.len() && (#[trigger] post.nodes@[k]).span.span_id@ == forest[i].span_id@;
        assert(forest.contains(post.nodes@[k].span));
        let j = choose|j: int| 0 <= j < forest.len() && forest[j] == post.nodes@[k].span;
        assert(forest[j].span_id@ == forest[i].span_id@);
    }
}

/// Two complete runs put each span under roots with the same id.
proof fn lemma_runs_agree_on_roots(
    forest: Seq<AmaruSpan>,
    a: TraceRequestHandler,
    b: TraceRequestHandler,
    i: int,
)
    requires
        parents_first_forest(forest),
        a.wf(),
        b.wf(),
        forall|k: int| 0 <= k < a.nodes@.len() ==> forest.contains(#[trigger] a.nodes@[k].span),
        forall|k: int| 0 <= k < b.nodes@.len() ==> forest.contains(#[trigger] b.nodes@[k].span),
        0 <= i < forest.len(),
    ensures
        forall|ka: int, kb: int|
            0 <= ka < a.nodes@.len() && 0 <= kb < b.nodes@.len() && (#[trigger] a.nodes@[ka]).span
                == forest[i] && (#[trigger] b.nodes@[kb]).span == forest[i] ==> a.nodes@[ka].root_id@
                == b.nodes@[kb].root_id@,
    decreases i,
{
    assert forall|ka: int, kb: int|
        0 <= ka < a.nodes@.len() && 0 <= kb < b.nodes@.len() && (#[trigger] a.nodes@[ka]).span
            == forest[i] && (#[trigger] b.nodes@[kb]).span == forest[i] implies a.nodes@[ka].root_id@
            == b.nodes@[kb].root_id@ by {
        assert(linked(a.nodes@, a.nodes@[ka]));
        assert(linked(b.nodes@, b.nodes@[kb]));
        if forest[i].parent_id_opt is Some {
            let p = forest[i].parent_id_opt->Some_0;
            let j = choose|j: int| 0 <= j < i && (#[trigger] forest[j]).span_id@ == p@;
            let ja = choose|ja: int|
                0 <= ja < a.nodes@.len() && (#[trigger] a.nodes@[ja]).span.span_id@ == p@
                    && a.nodes@[ja].root_id@ == a.nodes@[ka].root_id@;
            let jb = choose|jb: int|
                0 <= jb < b.nodes@.len() && (#[trigger] b.nodes@[jb]).span.span_id@ == p@
                    && b.nodes@[jb].root_id@ == b.nodes@[kb].root_id@;
            assert(forest.contains(a.nodes@[ja].span));
            assert(forest.contains(b.nodes@[jb].span));
            let fa = choose|fa: int| 0 <= fa < forest.len() && forest[fa] == a.nodes@[ja].span;
            let fb = choose|fb: int| 0 <= fb < forest.len() && forest[fb] == b.nodes@[jb].span;
            assert(forest[fa].span_id@ == forest[j].span_id@);
            assert(forest[fb].span_id@ == forest[j].span_id@);
            lemma_runs_agree_on_roots(forest, a, b, j);
            assert(a.nodes@[ja].span == forest[j]);
            assert(b.nodes@[jb].span == forest[j]);
        }
    }
}

/// The forest does not depend on arrival order: calling `handle_span` on the
/// spans of a forest one by one, from an empty forest, parents first or in any
/// other order, leaves nothing pending and builds the same trees. Every node of
/// one run holds a span that a node of the other run holds too, under a root
/// with the same id, so each span has the same parent and the same root.
pub proof fn lemma_arrival_order_is_irrelevant(
    parents_first: Seq<AmaruSpan>,
    any_order: Seq<AmaruSpan>,
    h0: TraceRequestHandler,
    steps_first: Seq<TraceRequestHandler>,
    post_first: TraceRequestHandler,
    h1: TraceRequestHandler,
    steps_any: Seq<TraceRequestHandler>,
    post_any: TraceRequestHandler,
)
    requires
        parents_first_forest(parents_first),
        forall|x: AmaruSpan| any_order.contains(x) <==> parents_first.contains(x),
        is_empty(h0),
        is_empty(h1),
        ingest_chain(h0, parents_first, steps_first, post_first),
        ingest_chain(h1, any_order, steps_any, post_any),
    ensures
        post_first.parent_to_orphans@.len() == 0,
        post_any.parent_to_orphans@.len() == 0,
        forall|k: int|
            0 <= k < post_first.nodes@.len() ==> exists|m: int|
                0 <= m < post_any.nodes@.len() && (#[trigger] post_any.nodes@[m]).span == (
                #[trigger] post_first.nodes@[k]).span && post_any.nodes@[m].root_id@
                    == post_first.nodes@[k].root_id@,
        forall|m: int|
            0 <= m < post_any.nodes@.len() ==> exists|k: int|
                0 <= k < post_first.nodes@.len() && (#[trigger] post_any.nodes@[m]).span == (
                #[trigger] post_first.nodes@[k]).span && post_any.nodes@[m].root_id@
                    == post_first.nodes@[k].root_id@,
{
    let f = parents_first;
    lemma_chain_gives_batch(h0, f, steps_first, post_first);
    lemma_chain_gives_batch(h1, any_order, steps_any, post_any);
    lemma_run_is_complete(f, f, h0, post_first);
    lemma_run_is_complete(f, any_order, h1, post_any);
    assert forall|k: int| 0 <= k < post_first.nodes@.len() implies exists|m: int|
        0 <= m < post_any.nodes@.len() && (#[trigger] post_any.nodes@[m]).span == (
        #[trigger] post_first.nodes@[k]).span && post_any.nodes@[m].root_id@
            == post_first.nodes@[k].root_id@ by {
        let i = choose|i: int| 0 <= i < f.len() && f[i] == post_first.nodes@[k].span;
        assert(holds(post_any, f[i]));
        let m = choose|m: int| 0 <= m < post_any.nodes@.len() && (#[trigger] post_any.nodes@[m]).span == f[i];
        lemma_runs_agree_on_roots(f, post_first, post_any, i);
    }
    assert forall|m: int| 0 <= m < post_any.nodes@.len() implies exists|k: int|
        0 <= k < post_first.nodes@.len() && (#[trigger] post_any.nodes@[m]).span == (
        #[trigger] post_first.nodes@[k]).span && post_any.nodes@[m].root_id@
            == post_first.nodes@[k].root_id@ by {
        let i = choose|i: int| 0 <= i < f.len() && f[i] == post_any.nodes@[m].span;
        assert(holds(post_first, f[i]));
        let k = choose|k: int|
            0 <= k < post_first.nodes@.len() && (#[trigger] post_first.nodes@[k]).span == f[i];
        lemma_runs_agree_on_roots(f, post_first, post_any, i);
    }
}

proof fn lemma_all_orphans_survive(s: Seq<AmaruSpan>, cutoff: int)
    requires
        forall|k: int| 0 <= k < s.len() ==> (#[trigger] s[k]).start >= cutoff,
    ensures
        surviving_orphans(s, cutoff) == s,
    decreases s.len(),
{
    if s.len() > 0 {
        assert forall|k: int| 0 <= k < s.drop_last().len() implies (#[trigger] s.drop_last()[k]).start
            >= cutoff by {
            assert(s.drop_last()[k] == s[k]);
        }
        lemma_all_orphans_survive(s.drop_last(), cutoff);
        assert(s.drop_last().push(s.last()) =~= s);
    }
}

proof fn lemma_all_nodes_survive(
    s: Seq<crate::forest::SpanNode>,
    all: Seq<crate::forest::SpanNode>,
    cutoff: int,
)
    requires
        forall|k: int| 0 <= k < s.len() ==> !root_evicted(all, (#[trigger] s[k]).root_id@, cutoff),
    ensures
        surviving_nodes(s, all, cutoff) == s,
    decreases s.len(),
{
    if s.len() > 0 {
        assert forall|k: int| 0 <= k < s.drop_last().len() implies !root_evicted(
            all,
            (#[trigger] s.drop_last()[k]).root_id@,
            cutoff,
        ) by {
            assert(s.drop_last()[k] == s[k]);
        }
        lemma_all_nodes_survive(s.drop_last(), all, cutoff);
        assert(s.drop_last().push(s.last()) =~= s);
    }
}

/// Eviction is idempotent: a second eviction at the same instant removes
/// nothing and keeps every order.
pub proof fn lemma_eviction_is_idempotent(
    pre: TraceRequestHandler,
    now: u64,
    mid: TraceRequestHandler,
    post: TraceRequestHandler,
)
    requires
        pre.wf(),
        evict_step(pre, now, mid),
        evict_step(mid, now, post),
    ensures
        post.nodes@ == mid.nodes@,
        post.parent_to_orphans@ == mid.parent_to_orphans@,
{
    if now >= pre.expire_duration {
        let c = now - pre.expire_duration;
        lemma_all_orphans_survive(mid.parent_to_orphans@, c);
        assert forall|k: int| 0 <= k < mid.nodes@.len() implies !root_evicted(
            mid.nodes@,
            (#[trigger] mid.nodes@[k]).root_id@,
            c,
        ) by {
            if root_evicted(mid.nodes@, mid.nodes@[k].root_id@, c) {
                let r = choose|r: int|
                    0 <= r < mid.nodes@.len() && (#[trigger] mid.nodes@[r]).span.parent_id_opt is None
                        && mid.nodes@[r].span.span_id@ == mid.nodes@[k].root_id@ && trace_expired(
                        mid.nodes@,
                        mid.nodes@[r].span.trace_id@,
                        c,
                    );
                let e = choose|e: int|
                    0 <= e < mid.nodes@.len() && (#[trigger] mid.nodes@[e]).span.parent_id_opt is None
                        && mid.nodes@[e].span.trace_id@ == mid.nodes@[r].span.trace_id@
                        && mid.nodes@[e].span.start < c;
                let x = mid.nodes@[e];
                let z = choose|z: int| 0 <= z < pre.nodes@.len() && pre.nodes@[z] == x;
                assert(pre.nodes@[z] == x);
                assert(linked(pre.nodes@, pre.nodes@[z]));
                assert(trace_expired(pre.nodes@, x.span.trace_id@, c));
                assert(root_evicted(pre.nodes@, x.root_id@, c));
            }
        }
        lemma_all_nodes_survive(mid.nodes@, mid.nodes@, c);
    }
}

/// A span without a parent is filed as a root, never as a child, whatever the
/// forest held before: it never waits, a node holds it as the root of its own
/// tree, and its id maps to itself as its root.
pub proof fn lemma_root_span_is_filed_as_root(
    pre: TraceRequestHandler,
    span: AmaruSpan,
    post: TraceRequestHandler,
)
    requires
        pre.wf(),
        span.parent_id_opt is None,
        ingest_step(pre, span, post),
    ensures
        !post.parent_to_orphans@.contains(span),
        holds(post, span),
        has_root(post.nodes@, span.span_id@),
        root_of(post.nodes@, span.span_id@) == Some(span.span_id@),
        forall|k: int|
            0 <= k < post.nodes@.len() && (#[trigger] post.nodes@[k]).span == span
                ==> post.nodes@[k].root_id@ == span.span_id@,
{
    if post.parent_to_orphans@.contains(span) {
        let k = choose|k: int|
            0 <= k < post.parent_to_orphans@.len() && post.parent_to_orphans@[k] == span;
        assert(post.parent_to_orphans@[k].parent_id_opt is Some);
    }
    assert forall|k: int|
        0 <= k < post.nodes@.len() && (#[trigger] post.nodes@[k]).span == span
            implies post.nodes@[k].root_id@ == span.span_id@ by {
        assert(linked(post.nodes@, post.nodes@[k]));
    }
    let i = crate::forest::index_of(post.nodes@, span.span_id@);
    assert(post.nodes@[i].span == span);
    assert(holds(post, span));
    assert(has_root(post.nodes@, span.span_id@));
}

/// Orphan resolution is transitive: from an empty forest, a grandchild, then
/// its parent, then the root, each arriving before its own parent, all end up
/// attached in the root's tree, each under its parent, with nothing pending.
pub proof fn lemma_orphans_resolve_transitively(
    h0: TraceRequestHandler,
    g: AmaruSpan,
    h1: TraceRequestHandler,
    c: AmaruSpan,
    h2: TraceRequestHandler,
    r: AmaruSpan,
    h3: TraceRequestHandler,
)
    requires
        h0.wf(),
        h0.nodes@.len() == 0,
        h0.parent_to_orphans@.len() == 0,
        r.parent_id_opt is None,
        c.parent_id_opt matches Some(p) && p@ == r.span_id@,
        g.parent_id_opt matches Some(p) && p@ == c.span_id@,
        r.span_id@ != c.span_id@,
        r.span_id@ != g.span_id@,
        c.span_id@ != g.span_id@,
        ingest_step(h0, g, h1),
        ingest_step(h1, c, h2),
        ingest_step(h2, r, h3),
    ensures
        holds(h3, r),
        holds(h3, c),
        holds(h3, g),
        root_of(h3.nodes@, r.span_id@) == Some(r.span_id@),
        root_of(h3.nodes@, c.span_id@) == Some(r.span_id@),
        root_of(h3.nodes@, g.span_id@) == Some(r.span_id@),
        h3.parent_to_orphans@.len() == 0,
{
    // g and c wait: nothing is attached before r arrives
    assert(!has_id(h0.nodes@, c.span_id@));
    assert(h1.nodes@ == h0.nodes@);
    assert(!has_id(h1.nodes@, r.span_id@));
    assert(h2.nodes@ == h1.nodes@);
    assert(h2.nodes@.len() == 0);
    assert(h1.parent_to_orphans@ =~= seq![g]);
    assert(h2.parent_to_orphans@ =~= seq![g, c]);
    assert(h2.parent_to_orphans@[0] == g);
    assert(h2.parent_to_orphans@[1] == c);
    // r lands as a root
    assert(h3.nodes@[0].span == r);
    assert(has_id(h3.nodes@, r.span_id@));
    // every node holds one of the three spans
    assert forall|k: int| 0 <= k < h3.nodes@.len() implies {
        let s = (#[trigger] h3.nodes@[k]).span;
        s == r || s == c || s == g
    } by {
        if h2.parent_to_orphans@.contains(h3.nodes@[k].span) {
            let m = choose|m: int|
                0 <= m < h2.parent_to_orphans@.len() && h2.parent_to_orphans@[m] == h3.nodes@[k].span;
        }
    }
    // nothing waits any more: each waiting span's parent is attached
    if h3.parent_to_orphans@.len() > 0 {
        let o = h3.parent_to_orphans@[0];
        assert(h2.parent_to_orphans@.contains(o) || o == r);
        if h2.parent_to_orphans@.contains(o) {
            let m = choose|m: int| 0 <= m < h2.parent_to_orphans@.len() && h2.parent_to_orphans@[m] == o;
        }
        if o == g {
            assert(h3.parent_to_orphans@.contains(c) || has_id(h3.nodes@, c.span_id@)) by {
                assert(h2.parent_to_orphans@[1] == c);
            }
            if h3.parent_to_orphans@.contains(c) {
                let m = choose|m: int| 0 <= m < h3.parent_to_orphans@.len() && h3.parent_to_orphans@[m] == c;
                assert(!has_id(h3.nodes@, r.span_id@));
            }
        }
        assert(false);
    }
    assert(h2.parent_to_orphans@[1] == c);
    assert(h2.parent_to_orphans@[0] == g);
    assert(has_id(h3.nodes@, c.span_id@));
    assert(has_id(h3.nodes@, g.span_id@));
    let kr = 0int;
    let kc = choose|i: int| 0 <= i < h3.nodes@.len() && (#[trigger] h3.nodes@[i]).span.span_id@ == c.span_id@;
    let kg = choose|i: int| 0 <= i < h3.nodes@.len() && (#[trigger] h3.nodes@[i]).span.span_id@ == g.span_id@;
    assert(h3.nodes@[kc].span == c);
    assert(h3.nodes@[kg].span == g);
    assert(crate::forest::linked(h3.nodes@, h3.nodes@[kr]));
    assert(crate::forest::linked(h3.nodes@, h3.nodes@[kc]));
    assert(crate::forest::linked(h3.nodes@, h3.nodes@[kg]));
    assert(h3.nodes@[kc].root_id@ == r.span_id@) by {
        let j = choose|j: int|
            0 <= j < h3.nodes@.len() && (#[trigger] h3.nodes@[j]).span.span_id@ == r.span_id@
                && h3.nodes@[j].root_id@ == h3.nodes@[kc].root_id@;
        assert(j == kr);
    }
    assert(h3.nodes@[kg].root_id@ == r.span_id@) by {
        let j = choose|j: int|
            0 <= j < h3.nodes@.len() && (#[trigger] h3.nodes@[j]).span.span_id@ == c.span_id@
                && h3.nodes@[j].root_id@ == h3.nodes@[kg].root_id@;
        assert(j == kc);
    }
    assert(holds(h3, r));
    assert(holds(h3, c));
    assert(holds(h3, g));
}

/// Eviction takes whole traces: when one root of a trace started before the
/// cutoff, every root of that trace goes, however late it started, and no
/// node of their trees stays.
pub proof fn lemma_eviction_is_trace_atomic(
    pre: TraceRequestHandler,
    now: u64,
    post: TraceRequestHandler,
    a: int,
    b: int,
)
    requires
        pre.wf(),
        evict_step(pre, now, post),
        now >= pre.expire_duration,
        0 <= a < pre.nodes@.len(),
        0 <= b < pre.nodes@.len(),
        pre.nodes@[a].span.parent_id_opt is None,
        pre.nodes@[b].span.parent_id_opt is None,
        pre.nodes@[a].span.trace_id@ == pre.nodes@[b].span.trace_id@,
        pre.nodes@[a].span.start < now - pre.expire_duration,
    ensures
        !has_id(post.nodes@, pre.nodes@[a].span.span_id@),
        !has_id(post.nodes@, pre.nodes@[b].span.span_id@),
        forall|k: int|
            0 <= k < post.nodes@.len() ==> (#[trigger] post.nodes@[k]).root_id@
                != pre.nodes@[a].span.span_id@ && post.nodes@[k].root_id@ != pre.nodes@[b].span.span_id@,
{
    let cutoff = now - pre.expire_duration;
    let pa = pre.nodes@[a];
    let pb = pre.nodes@[b];
    assert(crate::forest::trace_expired(pre.nodes@, pa.span.trace_id@, cutoff));
    assert(crate::forest::linked(pre.nodes@, pa));
    assert(crate::forest::linked(pre.nodes@, pb));
    assert(crate::forest::root_evicted(pre.nodes@, pa.span.span_id@, cutoff));
    assert(crate::forest::root_evicted(pre.nodes@, pb.span.span_id@, cutoff));
    assert forall|k: int| 0 <= k < post.nodes@.len() implies (#[trigger] post.nodes@[k]).root_id@
        != pa.span.span_id@ && post.nodes@[k].root_id@ != pb.span.span_id@ by {}
    if has_id(post.nodes@, pa.span.span_id@) {
        let k = choose|k: int| 0 <= k < post.nodes@.len() && (#[trigger] post.nodes@[k]).span.span_id@ == pa.span.span_id@;
        let z = choose|z: int| 0 <= z < pre.nodes@.len() && pre.nodes@[z] == post.nodes@[k];
        assert(pre.nodes@[z].span.span_id@ == pa.span.span_id@);
        assert(z == a);
    }
    if has_id(post.nodes@, pb.span.span_id@) {
        let k = choose|k: int| 0 <= k < post.nodes@.len() && (#[trigger] post.nodes@[k]).span.span_id@ == pb.span.span_id@;
        let z = choose|z: int| 0 <= z < pre.nodes@.len() && pre.nodes@[z] == post.nodes@[k];
        assert(pre.nodes@[z].span.span_id@ == pb.span.span_id@);
        assert(z == b);
    }
}

/// Two views taken of the same forest, with no ingestion between them, read
/// the same trees, the same roots, and the same roots for every trace.
pub proof fn lemma_snapshots_agree(h: TraceRequestHandler, v1: FlamegraphData, v2: FlamegraphData)
    requires
        v1.nodes@ == h.nodes@,
        v2.nodes@ == h.nodes@,
    ensures
        v1.nodes@ == v2.nodes@,
        root_ids(v1.nodes@) == root_ids(v2.nodes@),
        forall|t: Seq<char>| trace_root_ids(v1.nodes@, t) == #[trigger] trace_root_ids(v2.nodes@, t),
{
}

} // verus!
