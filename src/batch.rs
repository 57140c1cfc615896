//! A buffering pre-filter: spans are buffered, the low-priority marker spans
//! are dropped, and each drain offers the rest, in order, to a bounded queue.
use crate::queue::BoundedQueue;
use crate::span::AmaruSpan;
use vstd::prelude::*;
use vstd::string::StringExecFns;

verus! {

/// The span name that marks a span as not worth keeping.
pub open spec fn is_low_priority(s: AmaruSpan) -> bool {
    s.name@ == "low_priority_event"@
}

/// The spans of `s` that are not low priority, in order.
pub open spec fn without_low_priority(s: Seq<AmaruSpan>) -> Seq<AmaruSpan>
    decreases s.len(),
{
    if s.len() == 0 {
        Seq::empty()
    } else {
        let rest = without_low_priority(s.drop_last());
        if is_low_priority(s.last()) {
            rest
        } else {
            rest.push(s.last())
        }
    }
}

/// How many items a queue of this capacity and length still takes.
pub open spec fn room(capacity: nat, len: nat) -> nat {
    if len >= capacity {
        0
    } else {
        (capacity - len) as nat
    }
}

pub struct BatchProcessor {
    pub buffer: Vec<AmaruSpan>,
}

impl BatchProcessor {
    /// An empty buffer, with room reserved for `capacity` spans.
    pub fn new(capacity: usize) -> (r: BatchProcessor)
        ensures
            r.buffer@.len() == 0,
    {
        BatchProcessor { buffer: Vec::with_capacity(capacity) }
    }

    /// Buffers the spans of the batch after those already buffered.
    pub fn push_batch(&mut self, batch: Vec<AmaruSpan>)
        ensures
            final(self).buffer@ == old(self).buffer@ + batch@,
    {
        let mut batch = batch;
        self.buffer.append(&mut batch);
    }

    /// Empties the buffer: the low-priority spans are dropped, and the others,
    /// oldest first, are offered to `out`. Those that `out` has no room for
    /// are handed back, in order, rather than dropped.
    pub fn drain_filtered_into(&mut self, out: &mut BoundedQueue<AmaruSpan>) -> (refused: Vec<
        AmaruSpan,
    >)
        ensures
            final(self).buffer@.len() == 0,
            ({
                let kept = without_low_priority(old(self).buffer@);
                let n = if kept.len() <= room(old(out).spec_capacity(), old(out)@.len()) {
                    kept.len()
                } else {
                    room(old(out).spec_capacity(), old(out)@.len())
                };
                &&& final(out)@ == old(out)@ + kept.subrange(0, n as int)
                &&& refused@ == kept.subrange(n as int, kept.len() as int)
            }),
            final(out).spec_capacity() == old(out).spec_capacity(),
    {
        let marker = String::from_str("low_priority_event");
        let mut kept: Vec<AmaruSpan> = Vec::new();
        let mut i: usize = 0;
        while i < self.buffer.len()
            invariant
                i <= self.buffer@.len(),
                marker@ == "low_priority_event"@,
                kept@ == without_low_priority(self.buffer@.subrange(0, i as int)),
            decreases self.buffer@.len() - i,
        {
            if self.buffer[i].name != marker {
                kept.push(self.buffer[i].copy());
            }
            proof {
                assert(self.buffer@.subrange(0, i + 1).drop_last() =~= self.buffer@.subrange(0, i as int));
            }
            i += 1;
        }
        assert(self.buffer@.subrange(0, self.buffer@.len() as int) =~= self.buffer@);
        self.buffer = Vec::new();
        let ghost out0 = out@;
        let mut refused: Vec<AmaruSpan> = Vec::new();
        let mut i: usize = 0;
        while i < kept.len()
            invariant
                i <= kept@.len(),
                out.spec_capacity() == old(out).spec_capacity(),
                ({
                    let n = if i <= room(out.spec_capacity(), out0.len()) {
                        i as nat
                    } else {
                        room(out.spec_capacity(), out0.len())
                    };
                    &&& out@ == out0 + kept@.subrange(0, n as int)
                    &&& refused@ == kept@.subrange(n as int, i as int)
                }),
            decreases kept@.len() - i,
        {
            match out.push(kept[i].copy()) {
                Ok(()) => {},
                Err(s) => {
                    refused.push(s);
                },
            }
            proof {
                let n0 = if i <= room(out.spec_capacity(), out0.len()) {
                    i as nat
                } else {
                    room(out.spec_capacity(), out0.len())
                };
                if i + 1 <= room(out.spec_capacity(), out0.len()) {
                    assert(out@ =~= out0 + kept@.subrange(0, i + 1));
                    assert(refused@ =~= kept@.subrange(i + 1, i + 1));
                } else {
                    assert(out@ =~= out0 + kept@.subrange(0, n0 as int));
                    assert(refused@ =~= kept@.subrange(n0 as int, i + 1));
                }
            }
            i += 1;
        }
        refused
    }

    /// Whether the buffer holds at least `capacity` spans.
    pub fn is_full(&self, capacity: usize) -> (r: bool)
        ensures
            r == (self.buffer@.len() >= capacity),
    {
        self.buffer.len() >= capacity
    }
}

} // verus!
