//! Half-open byte spans `[start, end)` and the merging of touching or
//! overlapping spans into a minimal covering list.
use vstd::prelude::*;

verus! {

/// The larger of two offsets.
pub open spec fn max_end(a: usize, b: usize) -> usize {
    if a >= b {
        a
    } else {
        b
    }
}

/// A span whose start does not lie past its end.
pub open spec fn span_wf(s: (usize, usize)) -> bool {
    s.0 <= s.1
}

/// Every span of the list is well formed.
pub open spec fn all_wf(spans: Seq<(usize, usize)>) -> bool {
    forall|i: int| 0 <= i < spans.len() ==> span_wf(#[trigger] spans[i])
}

/// Starts never decrease along the list, the order in which a scanner of a
/// document hands out its ranges.
pub open spec fn starts_ascending(spans: Seq<(usize, usize)>) -> bool {
    forall|i: int, j: int| 0 <= i <= j < spans.len() ==> spans[i].0 <= spans[j].0
}

/// Each span ends strictly before the next one starts: no two neighbours
/// touch or overlap.
pub open spec fn separated(spans: Seq<(usize, usize)>) -> bool {
    forall|i: int| 0 <= i < spans.len() - 1 ==> #[trigger] spans[i].1 < spans[i + 1].0
}

/// Each span starts strictly after the one before it.
pub open spec fn strictly_ascending(spans: Seq<(usize, usize)>) -> bool {
    forall|i: int| 0 <= i < spans.len() - 1 ==> #[trigger] spans[i].0 < spans[i + 1].0
}

/// Byte `b` lies in some span of the list.
pub open spec fn covers(spans: Seq<(usize, usize)>, b: int) -> bool {
    exists|i: int| 0 <= i < spans.len() && spans[i].0 <= b < #[trigger] spans[i].1
}

/// The merge of a span list, taken span by span in list order: a span that
/// starts at or before the end of the last merged span extends that span's
/// end to the larger of the two ends; any other span is appended as is.
pub open spec fn merged(spans: Seq<(usize, usize)>) -> Seq<(usize, usize)>
    decreases spans.len(),
{
    if spans.len() == 0 {
        seq![]
    } else {
        let prev = merged(spans.drop_last());
        let c = spans.last();
        if prev.len() > 0 && c.0 <= prev.last().1 {
            prev.update(prev.len() - 1, (prev.last().0, max_end(prev.last().1, c.1)))
        } else {
            prev.push(c)
        }
    }
}

/// Merges touching or overlapping neighbours of `spans`, taken in list order.
pub fn join_adjacent_spans(spans: Vec<(usize, usize)>) -> (r: Vec<(usize, usize)>)
    ensures
        r@ == merged(spans@),
        separated(r@),
        all_wf(spans@) ==> strictly_ascending(r@),
{
    let mut out: Vec<(usize, usize)> = Vec::new();
    let n = spans.len();
    let mut i: usize = 0;
    while i < n
        invariant
            n == spans.len(),
            i <= n,
            out@ == merged(spans@.take(i as int)),
        decreases n - i,
    {
        let (start, end) = spans[i];
        proof {
            assert(spans@.take(i + 1).drop_last() == spans@.take(i as int));
        }
        let len = out.len();
        if len > 0 && start <= out[len - 1].1 {
            let (prev_start, prev_end) = out[len - 1];
            let new_end = if prev_end >= end {
                prev_end
            } else {
                end
            };
            out.set(len - 1, (prev_start, new_end));
        } else {
            out.push((start, end));
        }
        i = i + 1;
    }
    proof {
        assert(spans@.take(n as int) == spans@);
        lemma_merged_separated(spans@);
        if all_wf(spans@) {
            lemma_merged_strictly_ascending(spans@);
        }
    }
    out
}

/// A merged list never holds two spans that touch or overlap.
pub proof fn lemma_merged_separated(spans: Seq<(usize, usize)>)
    ensures
        separated(merged(spans)),
    decreases spans.len(),
{
    if spans.len() > 0 {
        lemma_merged_separated(spans.drop_last());
    }
}

/// Merging keeps every span well formed.
pub proof fn lemma_merged_wf(spans: Seq<(usize, usize)>)
    requires
        all_wf(spans),
    ensures
        all_wf(merged(spans)),
    decreases spans.len(),
{
    if spans.len() > 0 {
        lemma_merged_wf(spans.drop_last());
    }
}

/// Merging well-formed spans gives spans in strictly ascending order of
/// their starts.
pub proof fn lemma_merged_strictly_ascending(spans: Seq<(usize, usize)>)
    requires
        all_wf(spans),
    ensures
        strictly_ascending(merged(spans)),
{
    lemma_merged_separated(spans);
    lemma_merged_wf(spans);
    let m = merged(spans);
    assert forall|i: int| 0 <= i < m.len() - 1 implies #[trigger] m[i].0 < m[i + 1].0 by {
        assert(span_wf(m[i]));
    }
}

/// A list with no touching or overlapping neighbours is its own merge.
pub proof fn lemma_merged_of_separated(spans: Seq<(usize, usize)>)
    requires
        separated(spans),
    ensures
        merged(spans) == spans,
    decreases spans.len(),
{
    if spans.len() > 0 {
        let p = spans.drop_last();
        assert(separated(p)) by {
            assert forall|i: int| 0 <= i < p.len() - 1 implies #[trigger] p[i].1 < p[i + 1].0 by {
                assert(spans[i].1 < spans[i + 1].0);
            }
        }
        lemma_merged_of_separated(p);
        if p.len() > 0 {
            assert(spans[p.len() - 1].1 < spans[p.len() as int].0);
        }
        assert(p.push(spans.last()) == spans);
    }
}

/// Merging is idempotent: merging an already merged list gives it back
/// unchanged.
pub proof fn lemma_merge_idempotent(spans: Seq<(usize, usize)>)
    ensures
        merged(merged(spans)) == merged(spans),
{
    lemma_merged_separated(spans);
    lemma_merged_of_separated(merged(spans));
}

/// The last merged span starts no later than the last input span.
proof fn lemma_merged_last_start(spans: Seq<(usize, usize)>)
    requires
        spans.len() > 0,
        starts_ascending(spans),
    ensures
        merged(spans).len() > 0,
        merged(spans).last().0 <= spans.last().0,
    decreases spans.len(),
{
    let p = spans.drop_last();
    let m = merged(p);
    if p.len() > 0 {
        lemma_merged_last_start(p);
        assert(p.last().0 <= spans.last().0);
        if spans.last().0 <= m.last().1 {
            assert(merged(spans)[m.len() - 1].0 == m.last().0);
        }
    }
}

/// Merging spans whose starts ascend keeps the bytes they cover: a byte lies
/// in a merged span exactly when it lies in an input span.
pub proof fn lemma_merge_preserves_coverage(spans: Seq<(usize, usize)>)
    requires
        starts_ascending(spans),
    ensures
        forall|b: int| covers(merged(spans), b) <==> covers(spans, b),
    decreases spans.len(),
{
    if spans.len() > 0 {
        let p = spans.drop_last();
        let c = spans.last();
        let m = merged(p);
        let r = merged(spans);
        lemma_merge_preserves_coverage(p);
        assert forall|b: int| covers(r, b) <==> covers(spans, b) by {
            if m.len() > 0 && c.0 <= m.last().1 {
                lemma_merged_last_start(p);
                let k = m.len() - 1;
                if covers(r, b) {
                    let i = choose|i: int| 0 <= i < r.len() && r[i].0 <= b < #[trigger] r[i].1;
                    if i < k {
                        assert(m[i].0 <= b < m[i].1);
                        assert(covers(m, b));
                        assert(covers(p, b));
                        let j = choose|j: int| 0 <= j < p.len() && p[j].0 <= b < #[trigger] p[j].1;
                        assert(spans[j] == p[j]);
                    } else if b < m[k].1 {
                        assert(m[k].0 <= b < m[k].1);
                        assert(covers(m, b));
                        assert(covers(p, b));
                        let j = choose|j: int| 0 <= j < p.len() && p[j].0 <= b < #[trigger] p[j].1;
                        assert(spans[j] == p[j]);
                    } else {
                        assert(spans[spans.len() - 1].0 <= b < spans[spans.len() - 1].1);
                    }
                }
                if covers(spans, b) {
                    let j = choose|j: int| 0 <= j < spans.len() && spans[j].0 <= b < #[trigger] spans[j].1;
                    if j < p.len() {
                        assert(p[j].0 <= b < p[j].1);
                        assert(covers(p, b));
                        let i = choose|i: int| 0 <= i < m.len() && m[i].0 <= b < #[trigger] m[i].1;
                        assert(r[i].0 <= b < r[i].1);
                    } else {
                        assert(r[k].0 <= b < r[k].1);
                    }
                }
            } else {
                if covers(r, b) {
                    let i = choose|i: int| 0 <= i < r.len() && r[i].0 <= b < #[trigger] r[i].1;
                    if i < m.len() {
                        assert(m[i].0 <= b < m[i].1);
                        assert(covers(m, b));
                        assert(covers(p, b));
                        let j = choose|j: int| 0 <= j < p.len() && p[j].0 <= b < #[trigger] p[j].1;
                        assert(spans[j] == p[j]);
                    } else {
                        assert(spans[spans.len() - 1].0 <= b < spans[spans.len() - 1].1);
                    }
                }
                if covers(spans, b) {
                    let j = choose|j: int| 0 <= j < spans.len() && spans[j].0 <= b < #[trigger] spans[j].1;
                    if j < p.len() {
                        assert(p[j].0 <= b < p[j].1);
                        assert(covers(p, b));
                        let i = choose|i: int| 0 <= i < m.len() && m[i].0 <= b < #[trigger] m[i].1;
                        assert(r[i].0 <= b < r[i].1);
                    } else {
                        assert(r[m.len() as int].0 <= b < r[m.len() as int].1);
                    }
                }
            }
        }
    }
}

} // verus!
