//! Half-open ranges of bytes or sectors, and how a list of them is merged.

use vstd::prelude::*;

verus! {

/// The range from `start` up to, but without, `end`.
#[derive(Clone, Copy)]
pub struct Span {
    pub start: u64,
    pub end: u64,
}

/// Whether a span reaches past `start` and begins before `end`.
///
/// For a query that is not empty this means that the two share a position, or that an empty span
/// lies strictly inside the query.
pub open spec fn hits(span: Span, start: int, end: int) -> bool {
    span.end > start && span.start < end
}

/// Whether one of the spans hits the query.
pub open spec fn any_hits(spans: Seq<Span>, start: int, end: int) -> bool {
    exists|i: int| 0 <= i < spans.len() && hits(#[trigger] spans[i], start, end)
}

/// Whether no span ends before it starts.
pub open spec fn ordered(spans: Seq<Span>) -> bool {
    forall|i: int| 0 <= i < spans.len() ==> (#[trigger] spans[i]).start <= spans[i].end
}

/// Whether the spans follow each other with a gap between any two.
pub open spec fn separated(spans: Seq<Span>) -> bool {
    forall|i: int, j: int|
        0 <= i < j < spans.len() ==> (#[trigger] spans[i]).end < (#[trigger] spans[j]).start
}

/// Whether two lists of spans are hit by the same queries that are not empty.
pub open spec fn same_coverage(a: Seq<Span>, b: Seq<Span>) -> bool {
    forall|start: int, end: int|
        start < end ==> #[trigger] any_hits(a, start, end) == any_hits(b, start, end)
}

/// Whether `merged` is the canonical form of `spans`: the same coverage, in ascending order,
/// with everything that overlaps or touches joined.
pub open spec fn is_merge_of(merged: Seq<Span>, spans: Seq<Span>) -> bool {
    &&& ordered(merged)
    &&& separated(merged)
    &&& same_coverage(merged, spans)
}

/// Whether no span is empty and all lie between `low` and `high`.
pub open spec fn proper(spans: Seq<Span>, low: int, high: int) -> bool {
    forall|i: int|
        0 <= i < spans.len() ==> low <= (#[trigger] spans[i]).start < spans[i].end <= high
}

/// Sorts with `slice::sort_unstable_by_key` of std, which keeps the elements and puts them in
/// ascending order of the key; the order of elements with equal keys is left open.
#[verifier::external_body]
fn sort_by_start(spans: &mut Vec<Span>)
    ensures
        final(spans)@.to_multiset() == old(spans)@.to_multiset(),
        forall|i: int, j: int|
            0 <= i < j < final(spans)@.len() ==> (#[trigger] final(spans)@[i]).start <= (
            #[trigger] final(spans)@[j]).start,
{
    spans.sort_unstable_by_key(|s| s.start)
}

/// Merges the spans that overlap or touch.
pub fn merge_spans(spans: Vec<Span>) -> (merged: Vec<Span>)
    requires
        ordered(spans@),
    ensures
        is_merge_of(merged@, spans@),
        spans@.len() > 0 ==> merged@.len() > 0,
        forall|low: int, high: int|
            proper(spans@, low, high) ==> #[trigger] proper(merged@, low, high),
{
    let mut sorted: Vec<Span> = spans;
    sort_by_start(&mut sorted);
    proof {
        lemma_same_elements(sorted@, spans@);
    }
    let mut merged: Vec<Span> = Vec::new();
    let mut i: usize = 0;
    while i < sorted.len()
        invariant
            i <= sorted@.len(),
            ordered(sorted@),
            forall|a: int, b: int|
                0 <= a < b < sorted@.len() ==> (#[trigger] sorted@[a]).start <= (
                #[trigger] sorted@[b]).start,
            ordered(merged@),
            separated(merged@),
            same_coverage(merged@, sorted@.take(i as int)),
            i == 0 <==> merged@.len() == 0,
            i > 0 ==> merged@.last().start <= sorted@[i - 1].start,
            forall|low: int, high: int|
                proper(sorted@, low, high) ==> #[trigger] proper(merged@, low, high),
        decreases sorted@.len() - i,
    {
        let r: Span = sorted[i];
        let ghost before = merged@;
        let ghost prefix = sorted@.take(i as int);
        proof {
            if i > 0 {
                assert(sorted@[i - 1].start <= sorted@[i as int].start);
            }
        }
        let joins: bool = merged.len() > 0 && r.start <= merged[merged.len() - 1].end;
        if joins {
            let at: usize = merged.len() - 1;
            let last: Span = merged[at];
            let end: u64 = if r.end > last.end {
                r.end
            } else {
                last.end
            };
            merged[at] = Span { start: last.start, end };
        } else {
            merged.push(r);
        }
        i += 1;
        proof {
            assert forall|low: int, high: int| proper(sorted@, low, high) implies #[trigger] proper(
                merged@,
                low,
                high,
            ) by {
                assert(proper(before, low, high));
                assert(low <= sorted@[i - 1].start < sorted@[i - 1].end <= high);
            }
            assert(sorted@.take(i as int) =~= prefix.push(r));
            lemma_merge_step(before, merged@, prefix, r);
        }
    }
    assert(sorted@.take(i as int) =~= sorted@);
    merged
}

/// A span that is joined to the last one, or appended behind it, is covered as before.
proof fn lemma_merge_step(before: Seq<Span>, after: Seq<Span>, prefix: Seq<Span>, r: Span)
    requires
        same_coverage(before, prefix),
        separated(before),
        ordered(before),
        r.start <= r.end,
        before.len() > 0 ==> before.last().start <= r.start,
        if before.len() > 0 && r.start <= before.last().end {
            after == before.update(
                before.len() - 1,
                Span {
                    start: before.last().start,
                    end: if r.end > before.last().end {
                        r.end
                    } else {
                        before.last().end
                    },
                },
            )
        } else {
            after == before.push(r)
        },
    ensures
        same_coverage(after, prefix.push(r)),
{
    assert forall|s: int, e: int| s < e implies #[trigger] any_hits(after, s, e) == any_hits(
        prefix.push(r),
        s,
        e,
    ) by {
        let k = prefix.len() as int;
        assert(any_hits(before, s, e) == any_hits(prefix, s, e));
        assert(any_hits(prefix.push(r), s, e) == (any_hits(prefix, s, e) || hits(r, s, e))) by {
            if any_hits(prefix, s, e) {
                let i = choose|i: int|
                    0 <= i < prefix.len() && hits(#[trigger] prefix[i], s, e);
                assert(prefix.push(r)[i] == prefix[i]);
            }
            if hits(r, s, e) {
                assert(prefix.push(r)[k] == r);
            }
            if any_hits(prefix.push(r), s, e) {
                let i = choose|i: int|
                    0 <= i < prefix.push(r).len() && hits(#[trigger] prefix.push(r)[i], s, e);
                if i < k {
                    assert(prefix[i] == prefix.push(r)[i]);
                }
            }
        }
        let n = before.len() - 1;
        if before.len() > 0 && r.start <= before.last().end {
            if any_hits(after, s, e) {
                let i = choose|i: int| 0 <= i < after.len() && hits(#[trigger] after[i], s, e);
                if i < n {
                    assert(hits(before[i], s, e));
                } else if !hits(before[n], s, e) {
                    assert(hits(r, s, e));
                }
            }
            if any_hits(before, s, e) {
                let i = choose|i: int| 0 <= i < before.len() && hits(#[trigger] before[i], s, e);
                assert(hits(after[i], s, e));
            }
            if hits(r, s, e) {
                assert(hits(after[n], s, e));
            }
        } else {
            if any_hits(after, s, e) {
                let i = choose|i: int| 0 <= i < after.len() && hits(#[trigger] after[i], s, e);
                if i < before.len() {
                    assert(hits(before[i], s, e));
                }
            }
            if any_hits(before, s, e) {
                let i = choose|i: int| 0 <= i < before.len() && hits(#[trigger] before[i], s, e);
                assert(hits(after[i], s, e));
            }
            if hits(r, s, e) {
                assert(after[before.len() as int] == r);
            }
        }
    }
}

/// Two lists with the same elements, in whatever order, have the same coverage.
proof fn lemma_same_elements(a: Seq<Span>, b: Seq<Span>)
    requires
        a.to_multiset() == b.to_multiset(),
        ordered(b),
    ensures
        ordered(a),
        same_coverage(a, b),
        a.len() == b.len(),
        forall|low: int, high: int| proper(b, low, high) ==> #[trigger] proper(a, low, high),
{
    broadcast use vstd::seq_lib::group_to_multiset_ensures;

    a.to_multiset_ensures();
    b.to_multiset_ensures();
    assert forall|i: int| 0 <= i < a.len() implies (#[trigger] a[i]).start <= a[i].end by {
        assert(a.contains(a[i]));
        assert(b.to_multiset().count(a[i]) > 0);
        assert(b.contains(a[i]));
    }
    assert forall|low: int, high: int| proper(b, low, high) implies #[trigger] proper(
        a,
        low,
        high,
    ) by {
        assert forall|i: int| 0 <= i < a.len() implies low <= (#[trigger] a[i]).start < a[i].end
            <= high by {
            assert(a.contains(a[i]));
            assert(b.to_multiset().count(a[i]) > 0);
            assert(b.contains(a[i]));
        }
    }
    assert forall|s: int, e: int| s < e implies #[trigger] any_hits(a, s, e) == any_hits(
        b,
        s,
        e,
    ) by {
        if any_hits(a, s, e) {
            let i = choose|i: int| 0 <= i < a.len() && hits(#[trigger] a[i], s, e);
            assert(a.contains(a[i]));
            assert(b.to_multiset().count(a[i]) > 0);
            assert(b.contains(a[i]));
        }
        if any_hits(b, s, e) {
            let i = choose|i: int| 0 <= i < b.len() && hits(#[trigger] b[i], s, e);
            assert(b.contains(b[i]));
            assert(a.to_multiset().count(b[i]) > 0);
            assert(a.contains(b[i]));
        }
    }
}

} // verus!
