//! Ordering spans by their length.

use vstd::prelude::*;

verus! {

/// How many lines a span goes beyond its first: its last line less its first.
pub open spec fn span_len(span: (usize, usize)) -> int {
    span.1 - span.0
}

/// `sorted` with `span` put in behind every span that is no longer than it.
pub open spec fn insert_by_len(sorted: Seq<(usize, usize)>, span: (usize, usize)) -> Seq<
    (usize, usize),
>
    decreases sorted.len(),
{
    if sorted.len() == 0 {
        seq![span]
    } else if span_len(sorted.last()) <= span_len(span) {
        sorted.push(span)
    } else {
        insert_by_len(sorted.drop_last(), span).push(sorted.last())
    }
}

/// The spans in order of length, the shortest first, and spans of one
/// length in the order in which they came.
pub open spec fn sort_by_len(spans: Seq<(usize, usize)>) -> Seq<(usize, usize)>
    decreases spans.len(),
{
    if spans.len() == 0 {
        spans
    } else {
        insert_by_len(sort_by_len(spans.drop_last()), spans.last())
    }
}

/// Whether no span is followed by a shorter one.
pub open spec fn ordered_by_len(spans: Seq<(usize, usize)>) -> bool {
    forall|i: int, j: int|
        0 <= i <= j < spans.len() ==> span_len(#[trigger] spans[i]) <= span_len(#[trigger] spans[j])
}

/// Putting a span into its place is putting it at the position `at`, if
/// every span from there on is longer and none before is.
pub proof fn lemma_insert_at(sorted: Seq<(usize, usize)>, span: (usize, usize), at: int)
    requires
        0 <= at <= sorted.len(),
        forall|i: int| at <= i < sorted.len() ==> span_len(#[trigger] sorted[i]) > span_len(span),
        at > 0 ==> span_len(sorted[at - 1]) <= span_len(span),
    ensures
        insert_by_len(sorted, span) == sorted.insert(at, span),
    decreases sorted.len() - at,
{
    if at == sorted.len() {
        assert(sorted.insert(at, span) =~= sorted.push(span));
    } else {
        let front = sorted.drop_last();
        assert(span_len(sorted[sorted.len() - 1]) > span_len(span));
        if at > 0 {
            assert(front[at - 1] == sorted[at - 1]);
        }
        assert forall|i: int| at <= i < front.len() implies span_len(#[trigger] front[i])
            > span_len(span) by {
            assert(front[i] == sorted[i]);
        }
        lemma_insert_at(front, span, at);
        assert(front.insert(at, span).push(sorted.last()) =~= sorted.insert(at, span));
    }
}

/// Putting a span into its place keeps the order and adds just that span.
pub proof fn lemma_insert_by_len(sorted: Seq<(usize, usize)>, span: (usize, usize))
    requires
        ordered_by_len(sorted),
    ensures
        ordered_by_len(insert_by_len(sorted, span)),
        insert_by_len(sorted, span).to_multiset() == sorted.to_multiset().insert(span),
        insert_by_len(sorted, span).len() == sorted.len() + 1,
    decreases sorted.len(),
{
    broadcast use vstd::seq_lib::group_to_multiset_ensures;

    if sorted.len() == 0 {
        assert(seq![span] =~= sorted.push(span));
    } else if span_len(sorted.last()) <= span_len(span) {
        let out = sorted.push(span);
        assert forall|i: int, j: int| 0 <= i <= j < out.len() implies span_len(#[trigger] out[i])
            <= span_len(#[trigger] out[j]) by {
            if j < sorted.len() {
                assert(out[i] == sorted[i] && out[j] == sorted[j]);
            } else if i < sorted.len() {
                assert(out[i] == sorted[i]);
                assert(span_len(sorted[i]) <= span_len(sorted[sorted.len() - 1]));
            }
        }
    } else {
        let front = sorted.drop_last();
        assert forall|i: int, j: int| 0 <= i <= j < front.len() implies span_len(
            #[trigger] front[i],
        ) <= span_len(#[trigger] front[j]) by {
            assert(front[i] == sorted[i] && front[j] == sorted[j]);
        }
        lemma_insert_by_len(front, span);
        let mid = insert_by_len(front, span);
        let out = mid.push(sorted.last());
        assert(sorted =~= front.push(sorted.last()));
        assert forall|i: int| 0 <= i < mid.len() implies span_len(#[trigger] mid[i]) <= span_len(
            sorted.last(),
        ) by {
            assert(mid.to_multiset().count(mid[i]) > 0);
            if mid[i] != span {
                assert(front.to_multiset().count(mid[i]) > 0);
                let k = choose|k: int| 0 <= k < front.len() && front[k] == mid[i];
                assert(sorted[k] == mid[i]);
                assert(span_len(sorted[k]) <= span_len(sorted[sorted.len() - 1]));
            }
        }
        assert forall|i: int, j: int| 0 <= i <= j < out.len() implies span_len(#[trigger] out[i])
            <= span_len(#[trigger] out[j]) by {
            if j < mid.len() {
                assert(out[i] == mid[i] && out[j] == mid[j]);
            } else if i < mid.len() {
                assert(out[i] == mid[i]);
            }
        }
        assert(out.to_multiset() =~= sorted.to_multiset().insert(span));
    }
}

/// Sorting gives the same spans, none followed by a shorter one.
pub proof fn lemma_sort_by_len(spans: Seq<(usize, usize)>)
    ensures
        ordered_by_len(sort_by_len(spans)),
        sort_by_len(spans).to_multiset() == spans.to_multiset(),
        sort_by_len(spans).len() == spans.len(),
    decreases spans.len(),
{
    broadcast use vstd::seq_lib::group_to_multiset_ensures;

    if spans.len() > 0 {
        lemma_sort_by_len(spans.drop_last());
        lemma_insert_by_len(sort_by_len(spans.drop_last()), spans.last());
        assert(spans =~= spans.drop_last().push(spans.last()));
    }
}

/// Sorts spans by length, the shortest first, keeping spans of one length
/// in their order.
pub fn sorted_by_len(spans: &Vec<(usize, usize)>) -> (sorted: Vec<(usize, usize)>)
    requires
        forall|i: int| 0 <= i < spans@.len() ==> (#[trigger] spans@[i]).0 <= spans@[i].1,
    ensures
        sorted@ == sort_by_len(spans@),
        sorted@.len() == spans@.len(),
{
    let mut sorted: Vec<(usize, usize)> = Vec::new();
    let mut k: usize = 0;
    proof {
        assert(spans@.take(0) =~= Seq::<(usize, usize)>::empty());
    }
    while k < spans.len()
        invariant
            k <= spans@.len(),
            sorted@ == sort_by_len(spans@.take(k as int)),
            sorted@.len() == k,
            forall|i: int| 0 <= i < spans@.len() ==> (#[trigger] spans@[i]).0 <= spans@[i].1,
            forall|i: int| 0 <= i < sorted@.len() ==> (#[trigger] sorted@[i]).0 <= sorted@[i].1,
        decreases spans@.len() - k,
    {
        let span: (usize, usize) = spans[k];
        let len: usize = span.1 - span.0;
        let mut at: usize = sorted.len();
        while at > 0 && sorted[at - 1].1 - sorted[at - 1].0 > len
            invariant
                at <= sorted@.len(),
                len == span_len(span),
                forall|i: int| 0 <= i < sorted@.len() ==> (#[trigger] sorted@[i]).0 <= sorted@[i].1,
                forall|i: int|
                    at <= i < sorted@.len() ==> span_len(#[trigger] sorted@[i]) > span_len(span),
            decreases at,
        {
            at = at - 1;
        }
        proof {
            lemma_insert_at(sorted@, span, at as int);
            let upto = spans@.take(k + 1);
            assert(upto.drop_last() =~= spans@.take(k as int));
            assert(upto.last() == span);
        }
        sorted.insert(at, span);
        k = k + 1;
    }
    proof {
        assert(spans@.take(spans@.len() as int) =~= spans@);
    }
    sorted
}

} // verus!
