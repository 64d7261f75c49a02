//! Half-open sample intervals and the rule that a set of them tiles `[0, end)`: sorted by
//! start (then end), each one non-empty and starting exactly where the previous one ended.

use vstd::prelude::*;
use vstd::relations::*;

verus! {

broadcast use vstd::seq_lib::group_seq_properties;

/// The lexicographic order on `(start, end)` pairs that `sort_unstable` uses.
pub open spec fn span_leq(a: (u64, u64), b: (u64, u64)) -> bool {
    a.0 < b.0 || (a.0 == b.0 && a.1 <= b.1)
}

/// `span_leq` as a relation.
pub open spec fn span_order() -> spec_fn((u64, u64), (u64, u64)) -> bool {
    |a: (u64, u64), b: (u64, u64)| span_leq(a, b)
}

/// The spans in sorted order.
pub open spec fn sorted_spans(spans: Seq<(u64, u64)>) -> Seq<(u64, u64)> {
    spans.sort_by(span_order())
}

/// Walk sorted spans from `cursor`: `None` when each span is non-empty and starts where the
/// previous one ended, else `Some` of the sample where the walk broke (`min(cursor, start)`).
pub open spec fn chain_break(p: Seq<(u64, u64)>, cursor: u64) -> Option<u64>
    decreases p.len(),
{
    if p.len() == 0 {
        None
    } else if p[0].0 != cursor || p[0].1 <= p[0].0 {
        Some(if cursor <= p[0].0 { cursor } else { p[0].0 })
    } else {
        chain_break(p.drop_first(), p[0].1)
    }
}

/// Where an unbroken walk from `cursor` ends.
pub open spec fn chain_end(p: Seq<(u64, u64)>, cursor: u64) -> u64
    decreases p.len(),
{
    if p.len() == 0 {
        cursor
    } else {
        chain_end(p.drop_first(), p[0].1)
    }
}

/// The spans tile `[0, e)` for some `e`: no hole and no overlap.
pub open spec fn tiles(spans: Seq<(u64, u64)>) -> bool {
    chain_break(sorted_spans(spans), 0) is None
}

pub proof fn lemma_span_leq_total()
    ensures
        total_ordering(span_order()),
{
}

/// Two sorted arrangements of the same multiset of spans are the same sequence.
pub proof fn lemma_sorted_unique(a: Seq<(u64, u64)>, b: Seq<(u64, u64)>)
    requires
        sorted_by(a, span_order()),
        sorted_by(b, span_order()),
        a.to_multiset() == b.to_multiset(),
    ensures
        a == b,
    decreases a.len(),
{
    broadcast use vstd::seq_lib::group_to_multiset_ensures;
    broadcast use vstd::multiset::group_multiset_axioms;

    assert(a.len() == a.to_multiset().len());
    assert(b.len() == b.to_multiset().len());
    if a.len() == 0 {
        assert(a =~= b);
    } else {
        let x = a[0];
        let y = b[0];
        assert(a.to_multiset().count(x) > 0);
        assert(b.contains(x));
        let j = choose|j: int| 0 <= j < b.len() && b[j] == x;
        assert(span_leq(y, x)) by {
            if j > 0 {
                assert(span_order()(b[0], b[j]));
            }
        }
        assert(b.to_multiset().count(y) > 0);
        assert(a.contains(y));
        let k = choose|k: int| 0 <= k < a.len() && a[k] == y;
        assert(span_leq(x, y)) by {
            if k > 0 {
                assert(span_order()(a[0], a[k]));
            }
        }
        assert(x == y);
        let a1 = a.remove(0);
        let b1 = b.remove(0);
        assert(a1.to_multiset() == a.to_multiset().remove(x));
        assert(b1.to_multiset() == b.to_multiset().remove(y));
        assert(sorted_by(a1, span_order())) by {
            assert forall|i: int, j: int| 0 <= i < j < a1.len() implies span_order()(a1[i], a1[j]) by {
                assert(a1[i] == a[i + 1] && a1[j] == a[j + 1]);
            }
        }
        assert(sorted_by(b1, span_order())) by {
            assert forall|i: int, j: int| 0 <= i < j < b1.len() implies span_order()(b1[i], b1[j]) by {
                assert(b1[i] == b[i + 1] && b1[j] == b[j + 1]);
            }
        }
        lemma_sorted_unique(a1, b1);
        assert(a =~= seq![x] + a1);
        assert(b =~= seq![y] + b1);
    }
}

/// The sorted arrangement of `spans` is any sorted permutation of it.
pub proof fn lemma_sorted_spans_is(spans: Seq<(u64, u64)>, p: Seq<(u64, u64)>)
    requires
        sorted_by(p, span_order()),
        p.to_multiset() == spans.to_multiset(),
    ensures
        sorted_spans(spans) == p,
{
    lemma_span_leq_total();
    spans.lemma_sort_by_ensures(span_order());
    lemma_sorted_unique(sorted_spans(spans), p);
}

/// Facts about an unbroken walk: every span is non-empty, ends at or before the walk's end, and
/// the walk ends at `cursor` or at the end of one of its spans.
pub proof fn lemma_chain_facts(p: Seq<(u64, u64)>, cursor: u64)
    requires
        chain_break(p, cursor) is None,
    ensures
        chain_end(p, cursor) >= cursor,
        forall|i: int| 0 <= i < p.len() ==> (#[trigger] p[i]).0 < p[i].1 && p[i].1 <= chain_end(p, cursor),
        p.len() == 0 ==> chain_end(p, cursor) == cursor,
        p.len() > 0 ==> exists|i: int| 0 <= i < p.len() && (#[trigger] p[i]).1 == chain_end(p, cursor),
    decreases p.len(),
{
    if p.len() > 0 {
        let rest = p.drop_first();
        lemma_chain_facts(rest, p[0].1);
        assert forall|i: int| 0 <= i < p.len() implies (#[trigger] p[i]).0 < p[i].1 && p[i].1 <= chain_end(p, cursor) by {
            if i > 0 {
                assert(p[i] == rest[i - 1]);
            }
        }
        if rest.len() > 0 {
            let j = choose|j: int| 0 <= j < rest.len() && (#[trigger] rest[j]).1 == chain_end(rest, p[0].1);
            assert(p[j + 1] == rest[j]);
        } else {
            assert(p[0].1 == chain_end(p, cursor));
        }
    }
}

/// Extending an unbroken walk by one span checks only that span against the walk's end.
pub proof fn lemma_chain_push(p: Seq<(u64, u64)>, cursor: u64, x: (u64, u64))
    requires
        chain_break(p, cursor) is None,
    ensures
        chain_break(p.push(x), cursor) == chain_break(seq![x], chain_end(p, cursor)),
        chain_break(p.push(x), cursor) is None ==> chain_end(p.push(x), cursor) == x.1,
    decreases p.len(),
{
    if p.len() == 0 {
        assert(p.push(x) =~= seq![x]);
        assert(seq![x].drop_first() =~= Seq::<(u64, u64)>::empty());
        assert(chain_end(seq![x], cursor) == chain_end(Seq::<(u64, u64)>::empty(), x.1));
    } else {
        assert(p.push(x).drop_first() =~= p.drop_first().push(x));
        assert(p.push(x)[0] == p[0]);
        lemma_chain_push(p.drop_first(), p[0].1, x);
        assert(chain_end(p, cursor) == chain_end(p.drop_first(), p[0].1));
    }
}

/// Adding a span that starts where a tiling ends and is non-empty keeps it a tiling, whose end
/// moves to the new span's end.
pub proof fn lemma_tiles_extend(before: Seq<(u64, u64)>, after: Seq<(u64, u64)>, x: (u64, u64))
    requires
        tiles(before),
        x.0 == chain_end(sorted_spans(before), 0),
        x.0 < x.1,
        after.to_multiset() == before.to_multiset().insert(x),
    ensures
        tiles(after),
        chain_end(sorted_spans(after), 0) == x.1,
{
    broadcast use vstd::seq_lib::group_to_multiset_ensures;

    let sb = sorted_spans(before);
    lemma_span_leq_total();
    before.lemma_sort_by_ensures(span_order());
    lemma_chain_facts(sb, 0);
    let q = sb.push(x);
    assert(sorted_by(q, span_order())) by {
        assert forall|i: int, j: int| 0 <= i < j < q.len() implies span_order()(q[i], q[j]) by {
            if j < sb.len() {
                assert(span_order()(sb[i], sb[j]));
            } else {
                assert(sb[i].0 < sb[i].1);
            }
        }
    }
    assert(q.to_multiset() == sb.to_multiset().insert(x));
    lemma_sorted_spans_is(after, q);
    lemma_chain_push(sb, 0, x);
    assert(seq![x].drop_first() =~= Seq::<(u64, u64)>::empty());
    assert(chain_break(seq![x], x.0) == chain_break(Seq::<(u64, u64)>::empty(), x.1));
}

/// Sort spans into the order `sorted_spans` describes.
pub fn sort_spans(spans: Vec<(u64, u64)>) -> (p: Vec<(u64, u64)>)
    ensures
        p@ == sorted_spans(spans@),
{
    broadcast use vstd::seq_lib::group_to_multiset_ensures;
    broadcast use vstd::multiset::group_multiset_axioms;

    let mut p: Vec<(u64, u64)> = Vec::new();
    let mut i: usize = 0;
    while i < spans.len()
        invariant
            i <= spans@.len(),
            sorted_by(p@, span_order()),
            p@.to_multiset() == spans@.take(i as int).to_multiset(),
        decreases spans@.len() - i,
    {
        let x = spans[i];
        let mut j: usize = 0;
        while j < p.len() && (p[j].0 < x.0 || (p[j].0 == x.0 && p[j].1 <= x.1))
            invariant
                j <= p@.len(),
                forall|k: int| 0 <= k < j ==> span_leq(#[trigger] p@[k], x),
            decreases p@.len() - j,
        {
            j += 1;
        }
        let ghost before = p@;
        proof {
            assert forall|k: int| j <= k < before.len() implies span_leq(x, #[trigger] before[k]) by {
                assert(!span_leq(before[j as int], x));
                if k > j {
                    assert(span_order()(before[j as int], before[k]));
                }
            }
        }
        p.insert(j, x);
        proof {
            assert(p@ == before.insert(j as int, x));
            assert(p@.remove(j as int) =~= before);
            assert(p@.to_multiset().remove(x) == before.to_multiset());
            assert(p@.to_multiset().count(x) > 0);
            assert(p@.to_multiset() =~= before.to_multiset().insert(x));
            assert(spans@.take(i + 1) =~= spans@.take(i as int).push(x));
            assert forall|a: int, b: int| 0 <= a < b < p@.len() implies span_order()(p@[a], p@[b]) by {
                if b < j {
                    assert(p@[a] == before[a] && p@[b] == before[b]);
                    assert(span_order()(before[a], before[b]));
                } else if b == j {
                    assert(p@[a] == before[a]);
                } else if a == j {
                    assert(p@[b] == before[b - 1]);
                } else if a < j {
                    assert(p@[a] == before[a] && p@[b] == before[b - 1]);
                    assert(span_leq(before[a], x));
                    assert(span_leq(x, before[b - 1]));
                } else {
                    assert(p@[a] == before[a - 1] && p@[b] == before[b - 1]);
                    assert(span_order()(before[a - 1], before[b - 1]));
                }
            }
        }
        i += 1;
    }
    proof {
        assert(spans@.take(spans@.len() as int) =~= spans@);
        lemma_sorted_spans_is(spans@, p@);
    }
    p
}

/// Walk sorted spans from zero, as `chain_break` describes.
pub fn check_chain(p: &Vec<(u64, u64)>) -> (r: Option<u64>)
    ensures
        r == chain_break(p@, 0),
{
    let mut cursor: u64 = 0;
    let mut i: usize = 0;
    while i < p.len()
        invariant
            i <= p@.len(),
            chain_break(p@, 0) == chain_break(p@.skip(i as int), cursor),
        decreases p@.len() - i,
    {
        let (start, end) = p[i];
        assert(p@.skip(i as int)[0] == p@[i as int]);
        assert(p@.skip(i as int).drop_first() == p@.skip(i + 1));
        if start != cursor || end <= start {
            return Some(if cursor <= start { cursor } else { start });
        }
        cursor = end;
        i += 1;
    }
    assert(p@.skip(i as int).len() == 0);
    None
}

} // verus!
