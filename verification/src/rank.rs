//! Ranking matches by confidence and thinning them out by distance.

use crate::score::{lemma_ge_total, lemma_ge_transitive};
use crate::search::MatchResult;
use vstd::prelude::*;
use vstd::seq_lib::{lemma_multiset_commutative, to_multiset_build, to_multiset_len};

verus! {

/// No match has a lower confidence than a match after it.
pub open spec fn sorted_desc(s: Seq<MatchResult>) -> bool {
    forall|i: int, j: int|
        0 <= i < j < s.len() ==> (#[trigger] s[i]).confidence@.ge((#[trigger] s[j]).confidence@)
}

/// Every confidence is a valid score.
pub open spec fn all_scored(s: Seq<MatchResult>) -> bool {
    forall|i: int| 0 <= i < s.len() ==> (#[trigger] s[i]).confidence.wf()
}

/// The distance of two coordinates.
pub open spec fn gap(a: int, b: int) -> int {
    if a >= b {
        a - b
    } else {
        b - a
    }
}

/// Two matches are far enough apart to be reported both: at least `half_w`
/// columns or at least `half_h` rows.
pub open spec fn separated(a: MatchResult, b: MatchResult, half_w: int, half_h: int) -> bool {
    gap(a.x as int, b.x as int) >= half_w || gap(a.y as int, b.y as int) >= half_h
}

/// `c` is far enough from every match in `kept`.
pub open spec fn clear_of(c: MatchResult, kept: Seq<MatchResult>, half_w: int, half_h: int) -> bool {
    forall|i: int| 0 <= i < kept.len() ==> separated(c, #[trigger] kept[i], half_w, half_h)
}

/// Every two matches are far enough apart.
pub open spec fn pairwise_separated(s: Seq<MatchResult>, half_w: int, half_h: int) -> bool {
    forall|i: int, j: int|
        0 <= i < j < s.len() ==> separated(#[trigger] s[i], #[trigger] s[j], half_w, half_h)
}

/// Non-maximum suppression: walking `ranked` from the front, a match is kept
/// if fewer than `limit` are kept already and it is far enough from each of
/// them.
pub open spec fn suppress(ranked: Seq<MatchResult>, half_w: int, half_h: int, limit: int) -> Seq<
    MatchResult,
>
    decreases ranked.len(),
{
    if ranked.len() == 0 {
        Seq::empty()
    } else {
        let kept = suppress(ranked.drop_last(), half_w, half_h, limit);
        if kept.len() < limit && clear_of(ranked.last(), kept, half_w, half_h) {
            kept.push(ranked.last())
        } else {
            kept
        }
    }
}

/// Once `limit` matches are kept, the rest of the ranking adds nothing.
pub proof fn lemma_suppress_full(
    ranked: Seq<MatchResult>,
    half_w: int,
    half_h: int,
    limit: int,
    n: int,
)
    requires
        0 <= n <= ranked.len(),
        suppress(ranked.take(n), half_w, half_h, limit).len() >= limit,
    ensures
        suppress(ranked, half_w, half_h, limit) == suppress(ranked.take(n), half_w, half_h, limit),
    decreases ranked.len() - n,
{
    if n < ranked.len() {
        assert(ranked.take(n + 1).drop_last() =~= ranked.take(n));
        lemma_suppress_full(ranked, half_w, half_h, limit, n + 1);
    } else {
        assert(ranked.take(n) =~= ranked);
    }
}

/// What suppression keeps: at most `limit` matches, each from the ranking and
/// in the ranking's order, every two of them far enough apart.
pub proof fn lemma_suppress_properties(
    ranked: Seq<MatchResult>,
    half_w: int,
    half_h: int,
    limit: int,
)
    requires
        sorted_desc(ranked),
    ensures
        suppress(ranked, half_w, half_h, limit).len() <= greatest_zero(limit),
        suppress(ranked, half_w, half_h, limit).len() <= ranked.len(),
        pairwise_separated(suppress(ranked, half_w, half_h, limit), half_w, half_h),
        sorted_desc(suppress(ranked, half_w, half_h, limit)),
        forall|i: int|
            0 <= i < suppress(ranked, half_w, half_h, limit).len() ==> ranked.contains(
                #[trigger] suppress(ranked, half_w, half_h, limit)[i],
            ),
    decreases ranked.len(),
{
    if ranked.len() > 0 {
        let front = ranked.drop_last();
        let kept = suppress(front, half_w, half_h, limit);
        let out = suppress(ranked, half_w, half_h, limit);
        assert(sorted_desc(front));
        lemma_suppress_properties(front, half_w, half_h, limit);
        assert forall|i: int| 0 <= i < kept.len() implies ranked.contains(#[trigger] kept[i])
            && kept[i].confidence@.ge(ranked.last().confidence@) by {
            let k = choose|k: int| 0 <= k < front.len() && front[k] == kept[i];
            assert(ranked[k] == kept[i]);
        }
        assert(ranked[ranked.len() - 1] == ranked.last());
        if kept.len() < limit && clear_of(ranked.last(), kept, half_w, half_h) {
            assert forall|i: int, j: int| 0 <= i < j < out.len() implies separated(
                #[trigger] out[i],
                #[trigger] out[j],
                half_w,
                half_h,
            ) by {
                if j == kept.len() {
                    assert(separated(ranked.last(), kept[i], half_w, half_h));
                }
            }
        }
    }
}

/// `limit`, or 0 if it is negative.
pub open spec fn greatest_zero(limit: int) -> int {
    if limit >= 0 {
        limit
    } else {
        0
    }
}

/// Every match of `front` is at least as confident as every match of `rest`.
pub open spec fn dominates(front: Seq<MatchResult>, rest: Seq<MatchResult>) -> bool {
    forall|i: int, j: int|
        0 <= i < front.len() && 0 <= j < rest.len() ==> (#[trigger] front[i]).confidence@.ge(
            (#[trigger] rest[j]).confidence@,
        )
}

/// A ranking stays one when the head of one of two rankings that it
/// dominates is put at its end, provided that head is no less confident than
/// the head of the other.
proof fn lemma_extend_ranking(
    ranked: Seq<MatchResult>,
    own: Seq<MatchResult>,
    other: Seq<MatchResult>,
)
    requires
        sorted_desc(ranked),
        sorted_desc(own),
        sorted_desc(other),
        all_scored(ranked),
        all_scored(own),
        all_scored(other),
        dominates(ranked, own),
        dominates(ranked, other),
        own.len() > 0,
        other.len() > 0 ==> own[0].confidence@.ge(other[0].confidence@),
    ensures
        sorted_desc(ranked.push(own[0])),
        all_scored(ranked.push(own[0])),
        dominates(ranked.push(own[0]), own.skip(1)),
        dominates(ranked.push(own[0]), other),
{
    let x = own[0];
    let longer = ranked.push(x);
    assert forall|a: int, b: int| 0 <= a < b < longer.len() implies (#[trigger] longer[a])
        .confidence@.ge((#[trigger] longer[b]).confidence@) by {
        assert(longer[a] == ranked[a]);
        if b < ranked.len() {
            assert(longer[b] == ranked[b]);
        }
    }
    assert forall|a: int| 0 <= a < longer.len() implies (#[trigger] longer[a]).confidence.wf() by {
        if a < ranked.len() {
            assert(longer[a] == ranked[a]);
        }
    }
    assert forall|a: int, b: int| 0 <= a < longer.len() && 0 <= b < own.skip(1).len() implies (
    #[trigger] longer[a]).confidence@.ge((#[trigger] own.skip(1)[b]).confidence@) by {
        assert(own.skip(1)[b] == own[b + 1]);
        if a < ranked.len() {
            assert(longer[a] == ranked[a]);
        }
    }
    assert forall|a: int, b: int| 0 <= a < longer.len() && 0 <= b < other.len() implies (
    #[trigger] longer[a]).confidence@.ge((#[trigger] other[b]).confidence@) by {
        if a < ranked.len() {
            assert(longer[a] == ranked[a]);
        } else if b > 0 {
            assert(other[0].confidence@.ge(other[b].confidence@));
            lemma_ge_transitive(x.confidence@, other[0].confidence@, other[b].confidence@);
        }
    }
}

/// Merges two rankings into one. Where a match of each has the same
/// confidence, the one of `first` comes first.
fn merge(first: &Vec<MatchResult>, second: &Vec<MatchResult>) -> (merged: Vec<MatchResult>)
    requires
        sorted_desc(first@),
        sorted_desc(second@),
        all_scored(first@),
        all_scored(second@),
        first@.len() + second@.len() <= usize::MAX,
    ensures
        sorted_desc(merged@),
        all_scored(merged@),
        merged@.to_multiset() == first@.to_multiset().add(second@.to_multiset()),
{
    let n: usize = first.len();
    let m: usize = second.len();
    let mut merged: Vec<MatchResult> = Vec::with_capacity(n + m);
    let mut i: usize = 0;
    let mut j: usize = 0;
    proof {
        broadcast use vstd::multiset::group_multiset_axioms;

        to_multiset_len(merged@);
        to_multiset_len(first@.take(0));
        to_multiset_len(second@.take(0));
        assert(merged@.to_multiset() =~= first@.take(0).to_multiset().add(
            second@.take(0).to_multiset(),
        ));
    }
    while i < n || j < m
        invariant
            n == first@.len(),
            m == second@.len(),
            i <= n,
            j <= m,
            sorted_desc(first@),
            sorted_desc(second@),
            all_scored(first@),
            all_scored(second@),
            sorted_desc(merged@),
            all_scored(merged@),
            dominates(merged@, first@.skip(i as int)),
            dominates(merged@, second@.skip(j as int)),
            merged@.to_multiset() == first@.take(i as int).to_multiset().add(
                second@.take(j as int).to_multiset(),
            ),
        decreases (n - i) + (m - j),
    {
        let ghost before = merged@;
        let ghost left = first@.skip(i as int);
        let ghost right = second@.skip(j as int);
        let from_first: bool = if i >= n {
            false
        } else if j >= m {
            true
        } else {
            !second[j].confidence.gt(&first[i].confidence)
        };
        if from_first {
            let x = first[i];
            proof {
                lemma_extend_ranking(before, left, right);
                assert(left.skip(1) =~= first@.skip(i + 1));
                assert(first@.take(i + 1) =~= first@.take(i as int).push(x));
                to_multiset_build(first@.take(i as int), x);
                to_multiset_build(before, x);
                assert(before.push(x).to_multiset() =~= first@.take(i + 1).to_multiset().add(
                    second@.take(j as int).to_multiset(),
                ));
            }
            merged.push(x);
            i += 1;
        } else {
            let x = second[j];
            proof {
                if i < n {
                    lemma_ge_total(x.confidence@, first@[i as int].confidence@);
                }
                lemma_extend_ranking(before, right, left);
                assert(right.skip(1) =~= second@.skip(j + 1));
                assert(second@.take(j + 1) =~= second@.take(j as int).push(x));
                to_multiset_build(second@.take(j as int), x);
                to_multiset_build(before, x);
                assert(before.push(x).to_multiset() =~= first@.take(i as int).to_multiset().add(
                    second@.take(j + 1).to_multiset(),
                ));
            }
            merged.push(x);
            j += 1;
        }
    }
    proof {
        assert(first@.take(n as int) =~= first@);
        assert(second@.take(m as int) =~= second@);
    }
    merged
}

/// The ranking of the matches from `lo` up to `hi`.
fn sort_range(matches: &Vec<MatchResult>, lo: usize, hi: usize) -> (ranked: Vec<MatchResult>)
    requires
        lo <= hi <= matches@.len(),
        all_scored(matches@),
    ensures
        sorted_desc(ranked@),
        all_scored(ranked@),
        ranked@.len() == hi - lo,
        ranked@.to_multiset() == matches@.subrange(lo as int, hi as int).to_multiset(),
    decreases hi - lo,
{
    let ghost part = matches@.subrange(lo as int, hi as int);
    if hi - lo <= 1 {
        let mut ranked: Vec<MatchResult> = Vec::new();
        if hi > lo {
            ranked.push(matches[lo]);
        }
        proof {
            assert(ranked@ =~= part);
        }
        ranked
    } else {
        let mid: usize = lo + (hi - lo) / 2;
        let upper = sort_range(matches, lo, mid);
        let lower = sort_range(matches, mid, hi);
        let ranked = merge(&upper, &lower);
        proof {
            let a = matches@.subrange(lo as int, mid as int);
            let b = matches@.subrange(mid as int, hi as int);
            assert(part =~= a + b);
            lemma_multiset_commutative(a, b);
            to_multiset_len(ranked@);
            to_multiset_len(part);
        }
        ranked
    }
}

/// Sorts matches by confidence, the most confident first.
pub fn sort_by_confidence(matches: &Vec<MatchResult>) -> (ranked: Vec<MatchResult>)
    requires
        all_scored(matches@),
    ensures
        sorted_desc(ranked@),
        all_scored(ranked@),
        ranked@.to_multiset() == matches@.to_multiset(),
{
    proof {
        assert(matches@.subrange(0, matches@.len() as int) =~= matches@);
    }
    sort_range(matches, 0, matches.len())
}

/// Whether two matches are far enough apart.
fn is_separated(a: &MatchResult, b: &MatchResult, half_w: u32, half_h: u32) -> (far: bool)
    ensures
        far == separated(*a, *b, half_w as int, half_h as int),
{
    let dx: u32 = if a.x >= b.x {
        a.x - b.x
    } else {
        b.x - a.x
    };
    let dy: u32 = if a.y >= b.y {
        a.y - b.y
    } else {
        b.y - a.y
    };
    dx >= half_w || dy >= half_h
}

/// Non-maximum suppression of a ranking: keeps a match if it is at least
/// `half_w` columns or `half_h` rows away from every match kept before it,
/// and stops when `limit` are kept.
pub fn suppress_ranked(ranked: &Vec<MatchResult>, half_w: u32, half_h: u32, limit: usize) -> (kept:
    Vec<MatchResult>)
    ensures
        kept@ == suppress(ranked@, half_w as int, half_h as int, limit as int),
{
    let ghost hw = half_w as int;
    let ghost hh = half_h as int;
    let n: usize = ranked.len();
    let mut kept: Vec<MatchResult> = Vec::new();
    let mut i: usize = 0;
    assert(ranked@.take(0) =~= Seq::<MatchResult>::empty());
    while i < n && kept.len() < limit
        invariant
            n == ranked@.len(),
            i <= n,
            hw == half_w,
            hh == half_h,
            kept@ == suppress(ranked@.take(i as int), hw, hh, limit as int),
        decreases n - i,
    {
        let c = ranked[i];
        let mut clear: bool = true;
        let mut j: usize = 0;
        while j < kept.len() && clear
            invariant
                j <= kept@.len(),
                hw == half_w,
                hh == half_h,
                clear == clear_of(c, kept@.take(j as int), hw, hh),
            decreases kept@.len() - j,
        {
            let far = is_separated(&c, &kept[j], half_w, half_h);
            proof {
                let seen = kept@.take(j as int);
                let more = kept@.take(j + 1);
                assert(more[j as int] == kept@[j as int]);
                if far {
                    assert forall|k: int| 0 <= k < more.len() implies separated(
                        c,
                        #[trigger] more[k],
                        hw,
                        hh,
                    ) by {
                        if k < j {
                            assert(more[k] == seen[k]);
                        }
                    }
                }
            }
            clear = far;
            j += 1;
        }
        proof {
            if clear {
                assert(kept@.take(j as int) =~= kept@);
            } else {
                let seen = kept@.take(j as int);
                let k = choose|k: int| 0 <= k < seen.len() && !separated(c, seen[k], hw, hh);
                assert(kept@[k] == seen[k]);
            }
            assert(ranked@.take(i + 1).drop_last() =~= ranked@.take(i as int));
            assert(ranked@.take(i + 1).last() == c);
        }
        if clear {
            kept.push(c);
        }
        i += 1;
    }
    proof {
        if i < n {
            lemma_suppress_full(ranked@, hw, hh, limit as int, i as int);
        } else {
            assert(ranked@.take(i as int) =~= ranked@);
        }
    }
    kept
}

} // verus!
