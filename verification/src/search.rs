//! Fuzzy search over contributors: the score comes from `fuzzy_matcher`'s
//! skim matcher; the order of the matches is decided here.
use vstd::prelude::*;
use fuzzy_matcher::FuzzyMatcher;

verus! {

broadcast use vstd::string::group_string_axioms;

/// The score that `SkimMatcherV2::default().fuzzy_match(choice, pattern)`
/// returns: `None` when `pattern` does not match `choice`. The skim algorithm
/// is a function of the two texts alone; it is named here, not restated.
pub uninterp spec fn skim_score(choice: Seq<char>, pattern: Seq<char>) -> Option<i64>;

/// Calls `fuzzy_matcher::skim::SkimMatcherV2::fuzzy_match` on a default
/// matcher. The contract claims only that the result is the skim score of the
/// two texts.
#[verifier::external_body]
pub(crate) fn fuzzy_score(choice: &str, pattern: &str) -> (r: Option<i64>)
    ensures
        r == skim_score(choice@, pattern@),
{
    fuzzy_matcher::skim::SkimMatcherV2::default().fuzzy_match(choice, pattern)
}

/// The score of entry `x`, which must have one.
pub open spec fn score_of(scores: Seq<Option<i64>>, x: usize) -> i64 {
    scores[x as int]->0
}

/// Whether entry `a` comes before entry `b` in the ranking: a higher score
/// first, and of equal scores the earlier entry first.
pub open spec fn ranks_before(scores: Seq<Option<i64>>, a: usize, b: usize) -> bool {
    ||| score_of(scores, a) > score_of(scores, b)
    ||| (score_of(scores, a) == score_of(scores, b) && a < b)
}

/// `r` lists, once each, the entries below `n` that have a score, best
/// score first and, among equal scores, in entry order.
pub open spec fn is_ranking_below(r: Seq<usize>, scores: Seq<Option<i64>>, n: int) -> bool {
    &&& r.no_duplicates()
    &&& forall|k: int| 0 <= k < r.len() ==> #[trigger] r[k] < n && scores[r[k] as int] is Some
    &&& forall|i: int| 0 <= i < n && scores[i] is Some ==> r.contains(i as usize)
    &&& forall|a: int, b: int| 0 <= a < b < r.len() ==> ranks_before(scores, #[trigger] r[a], #[trigger] r[b])
}

/// `r` lists, once each, the entries that have a score, best score first and,
/// among equal scores, in entry order (a stable sort by descending score).
pub open spec fn is_ranking(r: Seq<usize>, scores: Seq<Option<i64>>) -> bool {
    is_ranking_below(r, scores, scores.len() as int)
}

/// The ranking of the entries that have a score (there is exactly one; see
/// `lemma_ranking_unique`).
pub open spec fn ranked(scores: Seq<Option<i64>>) -> Seq<usize> {
    choose|r: Seq<usize>| is_ranking(r, scores)
}

/// Two sequences without duplicates, with the same elements, both ordered by
/// `ranks_before`, are equal.
proof fn lemma_sorted_unique(a: Seq<usize>, b: Seq<usize>, scores: Seq<Option<i64>>)
    requires
        a.no_duplicates(),
        b.no_duplicates(),
        forall|x: usize| a.contains(x) <==> b.contains(x),
        forall|i: int, j: int| 0 <= i < j < a.len() ==> ranks_before(scores, #[trigger] a[i], #[trigger] a[j]),
        forall|i: int, j: int| 0 <= i < j < b.len() ==> ranks_before(scores, #[trigger] b[i], #[trigger] b[j]),
    ensures
        a == b,
    decreases a.len(),
{
    if a.len() == 0 {
        if b.len() > 0 {
            assert(b.contains(b[0]));
        }
        assert(a =~= b);
    } else {
        assert(a.contains(a[0]));
        assert(b.contains(a[0]));
        assert(b.len() > 0);
        assert(b.contains(b[0]));
        assert(a.contains(b[0]));
        if a[0] != b[0] {
            let i = choose|i: int| 0 <= i < a.len() && a[i] == b[0];
            let j = choose|j: int| 0 <= j < b.len() && b[j] == a[0];
            assert(i != 0);
            assert(j != 0);
            assert(ranks_before(scores, a[0], a[i]));
            assert(ranks_before(scores, b[0], b[j]));
        }
        let a1 = a.drop_first();
        let b1 = b.drop_first();
        assert forall|x: usize| a1.contains(x) <==> b1.contains(x) by {
            if a1.contains(x) {
                let i = choose|i: int| 0 <= i < a1.len() && a1[i] == x;
                assert(a[i + 1] == x);
                assert(x != a[0]);
                assert(a.contains(x));
                let j = choose|j: int| 0 <= j < b.len() && b[j] == x;
                assert(j != 0);
                assert(b1[j - 1] == x);
            }
            if b1.contains(x) {
                let j = choose|j: int| 0 <= j < b1.len() && b1[j] == x;
                assert(b[j + 1] == x);
                assert(x != b[0]);
                assert(b.contains(x));
                let i = choose|i: int| 0 <= i < a.len() && a[i] == x;
                assert(i != 0);
                assert(a1[i - 1] == x);
            }
        }
        assert forall|i: int, j: int| 0 <= i < j < a1.len() implies ranks_before(
            scores,
            #[trigger] a1[i],
            #[trigger] a1[j],
        ) by {
            assert(a1[i] == a[i + 1] && a1[j] == a[j + 1]);
        }
        assert forall|i: int, j: int| 0 <= i < j < b1.len() implies ranks_before(
            scores,
            #[trigger] b1[i],
            #[trigger] b1[j],
        ) by {
            assert(b1[i] == b[i + 1] && b1[j] == b[j + 1]);
        }
        lemma_sorted_unique(a1, b1, scores);
        assert forall|k: int| 0 <= k < a.len() implies a[k] == b[k] by {
            if k > 0 {
                assert(a[k] == a1[k - 1]);
                assert(b[k] == b1[k - 1]);
            }
        }
        assert(a =~= b);
    }
}

/// There is only one ranking of a list of scores.
pub proof fn lemma_ranking_unique(a: Seq<usize>, b: Seq<usize>, scores: Seq<Option<i64>>)
    requires
        is_ranking(a, scores),
        is_ranking(b, scores),
    ensures
        a == b,
{
    assert forall|x: usize| a.contains(x) <==> b.contains(x) by {
        if a.contains(x) {
            let k = choose|k: int| 0 <= k < a.len() && a[k] == x;
            assert(x < scores.len() && scores[x as int] is Some);
            assert(b.contains((x as int) as usize));
        }
        if b.contains(x) {
            let k = choose|k: int| 0 <= k < b.len() && b[k] == x;
            assert(x < scores.len() && scores[x as int] is Some);
            assert(a.contains((x as int) as usize));
        }
    }
    lemma_sorted_unique(a, b, scores);
}

/// Putting entry `i` where the entries with a score below its own begin
/// extends a ranking of the entries below `i` to one of the entries below `i + 1`.
proof fn lemma_insert_ranked(r: Seq<usize>, scores: Seq<Option<i64>>, i: usize, p: int, s: i64)
    requires
        i < scores.len(),
        scores[i as int] == Some(s),
        is_ranking_below(r, scores, i as int),
        0 <= p <= r.len(),
        forall|k: int| 0 <= k < p ==> score_of(scores, #[trigger] r[k]) >= s,
        forall|k: int| p <= k < r.len() ==> score_of(scores, #[trigger] r[k]) < s,
    ensures
        is_ranking_below(r.insert(p, i), scores, i + 1),
{
    r.insert_ensures(p, i);
    let n = r.insert(p, i);
    assert forall|k: int| 0 <= k < n.len() implies #[trigger] n[k] < i + 1 && scores[n[k] as int] is Some by {
        if k < p {
            assert(n[k] == r[k]);
        } else if k > p {
            assert(n[k] == r[k - 1]);
        }
    }
    assert forall|x: int| 0 <= x < i + 1 && scores[x] is Some implies n.contains(x as usize) by {
        if x == i {
            assert(n[p] == i);
        } else {
            assert(r.contains(x as usize));
            let k = choose|k: int| 0 <= k < r.len() && r[k] == x as usize;
            if k < p {
                assert(n[k] == r[k]);
            } else {
                assert(n[k + 1] == r[k]);
            }
        }
    }
    assert forall|a: int, b: int| 0 <= a < b < n.len() implies ranks_before(
        scores,
        #[trigger] n[a],
        #[trigger] n[b],
    ) by {
        if a < p && b < p {
            assert(n[a] == r[a] && n[b] == r[b]);
        } else if a < p && b == p {
            assert(n[a] == r[a]);
            assert(r[a] < i);
        } else if a < p && b > p {
            assert(n[a] == r[a] && n[b] == r[b - 1]);
        } else if a == p {
            assert(n[b] == r[b - 1]);
        } else {
            assert(n[a] == r[a - 1] && n[b] == r[b - 1]);
        }
    }
    assert forall|a: int, b: int| 0 <= a < n.len() && 0 <= b < n.len() && a != b implies n[a]
        != n[b] by {
        if a != p && b != p {
            let a0 = if a < p { a } else { a - 1 };
            let b0 = if b < p { b } else { b - 1 };
            assert(n[a] == r[a0] && n[b] == r[b0]);
        } else if a == p {
            let b0 = if b < p { b } else { b - 1 };
            assert(n[b] == r[b0]);
            assert(r[b0] < i);
        } else {
            let a0 = if a < p { a } else { a - 1 };
            assert(n[a] == r[a0]);
            assert(r[a0] < i);
        }
    }
}

/// The place in a list ordered by `ranks_before` where the entries with a
/// score below `s` begin.
proof fn lemma_split_point(r: Seq<usize>, scores: Seq<Option<i64>>, s: i64) -> (p: int)
    requires
        forall|a: int, b: int| 0 <= a < b < r.len() ==> ranks_before(scores, #[trigger] r[a], #[trigger] r[b]),
    ensures
        0 <= p <= r.len(),
        forall|k: int| 0 <= k < p ==> score_of(scores, #[trigger] r[k]) >= s,
        forall|k: int| p <= k < r.len() ==> score_of(scores, #[trigger] r[k]) < s,
    decreases r.len(),
{
    if r.len() == 0 {
        0
    } else if score_of(scores, r.last()) >= s {
        assert forall|k: int| 0 <= k < r.len() implies score_of(scores, #[trigger] r[k]) >= s by {
            if k < r.len() - 1 {
                assert(ranks_before(scores, r[k], r[r.len() - 1]));
            }
        }
        r.len() as int
    } else {
        let d = r.drop_last();
        assert forall|a: int, b: int| 0 <= a < b < d.len() implies ranks_before(
            scores,
            #[trigger] d[a],
            #[trigger] d[b],
        ) by {
            assert(d[a] == r[a] && d[b] == r[b]);
        }
        let p = lemma_split_point(d, scores, s);
        assert forall|k: int| p <= k < r.len() implies score_of(scores, #[trigger] r[k]) < s by {
            if k < r.len() - 1 {
                assert(r[k] == d[k]);
            }
        }
        assert forall|k: int| 0 <= k < p implies score_of(scores, #[trigger] r[k]) >= s by {
            assert(r[k] == d[k]);
        }
        p
    }
}

/// The entries below `n` that have a score have a ranking.
proof fn lemma_ranking_below_exists(scores: Seq<Option<i64>>, n: int) -> (r: Seq<usize>)
    requires
        0 <= n <= scores.len(),
        scores.len() <= usize::MAX,
    ensures
        is_ranking_below(r, scores, n),
    decreases n,
{
    if n == 0 {
        Seq::<usize>::empty()
    } else {
        let r = lemma_ranking_below_exists(scores, n - 1);
        let i = (n - 1) as usize;
        match scores[n - 1] {
            Some(s) => {
                let p = lemma_split_point(r, scores, s);
                lemma_insert_ranked(r, scores, i, p, s);
                r.insert(p, i)
            },
            None => r,
        }
    }
}

/// Score lists of any length a `Vec` can have are ranked: `ranked` gives
/// their ranking.
pub proof fn lemma_ranked(scores: Seq<Option<i64>>)
    requires
        scores.len() <= usize::MAX,
    ensures
        is_ranking(ranked(scores), scores),
{
    let r = lemma_ranking_below_exists(scores, scores.len() as int);
    assert(is_ranking(r, scores));
}

/// Whether entry `x` has a score of at least `s`.
fn has_score_at_least(scores: &Vec<Option<i64>>, x: usize, s: i64) -> (b: bool)
    requires
        x < scores.len(),
    ensures
        b == (scores@[x as int] is Some && score_of(scores@, x) >= s),
{
    match scores[x] {
        Some(t) => t >= s,
        None => false,
    }
}

/// The entries that have a score, best score first, equal scores in entry
/// order.
pub fn rank_matches(scores: &Vec<Option<i64>>) -> (r: Vec<usize>)
    ensures
        is_ranking(r@, scores@),
        r@ == ranked(scores@),
{
    let mut r: Vec<usize> = Vec::new();
    let mut i: usize = 0;
    while i < scores.len()
        invariant
            i <= scores.len(),
            is_ranking_below(r@, scores@, i as int),
        decreases scores.len() - i,
    {
        match scores[i] {
            Some(s) => {
                let mut p: usize = 0;
                while p < r.len() && has_score_at_least(scores, r[p], s)
                    invariant
                        i < scores.len(),
                        scores@[i as int] == Some(s),
                        p <= r.len(),
                        is_ranking_below(r@, scores@, i as int),
                        forall|k: int| 0 <= k < p ==> score_of(scores@, #[trigger] r@[k]) >= s,
                    decreases r.len() - p,
                {
                    p += 1;
                }
                let ghost old_r = r@;
                proof {
                    if p < r.len() {
                        assert(r@[p as int] < i);
                        assert(score_of(scores@, r@[p as int]) < s);
                        assert forall|k: int| p <= k < r.len() implies score_of(
                            scores@,
                            #[trigger] r@[k],
                        ) < s by {
                            if k > p {
                                assert(ranks_before(scores@, r@[p as int], r@[k]));
                            }
                        }
                    }
                }
                r.insert(p, i);
                proof {
                    lemma_insert_ranked(old_r, scores@, i, p as int, s);
                }
            },
            None => {},
        }
        i += 1;
    }
    proof {
        assert(is_ranking(r@, scores@));
        assert(is_ranking(ranked(scores@), scores@));
        lemma_ranking_unique(r@, ranked(scores@), scores@);
    }
    r
}

} // verus!
