//! Reciprocal rank fusion: several ranked lists become one, by summing
//! `1 / (k + rank)` over the lists. Scores count units of `10⁻¹⁵`.
use crate::fixed::ONE;
use crate::memory::tally::{
    best_first, capped_sum, ids_unique, lemma_score_index, score_index, score_keys, scored_views,
    with_score_added, Tally,
};
use crate::order::{descending, law_descending, law_descending_is_complete};
use crate::text::views;
use vstd::prelude::*;

verus! {

/// The default fusion constant, in billionths.
pub const DEFAULT_RRF_K: u64 = 60_000_000_000;

/// The score one.
pub const SCORE_ONE: u64 = 1_000_000_000_000_000;

/// The contribution of a rank, counted from one: `1 / (k + rank)`.
pub open spec fn rank_score(k: u64, rank: nat) -> int {
    (SCORE_ONE * ONE) as int / (k + rank * ONE)
}

/// The scores after the first `n` places of a list.
pub open spec fn fused_list(
    s: Seq<(Seq<char>, i64)>,
    list: Seq<Seq<char>>,
    n: nat,
    k: u64,
) -> Seq<(Seq<char>, i64)>
    decreases n,
{
    if n == 0 {
        s
    } else {
        with_score_added(
            fused_list(s, list, (n - 1) as nat, k),
            list[n - 1],
            rank_score(k, n) as i64,
        )
    }
}

/// The scores after the first `n` lists.
pub open spec fn fused_lists(lists: Seq<Seq<Seq<char>>>, n: nat, k: u64) -> Seq<(Seq<char>, i64)>
    decreases n,
{
    if n == 0 {
        seq![]
    } else {
        fused_list(fused_lists(lists, (n - 1) as nat, k), lists[n - 1], lists[n - 1].len(), k)
    }
}

/// The views of several lists of identifiers.
pub open spec fn list_views(lists: Seq<&[String]>) -> Seq<Seq<Seq<char>>> {
    lists.map_values(|l: &[String]| views(l@))
}

/// A better rank contributes at least as much.
pub proof fn law_better_rank_scores_higher(k: u64, a: nat, b: nat)
    requires
        1 <= a <= b,
    ensures
        rank_score(k, a) >= rank_score(k, b),
{
    let x = k + a * ONE;
    let y = k + b * ONE;
    assert(x <= y && x > 0) by (nonlinear_arith)
        requires
            x == k + a * ONE,
            y == k + b * ONE,
            1 <= a <= b,
            ONE == 1_000_000_000,
            k >= 0,
    ;
    let t = (SCORE_ONE * ONE) as int;
    assert(t / y <= t / x) by (nonlinear_arith)
        requires
            0 < x <= y,
            t >= 0,
    ;
}

/// The contribution of a rank is the reciprocal of the fusion constant plus
/// the rank, up to rounding, so that a better rank contributes more.
pub proof fn law_contribution_is_reciprocal(k: u64, rank: nat)
    requires
        rank >= 1,
    ensures
        ({
            let d = k + 1_000_000_000 * rank;
            let x = rank_score(k, rank);
            x * d <= 1_000_000_000_000_000_000_000_000 < (x + 1) * d
        }),
{
    let d = k + 1_000_000_000 * rank;
    let x = rank_score(k, rank);
    let t = 1_000_000_000_000_000_000_000_000int;
    assert(SCORE_ONE * ONE == t);
    assert(rank * ONE == 1_000_000_000 * rank) by (nonlinear_arith)
        requires
            ONE == 1_000_000_000,
    ;
    assert(x * d <= t < (x + 1) * d) by (nonlinear_arith)
        requires
            x == t / d,
            d > 0,
    ;
}

/// Whether an identifier stands at the top of a list that repeats none.
pub open spec fn tops(list: Seq<Seq<char>>, id: Seq<char>) -> bool {
    list.len() > 0 && list[0] == id && list.no_duplicates()
}

/// Whether the first entry is that of an identifier, and none has a better
/// score.
pub open spec fn leads(s: Seq<(Seq<char>, i64)>, id: Seq<char>) -> bool {
    &&& s.len() > 0
    &&& s[0].0 == id
    &&& ids_unique(s)
    &&& forall|j: int| 0 <= j < s.len() ==> 0 <= (#[trigger] s[j]).1 <= s[0].1
}

/// The lead over the first `m` places of a list whose top it is: `a` was the
/// score before, and no entry whose identifier is yet to come is above it.
spec fn leading(
    s: Seq<(Seq<char>, i64)>,
    id: Seq<char>,
    list: Seq<Seq<char>>,
    m: nat,
    k: u64,
    a: i64,
) -> bool {
    &&& leads(s, id)
    &&& s[0].1 == capped_sum(a, rank_score(k, 1) as i64)
    &&& forall|j: int|
        1 <= j < s.len() && !list.take(m as int).contains((#[trigger] s[j]).0) ==> s[j].1 <= a
}

pub proof fn lemma_rank_range(k: u64, rank: nat)
    requires
        rank >= 1,
    ensures
        0 <= rank_score(k, rank) <= SCORE_ONE,
{
    let d = k + rank * ONE;
    assert(d >= ONE) by (nonlinear_arith)
        requires
            d == k + rank * ONE,
            rank >= 1,
            k >= 0,
    ;
    let n = (SCORE_ONE * ONE) as int;
    assert(0 <= n / d <= SCORE_ONE) by (nonlinear_arith)
        requires
            d >= ONE,
            n == SCORE_ONE * ONE,
            ONE == 1_000_000_000,
    ;
}

proof fn lemma_leading(
    s: Seq<(Seq<char>, i64)>,
    id: Seq<char>,
    list: Seq<Seq<char>>,
    m: nat,
    k: u64,
)
    requires
        s.len() == 0 || leads(s, id),
        tops(list, id),
        1 <= m <= list.len(),
    ensures
        leading(fused_list(s, list, m, k), id, list, m, k, if s.len() == 0 {
            0
        } else {
            s[0].1
        }),
    decreases m,
{
    let a: i64 = if s.len() == 0 {
        0
    } else {
        s[0].1
    };
    lemma_rank_range(k, 1);
    lemma_rank_range(k, m);
    law_better_rank_scores_higher(k, 1, m);
    reveal_with_fuel(fused_list, 2);
    if m == 1 {
        let u = fused_list(s, list, 1, k);
        assert(fused_list(s, list, 0, k) == s);
        assert(u == with_score_added(s, id, rank_score(k, 1) as i64));
        assert(score_index(s, id) == 0);
    } else {
        let v = fused_list(s, list, (m - 1) as nat, k);
        lemma_leading(s, id, list, (m - 1) as nat, k);
        let x = list[m - 1];
        let u = fused_list(s, list, m, k);
        assert(u == with_score_added(v, x, rank_score(k, m) as i64));
        lemma_score_index(v, x);
        assert(x != id) by {
            assert(list[0] == id);
        }
        assert(!list.take(m - 1).contains(x));
        assert(list.take(m as int) =~= list.take(m - 1).push(x));
        assert forall|j: int|
            1 <= j < u.len() && !list.take(m as int).contains((#[trigger] u[j]).0) implies u[j].1
            <= a by {
            assert(list.take(m as int)[m - 1] == x);
            assert(u[j].0 != x);
            assert(u[j] == v[j]);
            if list.take(m - 1).contains(v[j].0) {
                let w = list.take(m - 1);
                let q = choose|q: int| 0 <= q < w.len() && w[q] == v[j].0;
                assert(list.take(m as int)[q] == v[j].0);
            }
        }
        let i = score_index(v, x);
        if i < v.len() {
            assert(v[i].1 <= a);
        }
    }
}

/// What tops every list tops the merged one.
pub proof fn law_top_of_every_list_wins(lists: Seq<Seq<Seq<char>>>, id: Seq<char>, k: u64)
    requires
        lists.len() > 0,
        forall|l: int| 0 <= l < lists.len() ==> tops(#[trigger] lists[l], id),
    ensures
        best_first(fused_lists(lists, lists.len(), k)).len() > 0,
        best_first(fused_lists(lists, lists.len(), k))[0].0 == id,
{
    lemma_leads(lists, lists.len(), id, k);
    let s = fused_lists(lists, lists.len(), k);
    let keys = score_keys(s);
    law_descending(keys, s.len());
    let o = descending(keys, s.len());
    let f = o[0];
    assert(0 <= f < s.len());
    if f != 0 {
        law_descending_is_complete(keys, s.len(), 0);
        let q = choose|q: int| 0 <= q < o.len() && o[q] == 0;
        assert(keys[f] == s[f].1);
        assert(keys[0] == s[0].1);
        assert(o[0] == f && o[q] == 0);
    }
}

proof fn lemma_leads(lists: Seq<Seq<Seq<char>>>, n: nat, id: Seq<char>, k: u64)
    requires
        1 <= n <= lists.len(),
        forall|l: int| 0 <= l < lists.len() ==> tops(#[trigger] lists[l], id),
    ensures
        leads(fused_lists(lists, n, k), id),
    decreases n,
{
    reveal_with_fuel(fused_lists, 2);
    let s = fused_lists(lists, (n - 1) as nat, k);
    if n > 1 {
        lemma_leads(lists, (n - 1) as nat, id, k);
    }
    assert(tops(lists[n - 1], id));
    lemma_leading(s, id, lists[n - 1], lists[n - 1].len(), k);
}

/// The contribution of a rank.
pub fn rank_term(k: u64, rank: u64) -> (r: i64)
    requires
        rank >= 1,
    ensures
        r == rank_score(k, rank as nat),
        0 <= r <= SCORE_ONE,
{
    proof {
        assert(1_000_000_000 <= rank * ONE <= u64::MAX * 1_000_000_000) by (nonlinear_arith)
            requires
                1 <= rank <= u64::MAX,
                ONE == 1_000_000_000,
        ;
    }
    let d: u128 = k as u128 + (rank as u128) * (ONE as u128);
    proof {
        assert(SCORE_ONE * ONE == 1_000_000_000_000_000_000_000_000int) by (nonlinear_arith)
            requires
                SCORE_ONE == 1_000_000_000_000_000,
                ONE == 1_000_000_000,
        ;
        let t = 1_000_000_000_000_000_000_000_000int;
        let e = d as int;
        assert(0 <= t / e <= 1_000_000_000_000_000) by (nonlinear_arith)
            requires
                t == 1_000_000_000_000_000_000_000_000int,
                e >= 1_000_000_000,
        ;
    }
    (1_000_000_000_000_000_000_000_000u128 / d) as i64
}

/// Merges several ranked lists into one, best first. Each list is best
/// first; equal scores keep the order of first appearance.
pub fn reciprocal_rank_fusion(lists: &[&[String]], k: u64) -> (r: Vec<(String, i64)>)
    ensures
        scored_views(r@) == best_first(fused_lists(list_views(lists@), lists@.len(), k)),
{
    let mut t: Tally = Tally::new();
    let ghost lv = list_views(lists@);
    let n: usize = lists.len();
    for i in 0..n
        invariant
            n == lists@.len(),
            lv == list_views(lists@),
            t@ == fused_lists(lv, i as nat, k),
    {
        let list: &[String] = lists[i];
        let m: usize = list.len();
        let ghost base = t@;
        let ghost ids = views(list@);
        proof {
            assert(lv[i as int] == ids);
        }
        for j in 0..m
            invariant
                m == list@.len(),
                ids == views(list@),
                t@ == fused_list(base, ids, j as nat, k),
        {
            let s: i64 = rank_term(k, j as u64 + 1);
            t.increase(list[j].as_str(), s);
            proof {
                assert(ids[j as int] == list@[j as int]@);
            }
        }
    }
    t.ranked()
}

/// The smallest of some scores.
pub open spec fn least(v: Seq<u64>) -> int
    decreases v.len(),
{
    if v.len() == 0 {
        u64::MAX as int
    } else {
        let d = least(v.drop_last());
        if v.last() < d {
            v.last() as int
        } else {
            d
        }
    }
}

/// The largest of some scores.
pub open spec fn greatest(v: Seq<u64>) -> int
    decreases v.len(),
{
    if v.len() == 0 {
        0
    } else {
        let d = greatest(v.drop_last());
        if v.last() > d {
            v.last() as int
        } else {
            d
        }
    }
}

/// A score moved to its place between the smallest and the largest; one half
/// where all are the same up to a millionth of a thousandth.
pub open spec fn normal(v: Seq<u64>, x: u64) -> int {
    let lo = least(v);
    let span = greatest(v) - lo;
    if span < 1_000_000 {
        SCORE_ONE as int / 2
    } else {
        ((x - lo) * SCORE_ONE) / span
    }
}

proof fn lemma_extremes(v: Seq<u64>, i: int)
    requires
        0 <= i < v.len(),
    ensures
        least(v) <= v[i] <= greatest(v),
    decreases v.len(),
{
    if i < v.len() - 1 {
        lemma_extremes(v.drop_last(), i);
    }
}

proof fn lemma_extreme_range(v: Seq<u64>)
    ensures
        0 <= least(v) <= u64::MAX,
        0 <= greatest(v) <= u64::MAX,
    decreases v.len(),
{
    if v.len() > 0 {
        lemma_extreme_range(v.drop_last());
    }
}

/// A normalised score lies between zero and one.
pub proof fn law_normal_range(v: Seq<u64>, i: int)
    requires
        0 <= i < v.len(),
    ensures
        0 <= normal(v, v[i]) <= SCORE_ONE,
{
    lemma_extremes(v, i);
    let lo = least(v);
    let span = greatest(v) - lo;
    if span >= 1_000_000 {
        let a = v[i] - lo;
        assert(0 <= (a * 1_000_000_000_000_000) / span <= 1_000_000_000_000_000) by (
        nonlinear_arith)
            requires
                0 <= a <= span,
                span >= 1_000_000,
        ;
    }
}

/// Normalises scores in place into the range from zero to one; all become
/// one half where they do not differ.
pub fn normalize_on_delta(values: &mut Vec<u64>)
    ensures
        final(values)@.len() == old(values)@.len(),
        forall|i: int|
            0 <= i < old(values)@.len() ==> #[trigger] final(values)@[i] as int == normal(
                old(values)@,
                old(values)@[i],
            ),
        forall|i: int| 0 <= i < old(values)@.len() ==> #[trigger] final(values)@[i] <= SCORE_ONE,
{
    let n: usize = values.len();
    if n == 0 {
        return;
    }
    let ghost v = values@;
    let mut lo: u64 = u64::MAX;
    let mut hi: u64 = 0;
    for i in 0..n
        invariant
            n == values@.len(),
            v == values@,
            lo as int == least(v.take(i as int)),
            hi as int == greatest(v.take(i as int)),
    {
        let x: u64 = values[i];
        proof {
            assert(v.take(i + 1).drop_last() =~= v.take(i as int));
        }
        if x < lo {
            lo = x;
        }
        if x > hi {
            hi = x;
        }
    }
    proof {
        assert(v.take(n as int) =~= v);
        lemma_extremes(v, 0);
    }
    let span: u64 = hi - lo;
    for i in 0..n
        invariant
            n == values@.len(),
            n == v.len(),
            v == old(values)@,
            lo as int == least(v),
            hi as int == greatest(v),
            span == hi - lo,
            forall|j: int| 0 <= j < i ==> #[trigger] values@[j] as int == normal(v, v[j]),
            forall|j: int| i <= j < n ==> #[trigger] values@[j] == v[j],
    {
        proof {
            lemma_extremes(v, i as int);
            law_normal_range(v, i as int);
        }
        let y: u64 = if span < 1_000_000 {
            SCORE_ONE / 2
        } else {
            (((values[i] - lo) as u128 * SCORE_ONE as u128) / span as u128) as u64
        };
        values.set(i, y);
    }
    proof {
        assert forall|i: int| 0 <= i < v.len() implies #[trigger] values@[i] <= SCORE_ONE by {
            law_normal_range(v, i);
        }
    }
}

/// Normalising keeps the order of the scores; where they differ enough, the
/// smallest becomes zero and the largest one, and where they do not, all
/// become one half.
pub proof fn law_normal_keeps_order(v: Seq<u64>, i: int, j: int)
    requires
        0 <= i < v.len(),
        0 <= j < v.len(),
        v[i] <= v[j],
    ensures
        normal(v, v[i]) <= normal(v, v[j]),
        v[j] - v[i] >= 1_000_000 && (forall|k: int|
            0 <= k < v.len() ==> v[i] <= #[trigger] v[k] <= v[j]) ==> normal(v, v[i]) == 0 && normal(
            v,
            v[j],
        ) == 1_000_000_000_000_000,
        v[j] - v[i] < 1_000_000 && (forall|k: int|
            0 <= k < v.len() ==> v[i] <= #[trigger] v[k] <= v[j]) ==> normal(v, v[i])
            == 500_000_000_000_000 && normal(v, v[j]) == 500_000_000_000_000,
{
    lemma_extremes(v, i);
    lemma_extremes(v, j);
    let lo = least(v);
    let span = greatest(v) - lo;
    let x = (v[i] - lo) * SCORE_ONE;
    let y = (v[j] - lo) * SCORE_ONE;
    if span >= 1_000_000 {
        assert(x / span <= y / span) by (nonlinear_arith)
            requires
                x <= y,
                span > 0,
        ;
    }
    if forall|k: int| 0 <= k < v.len() ==> v[i] <= #[trigger] v[k] <= v[j] {
        lemma_bounds_of(v, v[i], v[j]);
        assert(lo == v[i] && greatest(v) == v[j]);
        if span >= 1_000_000 {
            assert(0int / span == 0 && (span * 1_000_000_000_000_000) / span
                == 1_000_000_000_000_000) by (nonlinear_arith)
                requires
                    span > 0,
            ;
        }
    }
}

proof fn lemma_bounds_of(v: Seq<u64>, low: u64, high: u64)
    requires
        v.len() > 0,
        forall|k: int| 0 <= k < v.len() ==> low <= #[trigger] v[k] <= high,
    ensures
        low <= least(v),
        greatest(v) <= high,
    decreases v.len(),
{
    let d = v.drop_last();
    assert(low <= v[v.len() - 1] <= high);
    if d.len() > 0 {
        assert forall|k: int| 0 <= k < d.len() implies low <= #[trigger] d[k] <= high by {
            assert(d[k] == v[k]);
        }
        lemma_bounds_of(d, low, high);
    }
}

} // verus!
