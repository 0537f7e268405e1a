//! Scores by identifier, in the order in which identifiers first appeared.
use crate::order::{
    descending, descending_order, indices, ints, law_descending, law_descending_is_complete,
};
use crate::text::{owned, same};
use vstd::prelude::*;

verus! {

/// Scores by identifier.
#[derive(Debug)]
pub struct Tally {
    pub entries: Vec<(String, i64)>,
}

/// The mathematical value of a list of scored identifiers.
pub open spec fn scored_views(s: Seq<(String, i64)>) -> Seq<(Seq<char>, i64)> {
    s.map_values(|e: (String, i64)| (e.0@, e.1))
}

impl View for Tally {
    type V = Seq<(Seq<char>, i64)>;

    open spec fn view(&self) -> Seq<(Seq<char>, i64)> {
        scored_views(self.entries@)
    }
}

/// The position of an identifier, or the length when it has no score.
pub open spec fn score_index(s: Seq<(Seq<char>, i64)>, id: Seq<char>) -> int
    decreases s.len(),
{
    if s.len() == 0 || s[0].0 == id {
        0
    } else {
        1 + score_index(s.skip(1), id)
    }
}

/// Whether an identifier has a score.
pub open spec fn has_score(s: Seq<(Seq<char>, i64)>, id: Seq<char>) -> bool {
    score_index(s, id) < s.len()
}

/// No identifier occurs twice.
pub open spec fn ids_unique(s: Seq<(Seq<char>, i64)>) -> bool {
    forall|i: int, j: int| 0 <= i < j < s.len() ==> (#[trigger] s[i]).0 != (#[trigger] s[j]).0
}

/// A sum held within the range of its type.
pub open spec fn capped_sum(a: i64, b: i64) -> i64 {
    if a + b > i64::MAX {
        i64::MAX
    } else if a + b < i64::MIN {
        i64::MIN
    } else {
        (a + b) as i64
    }
}

/// The scores after `x` was added to one.
pub open spec fn with_score_added(s: Seq<(Seq<char>, i64)>, id: Seq<char>, x: i64) -> Seq<
    (Seq<char>, i64),
> {
    let i = score_index(s, id);
    if i < s.len() {
        s.update(i, (id, capped_sum(s[i].1, x)))
    } else {
        s.push((id, x))
    }
}

/// Whether a score would rise to `x`: it is smaller or there is none.
pub open spec fn would_rise(s: Seq<(Seq<char>, i64)>, id: Seq<char>, x: i64) -> bool {
    !has_score(s, id) || s[score_index(s, id)].1 < x
}

/// The scores after one was raised to at least `x`.
pub open spec fn with_score_raised(s: Seq<(Seq<char>, i64)>, id: Seq<char>, x: i64) -> Seq<
    (Seq<char>, i64),
> {
    let i = score_index(s, id);
    if i >= s.len() {
        s.push((id, x))
    } else if s[i].1 < x {
        s.update(i, (id, x))
    } else {
        s
    }
}

/// The scores after one was set.
pub open spec fn with_score_set(s: Seq<(Seq<char>, i64)>, id: Seq<char>, x: i64) -> Seq<
    (Seq<char>, i64),
> {
    let i = score_index(s, id);
    if i < s.len() {
        s.update(i, (id, x))
    } else {
        s.push((id, x))
    }
}

/// The scores as sort keys.
pub open spec fn score_keys(s: Seq<(Seq<char>, i64)>) -> Seq<int> {
    s.map_values(|e: (Seq<char>, i64)| e.1 as int)
}

/// Scored identifiers, best first, equal scores in their original order.
pub open spec fn best_first(s: Seq<(Seq<char>, i64)>) -> Seq<(Seq<char>, i64)> {
    descending(score_keys(s), s.len()).map_values(|i: int| s[i])
}

/// The position is where the identifier first occurs.
pub proof fn lemma_score_index(s: Seq<(Seq<char>, i64)>, id: Seq<char>)
    ensures
        0 <= score_index(s, id) <= s.len(),
        score_index(s, id) < s.len() ==> s[score_index(s, id)].0 == id,
        forall|i: int| 0 <= i < score_index(s, id) ==> (#[trigger] s[i]).0 != id,
    decreases s.len(),
{
    if s.len() > 0 && s[0].0 != id {
        let t = s.skip(1);
        lemma_score_index(t, id);
        assert forall|i: int| 0 <= i < score_index(s, id) implies (#[trigger] s[i]).0 != id by {
            if i > 0 {
                assert(s[i] == t[i - 1]);
            }
        }
    }
}

proof fn lemma_score_index_is(s: Seq<(Seq<char>, i64)>, id: Seq<char>, k: int)
    requires
        0 <= k <= s.len(),
        k < s.len() ==> s[k].0 == id,
        forall|i: int| 0 <= i < k ==> (#[trigger] s[i]).0 != id,
    ensures
        score_index(s, id) == k,
{
    lemma_score_index(s, id);
    let d = score_index(s, id);
    if d < k {
        assert(s[d].0 != id);
    } else if k < d {
        assert(s[k].0 != id);
    }
}

/// Raising a score never lowers any, and keeps identifiers unique.
pub proof fn law_raising_never_lowers(s: Seq<(Seq<char>, i64)>, id: Seq<char>, x: i64, k: int)
    requires
        ids_unique(s),
        0 <= k < s.len(),
    ensures
        with_score_raised(s, id, x)[k].0 == s[k].0,
        with_score_raised(s, id, x)[k].1 >= s[k].1,
        ids_unique(with_score_raised(s, id, x)),
{
    lemma_score_index(s, id);
}

impl Tally {
    pub fn new() -> (r: Tally)
        ensures
            r@ == Seq::<(Seq<char>, i64)>::empty(),
    {
        let r = Tally { entries: Vec::new() };
        proof {
            assert(r@ =~= Seq::empty());
        }
        r
    }

    pub fn find(&self, id: &str) -> (r: usize)
        ensures
            r == score_index(self@, id@),
            r <= self.entries@.len(),
            self@.len() == self.entries@.len(),
            r < self.entries@.len() ==> self@[r as int].0 == id@,
    {
        let mut i: usize = 0;
        while i < self.entries.len()
            invariant_except_break
                i <= self.entries@.len(),
            invariant
                self@.len() == self.entries@.len(),
                forall|j: int| 0 <= j < i ==> (#[trigger] self@[j]).0 != id@,
            ensures
                i <= self.entries@.len(),
                i < self.entries@.len() ==> self@[i as int].0 == id@,
            decreases self.entries@.len() - i,
        {
            if same(self.entries[i].0.as_str(), id) {
                break;
            }
            i = i + 1;
        }
        proof {
            lemma_score_index_is(self@, id@, i as int);
        }
        i
    }

    /// Sets a score.
    pub fn set_score(&mut self, id: &str, x: i64)
        ensures
            final(self)@ == with_score_set(old(self)@, id@, x),
    {
        let i: usize = self.find(id);
        if i < self.entries.len() {
            self.entries.set(i, (owned(id), x));
        } else {
            self.entries.push((owned(id), x));
        }
        proof {
            assert(self@ =~= with_score_set(old(self)@, id@, x));
        }
    }

    /// Adds to a score, which starts at zero.
    pub fn increase(&mut self, id: &str, x: i64)
        ensures
            final(self)@ == with_score_added(old(self)@, id@, x),
    {
        let i: usize = self.find(id);
        if i < self.entries.len() {
            let sum: i128 = self.entries[i].1 as i128 + x as i128;
            let y: i64 = if sum > i64::MAX as i128 {
                i64::MAX
            } else if sum < i64::MIN as i128 {
                i64::MIN
            } else {
                sum as i64
            };
            self.entries.set(i, (owned(id), y));
        } else {
            self.entries.push((owned(id), x));
        }
        proof {
            assert(self@ =~= with_score_added(old(self)@, id@, x));
        }
    }

    /// Raises a score to at least `x`; tells whether it changed.
    pub fn raise(&mut self, id: &str, x: i64) -> (r: bool)
        ensures
            r == would_rise(old(self)@, id@, x),
            final(self)@ == with_score_raised(old(self)@, id@, x),
    {
        let i: usize = self.find(id);
        let mut risen: bool = false;
        if i >= self.entries.len() {
            self.entries.push((owned(id), x));
            risen = true;
        } else if self.entries[i].1 < x {
            self.entries.set(i, (owned(id), x));
            risen = true;
        }
        proof {
            assert(self@ =~= with_score_raised(old(self)@, id@, x));
        }
        risen
    }

    /// The positions of the entries, best score first, equal scores in their
    /// original order.
    pub fn order(&self) -> (r: Vec<usize>)
        ensures
            indices(r@) == descending(score_keys(self@), self@.len()),
            r@.len() == self.entries@.len(),
            forall|j: int| 0 <= j < r@.len() ==> #[trigger] r@[j] < self.entries@.len(),
    {
        let mut keys: Vec<i128> = Vec::new();
        for i in 0..self.entries.len()
            invariant
                keys@.len() == i,
                forall|j: int| 0 <= j < i ==> #[trigger] keys@[j] == self.entries@[j].1,
        {
            keys.push(self.entries[i].1 as i128);
        }
        proof {
            assert(ints(keys@) =~= score_keys(self@));
        }
        descending_order(&keys)
    }

    /// The entries, best score first, equal scores in their original order.
    pub fn ranked(&self) -> (r: Vec<(String, i64)>)
        ensures
            scored_views(r@) == best_first(self@),
    {
        let order: Vec<usize> = self.order();
        let ghost s = self@;
        let ghost ord = indices(order@);
        let mut out: Vec<(String, i64)> = Vec::new();
        proof {
            assert(scored_views(out@) =~= ord.take(0).map_values(|i: int| s[i]));
        }
        for i in 0..order.len()
            invariant
                s == self@,
                ord == indices(order@),
                forall|j: int| 0 <= j < order@.len() ==> #[trigger] order@[j] < self.entries@.len(),
                scored_views(out@) == ord.take(i as int).map_values(|i: int| s[i]),
        {
            let x: usize = order[i];
            let e: (String, i64) = (self.entries[x].0.clone(), self.entries[x].1);
            let ghost before = out@;
            out.push(e);
            proof {
                assert(scored_views(out@) =~= scored_views(before).push((e.0@, e.1)));
                assert(ord.take(i + 1) =~= ord.take(i as int).push(x as int));
                assert(ord.take(i + 1).map_values(|i: int| s[i]) =~= ord.take(i as int).map_values(
                    |i: int| s[i],
                ).push(s[x as int]));
            }
        }
        proof {
            assert(ord.take(ord.len() as int) =~= ord);
        }
        out
    }
}

/// Adding to a score adds just so much to it, as far as it fits, and to no
/// other; what had no score gets one.
pub proof fn law_adding_to_a_score(s: Seq<(Seq<char>, i64)>, id: Seq<char>, x: i64, other: Seq<char>)
    requires
        ids_unique(s),
    ensures
        ({
            let t = with_score_added(s, id, x);
            let i = score_index(s, id);
            &&& ids_unique(t)
            &&& has_score(t, id)
            &&& has_score(s, id) && i64::MIN <= s[i].1 + x <= i64::MAX ==> t[score_index(t, id)].1
                == s[i].1 + x
            &&& !has_score(s, id) ==> t[score_index(t, id)].1 == x
            &&& other != id ==> has_score(t, other) == has_score(s, other)
            &&& other != id && has_score(s, other) ==> t[score_index(t, other)]
                == s[score_index(s, other)]
        }),
{
    let t = with_score_added(s, id, x);
    lemma_score_index(s, id);
    lemma_score_index(s, other);
    let i = score_index(s, id);
    let j = score_index(s, other);
    assert forall|q: int| 0 <= q < i implies (#[trigger] t[q]).0 != id by {
        assert(t[q] == s[q]);
    }
    lemma_score_index_is(t, id, i);
    if other != id {
        assert forall|q: int| 0 <= q < j implies (#[trigger] t[q]).0 != other by {
            assert(s[q].0 != other);
        }
        if j < s.len() {
            lemma_score_index_is(t, other, j);
        } else {
            assert forall|q: int| 0 <= q < t.len() implies (#[trigger] t[q]).0 != other by {
                if q < s.len() {
                    assert(s[q].0 != other);
                }
            }
            lemma_score_index_is(t, other, t.len() as int);
        }
    }
    assert forall|a: int, b: int| 0 <= a < b < t.len() implies (#[trigger] t[a]).0 != (
    #[trigger] t[b]).0 by {
        if b < s.len() {
            assert(s[a].0 != s[b].0);
        } else {
            assert(s[a].0 != id);
        }
    }
}

/// Ranked scores are the same scores, each once, the best first.
pub proof fn law_ranked_scores(s: Seq<(Seq<char>, i64)>)
    ensures
        best_first(s).len() == s.len(),
        forall|i: int, j: int|
            0 <= i < j < s.len() ==> (#[trigger] best_first(s)[i]).1 >= (
            #[trigger] best_first(s)[j]).1,
        forall|i: int| 0 <= i < s.len() ==> best_first(s).contains(#[trigger] s[i]),
        forall|i: int| 0 <= i < s.len() ==> s.contains(#[trigger] best_first(s)[i]),
{
    let keys = score_keys(s);
    let order = descending(keys, s.len());
    let r = best_first(s);
    law_descending(keys, s.len());
    assert forall|i: int, j: int| 0 <= i < j < s.len() implies (#[trigger] r[i]).1 >= (
    #[trigger] r[j]).1 by {
        assert(keys[order[i]] == r[i].1 && keys[order[j]] == r[j].1);
    }
    assert forall|i: int| 0 <= i < s.len() implies r.contains(#[trigger] s[i]) by {
        law_descending_is_complete(keys, s.len(), i);
        let q = choose|q: int| 0 <= q < order.len() && order[q] == i;
        assert(r[q] == s[i]);
    }
    assert forall|i: int| 0 <= i < s.len() implies s.contains(#[trigger] r[i]) by {
        assert(r[i] == s[order[i]]);
    }
}

/// A score that is set is the one that was given, and the others stay.
pub proof fn law_setting_a_score(s: Seq<(Seq<char>, i64)>, id: Seq<char>, x: i64, other: Seq<char>)
    ensures
        ({
            let t = with_score_set(s, id, x);
            &&& has_score(t, id)
            &&& t[score_index(t, id)].1 == x
            &&& other != id ==> has_score(t, other) == has_score(s, other)
            &&& other != id && has_score(s, other) ==> t[score_index(t, other)]
                == s[score_index(s, other)]
            &&& would_rise(s, id, x) <==> (!has_score(s, id) || s[score_index(s, id)].1 < x)
            &&& !would_rise(t, id, x)
        }),
{
    let t = with_score_set(s, id, x);
    lemma_score_index(s, id);
    lemma_score_index(s, other);
    let i = score_index(s, id);
    let j = score_index(s, other);
    assert forall|q: int| 0 <= q < i implies (#[trigger] t[q]).0 != id by {
        assert(t[q] == s[q]);
    }
    lemma_score_index_is(t, id, i);
    if other != id {
        assert forall|q: int| 0 <= q < j implies (#[trigger] t[q]).0 != other by {
            assert(s[q].0 != other);
        }
        if j < s.len() {
            lemma_score_index_is(t, other, j);
        } else {
            assert forall|q: int| 0 <= q < t.len() implies (#[trigger] t[q]).0 != other by {
                if q < s.len() {
                    assert(s[q].0 != other);
                }
            }
            lemma_score_index_is(t, other, t.len() as int);
        }
    }
}

} // verus!
