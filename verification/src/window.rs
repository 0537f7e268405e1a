//! Bounded histories and bounded selections.
use crate::order::{descending, indices, law_descending, law_descending_is_complete};
use vstd::prelude::*;

verus! {

/// The last `n` elements, or all where there are fewer.
pub open spec fn keep_last<T>(s: Seq<T>, n: nat) -> Seq<T> {
    if s.len() > n {
        s.skip(s.len() - n)
    } else {
        s
    }
}

/// The first `k` elements, or all where there are fewer.
pub open spec fn at_most<T>(s: Seq<T>, k: nat) -> Seq<T> {
    if k < s.len() {
        s.take(k as int)
    } else {
        s
    }
}

/// Drops the oldest elements until at most `n` are left.
pub fn drop_oldest<T>(v: Vec<T>, n: usize) -> (r: Vec<T>)
    ensures
        r@ == keep_last(v@, n as nat),
        r@.len() <= n,
{
    let mut out: Vec<T> = v;
    if out.len() > n {
        let cut: usize = out.len() - n;
        let tail: Vec<T> = out.split_off(cut);
        proof {
            assert(tail@ =~= v@.skip(cut as int));
        }
        tail
    } else {
        out
    }
}

/// The first `limit` indices of an order that are marked.
pub open spec fn picked(order: Seq<int>, marks: Seq<bool>, limit: nat) -> Seq<int> {
    at_most(order.filter(|i: int| marks[i]), limit)
}

/// Picks the first `limit` marked indices of an order.
pub fn pick(order: &Vec<usize>, marks: &Vec<bool>, limit: usize) -> (r: Vec<usize>)
    requires
        forall|j: int| 0 <= j < order@.len() ==> #[trigger] order@[j] < marks@.len(),
    ensures
        indices(r@) == picked(indices(order@), marks@, limit as nat),
        r@.len() <= limit,
        forall|j: int| 0 <= j < r@.len() ==> #[trigger] r@[j] < marks@.len(),
{
    let mut out: Vec<usize> = Vec::new();
    let ghost ord = indices(order@);
    let ghost good = |i: int| marks@[i];
    let mut i: usize = 0;
    proof {
        reveal(Seq::filter);
        assert(indices(out@) =~= ord.take(0).filter(good));
    }
    while i < order.len() && out.len() < limit
        invariant
            i <= order@.len(),
            ord == indices(order@),
            good == (|i: int| marks@[i]),
            forall|j: int| 0 <= j < order@.len() ==> #[trigger] order@[j] < marks@.len(),
            forall|j: int| 0 <= j < out@.len() ==> #[trigger] out@[j] < marks@.len(),
            indices(out@) == ord.take(i as int).filter(good),
            out@.len() <= limit,
        decreases order@.len() - i,
    {
        let x: usize = order[i];
        proof {
            reveal(Seq::filter);
            assert(ord.take(i + 1).drop_last() =~= ord.take(i as int));
            assert(ord.take(i + 1).last() == x as int);
        }
        if marks[x] {
            let ghost before = out@;
            out.push(x);
            proof {
                assert(indices(out@) =~= indices(before).push(x as int));
            }
        }
        i = i + 1;
    }
    proof {
        let rest = ord.skip(i as int);
        assert(ord =~= ord.take(i as int) + rest);
        Seq::filter_distributes_over_add(ord.take(i as int), rest, good);
        if i == order@.len() {
            reveal(Seq::filter);
            assert(rest =~= Seq::<int>::empty());
            assert(ord.filter(good) =~= indices(out@));
        }
        assert(indices(out@).len() == out@.len());
        assert(at_most(ord.filter(good), limit as nat) =~= indices(out@));
    }
    out
}

proof fn lemma_filtered(keys: Seq<int>, d: Seq<int>, good: spec_fn(int) -> bool)
    requires
        forall|i: int, j: int|
            0 <= i < j < d.len() ==> keys[#[trigger] d[i]] >= keys[#[trigger] d[j]],
    ensures
        ({
            let f = d.filter(good);
            &&& forall|i: int| 0 <= i < f.len() ==> good(#[trigger] f[i]) && d.contains(f[i])
            &&& forall|i: int, j: int|
                0 <= i < j < f.len() ==> keys[#[trigger] f[i]] >= keys[#[trigger] f[j]]
        }),
    decreases d.len(),
{
    reveal(Seq::filter);
    if d.len() > 0 {
        let e = d.drop_last();
        assert forall|i: int, j: int| 0 <= i < j < e.len() implies keys[#[trigger] e[i]]
            >= keys[#[trigger] e[j]] by {
            assert(keys[d[i]] >= keys[d[j]]);
        }
        lemma_filtered(keys, e, good);
        let g = e.filter(good);
        let f = d.filter(good);
        assert forall|i: int| 0 <= i < f.len() implies good(#[trigger] f[i]) && d.contains(f[i]) by {
            if i < g.len() {
                assert(f[i] == g[i]);
                let p = choose|p: int| 0 <= p < e.len() && e[p] == g[i];
                assert(d[p] == f[i]);
            } else {
                assert(d[d.len() - 1] == f[i]);
            }
        }
        assert forall|i: int, j: int| 0 <= i < j < f.len() implies keys[#[trigger] f[i]]
            >= keys[#[trigger] f[j]] by {
            if j < g.len() {
                assert(f[i] == g[i] && f[j] == g[j]);
            } else {
                assert(f[i] == g[i]);
                let p = choose|p: int| 0 <= p < e.len() && e[p] == g[i];
                assert(d[p] == f[i] && d[d.len() - 1] == f[j]);
            }
        }
    }
}

/// Picking from an order by keys gives at most as many as asked for, marked
/// ones only, larger keys first. Nothing marked that was left out has a
/// larger key than what was picked, and nothing marked is left out while
/// there is room.
pub proof fn law_best_marked_are_picked(keys: Seq<int>, marks: Seq<bool>, limit: nat)
    requires
        marks.len() == keys.len(),
    ensures
        ({
            let r = picked(descending(keys, keys.len()), marks, limit);
            &&& r.len() <= limit
            &&& forall|i: int|
                0 <= i < r.len() ==> 0 <= #[trigger] r[i] < keys.len() && marks[r[i]]
            &&& forall|i: int, j: int|
                0 <= i < j < r.len() ==> keys[#[trigger] r[i]] >= keys[#[trigger] r[j]]
            &&& forall|m: int, i: int|
                0 <= m < keys.len() && marks[m] && !#[trigger] r.contains(m) && 0 <= i < r.len()
                    ==> keys[m] <= keys[#[trigger] r[i]]
            &&& r.len() < limit ==> forall|m: int|
                0 <= m < keys.len() && marks[m] ==> #[trigger] r.contains(m)
        }),
{
    let n = keys.len();
    let d = descending(keys, n);
    let good = |i: int| marks[i];
    let f = d.filter(good);
    let r = picked(d, marks, limit);
    law_descending(keys, n);
    lemma_filtered(keys, d, good);
    assert forall|i: int| 0 <= i < r.len() implies 0 <= #[trigger] r[i] < n && marks[r[i]] by {
        assert(r[i] == f[i]);
        let p = choose|p: int| 0 <= p < d.len() && d[p] == f[i];
        assert(0 <= d[p] < n);
    }
    assert forall|i: int, j: int| 0 <= i < j < r.len() implies keys[#[trigger] r[i]]
        >= keys[#[trigger] r[j]] by {
        assert(r[i] == f[i] && r[j] == f[j]);
    }
    assert forall|m: int| 0 <= m < n && marks[m] && !#[trigger] r.contains(m) implies r.len()
        == limit && forall|i: int| 0 <= i < r.len() ==> keys[m] <= keys[#[trigger] r[i]] by {
        law_descending_is_complete(keys, n, m);
        let p = choose|p: int| 0 <= p < d.len() && d[p] == m;
        d.lemma_filter_contains(good, p);
        let z = choose|z: int| 0 <= z < f.len() && f[z] == m;
        if z < r.len() {
            assert(r[z] == m);
        }
        assert forall|i: int| 0 <= i < r.len() implies keys[m] <= keys[#[trigger] r[i]] by {
            assert(r[i] == f[i]);
            assert(keys[f[i]] >= keys[f[z]]);
        }
    }
}

/// A window keeps the newest: what it keeps is the end of what there was,
/// and it drops nothing that has room.
pub proof fn law_window_keeps_the_newest<T>(s: Seq<T>, n: nat)
    ensures
        keep_last(s, n).len() == if s.len() < n {
            s.len()
        } else {
            n
        },
        forall|i: int|
            0 <= i < keep_last(s, n).len() ==> keep_last(s, n)[i] == #[trigger] s[s.len()
                - keep_last(s, n).len() + i],
        at_most(s, n).len() == if s.len() < n {
            s.len()
        } else {
            n
        },
        forall|i: int| 0 <= i < at_most(s, n).len() ==> at_most(s, n)[i] == #[trigger] s[i],
{
}

} // verus!
