//! Orders: lexicographic order of text, stable sorting by numeric keys.
use crate::text::{chars_of, views};
use vstd::prelude::*;

verus! {

/// Lexicographic order by code point.
pub open spec fn lex_less(a: Seq<char>, b: Seq<char>) -> bool
    decreases a.len(),
{
    if b.len() == 0 {
        false
    } else if a.len() == 0 {
        true
    } else if a[0] != b[0] {
        a[0] < b[0]
    } else {
        lex_less(a.skip(1), b.skip(1))
    }
}

/// The order is irreflexive.
pub proof fn lemma_lex_irreflexive(a: Seq<char>)
    ensures
        !lex_less(a, a),
    decreases a.len(),
{
    if a.len() > 0 {
        lemma_lex_irreflexive(a.skip(1));
    }
}

/// The order is transitive.
pub proof fn lemma_lex_transitive(a: Seq<char>, b: Seq<char>, c: Seq<char>)
    requires
        lex_less(a, b),
        lex_less(b, c),
    ensures
        lex_less(a, c),
    decreases a.len(),
{
    if a.len() > 0 && a[0] == b[0] && b[0] == c[0] {
        lemma_lex_transitive(a.skip(1), b.skip(1), c.skip(1));
    }
}

/// Two different texts are ordered one way or the other.
pub proof fn lemma_lex_total(a: Seq<char>, b: Seq<char>)
    ensures
        lex_less(a, b) || lex_less(b, a) || a == b,
    decreases a.len(),
{
    if a.len() > 0 && b.len() > 0 && a[0] == b[0] {
        lemma_lex_total(a.skip(1), b.skip(1));
        if a.skip(1) == b.skip(1) {
            assert(a =~= seq![a[0]] + a.skip(1));
            assert(b =~= seq![b[0]] + b.skip(1));
        }
    } else if a.len() == 0 && b.len() == 0 {
        assert(a =~= b);
    }
}

/// Whether `a` comes before `b`.
pub fn str_less(a: &str, b: &str) -> (r: bool)
    ensures
        r == lex_less(a@, b@),
{
    let x: Vec<char> = chars_of(a);
    let y: Vec<char> = chars_of(b);
    let mut i: usize = 0;
    proof {
        assert(x@.skip(0) =~= x@);
        assert(y@.skip(0) =~= y@);
    }
    while i < x.len() && i < y.len()
        invariant
            i <= x@.len(),
            i <= y@.len(),
            x@ == a@,
            y@ == b@,
            lex_less(a@, b@) == lex_less(x@.skip(i as int), y@.skip(i as int)),
        decreases x@.len() - i,
    {
        proof {
            assert(x@.skip(i as int)[0] == x@[i as int]);
            assert(y@.skip(i as int)[0] == y@[i as int]);
            assert(x@.skip(i as int).skip(1) =~= x@.skip(i + 1));
            assert(y@.skip(i as int).skip(1) =~= y@.skip(i + 1));
        }
        if x[i] != y[i] {
            return x[i] < y[i];
        }
        i = i + 1;
    }
    i < y.len()
}

/// Inserts `x` into a sorted sequence, behind whatever does not come after
/// it.
pub open spec fn lex_insert(s: Seq<Seq<char>>, x: Seq<char>) -> Seq<Seq<char>>
    decreases s.len(),
{
    if s.len() == 0 {
        seq![x]
    } else if !lex_less(x, s.last()) {
        s.push(x)
    } else {
        lex_insert(s.drop_last(), x).push(s.last())
    }
}

/// A sequence of texts in lexicographic order.
pub open spec fn lex_sorted(s: Seq<Seq<char>>) -> Seq<Seq<char>>
    decreases s.len(),
{
    if s.len() == 0 {
        seq![]
    } else {
        lex_insert(lex_sorted(s.drop_last()), s.last())
    }
}

/// No text comes after a later one.
pub open spec fn is_lex_sorted(s: Seq<Seq<char>>) -> bool {
    forall|i: int, j: int| 0 <= i < j < s.len() ==> !lex_less(#[trigger] s[j], #[trigger] s[i])
}

proof fn lemma_lex_insert(s: Seq<Seq<char>>, x: Seq<char>)
    requires
        is_lex_sorted(s),
    ensures
        is_lex_sorted(lex_insert(s, x)),
        lex_insert(s, x).to_multiset() == s.to_multiset().insert(x),
        lex_insert(s, x).len() == s.len() + 1,
        forall|i: int|
            0 <= i < lex_insert(s, x).len() ==> #[trigger] lex_insert(s, x)[i] == x || s.contains(
                lex_insert(s, x)[i],
            ),
    decreases s.len(),
{
    broadcast use vstd::seq_lib::group_to_multiset_ensures;

    let r = lex_insert(s, x);
    if s.len() == 0 {
        assert(s.push(x) =~= seq![x]);
    } else if !lex_less(x, s.last()) {
        assert forall|i: int, j: int| 0 <= i < j < r.len() implies !lex_less(
            #[trigger] r[j],
            #[trigger] r[i],
        ) by {
            if j == s.len() && i < s.len() - 1 {
                lemma_lex_total(s[i], s.last());
                if lex_less(x, s[i]) && lex_less(s[i], s.last()) {
                    lemma_lex_transitive(x, s[i], s.last());
                }
            }
        }
    } else {
        let d = s.drop_last();
        lemma_lex_insert(d, x);
        let q = lex_insert(d, x);
        assert(s =~= d.push(s.last()));
        assert(r.to_multiset() =~= s.to_multiset().insert(x));
        assert forall|i: int| 0 <= i < r.len() implies #[trigger] r[i] == x || s.contains(r[i]) by {
            if i < q.len() {
                assert(r[i] == q[i]);
                if q[i] != x {
                    let k = choose|k: int| 0 <= k < d.len() && d[k] == q[i];
                    assert(s[k] == r[i]);
                }
            } else {
                assert(s[s.len() - 1] == r[i]);
            }
        }
        assert forall|i: int, j: int| 0 <= i < j < r.len() implies !lex_less(
            #[trigger] r[j],
            #[trigger] r[i],
        ) by {
            if j == r.len() - 1 {
                assert(r[i] == q[i]);
                if q[i] == x {
                    if lex_less(s.last(), x) {
                        lemma_lex_transitive(x, s.last(), x);
                        lemma_lex_irreflexive(x);
                    }
                } else {
                    let k = choose|k: int| 0 <= k < d.len() && d[k] == q[i];
                    assert(s[k] == r[i]);
                }
            } else {
                assert(r[i] == q[i] && r[j] == q[j]);
            }
        }
    }
}

/// Sorting gives a sorted rearrangement.
pub proof fn law_lex_sorted(s: Seq<Seq<char>>)
    ensures
        is_lex_sorted(lex_sorted(s)),
        lex_sorted(s).to_multiset() == s.to_multiset(),
        lex_sorted(s).len() == s.len(),
    decreases s.len(),
{
    broadcast use vstd::seq_lib::group_to_multiset_ensures;

    if s.len() > 0 {
        law_lex_sorted(s.drop_last());
        lemma_lex_insert(lex_sorted(s.drop_last()), s.last());
        assert(s =~= s.drop_last().push(s.last()));
    } else {
        assert(s =~= Seq::<Seq<char>>::empty());
    }
}

proof fn lemma_lex_insert_at(s: Seq<Seq<char>>, x: Seq<char>, p: int)
    requires
        0 <= p <= s.len(),
        p > 0 ==> !lex_less(x, s[p - 1]),
        forall|i: int| p <= i < s.len() ==> lex_less(x, #[trigger] s[i]),
    ensures
        lex_insert(s, x) == s.insert(p, x),
    decreases s.len() - p,
{
    if p < s.len() {
        lemma_lex_insert_at(s.drop_last(), x, p);
        assert(s.drop_last().insert(p, x).push(s.last()) =~= s.insert(p, x));
    } else {
        assert(s.push(x) =~= s.insert(p, x));
        assert(s.len() == 0 ==> seq![x] =~= s.insert(p, x));
    }
}

/// Sorts strings lexicographically.
pub fn sort_strings(v: &Vec<String>) -> (r: Vec<String>)
    ensures
        views(r@) == lex_sorted(views(v@)),
{
    let mut out: Vec<String> = Vec::new();
    proof {
        assert(views(out@) =~= lex_sorted(views(v@).take(0)));
    }
    for i in 0..v.len()
        invariant
            views(out@) == lex_sorted(views(v@).take(i as int)),
            out@.len() <= i,
    {
        let mut p: usize = out.len();
        while p > 0 && str_less(v[i].as_str(), out[p - 1].as_str())
            invariant
                p <= out@.len(),
                i < v@.len(),
                forall|k: int|
                    p <= k < out@.len() ==> lex_less(v@[i as int]@, #[trigger] views(out@)[k]),
            decreases p,
        {
            p = p - 1;
        }
        let ghost before = out@;
        out.insert(p, v[i].clone());
        proof {
            lemma_lex_insert_at(views(before), v@[i as int]@, p as int);
            assert(views(out@) =~= views(before).insert(p as int, v@[i as int]@));
            assert(views(v@).take(i + 1).drop_last() =~= views(v@).take(i as int));
        }
    }
    proof {
        assert(views(v@).take(v@.len() as int) =~= views(v@));
    }
    out
}

/// Inserts the index `x` into an order, behind every index whose key is at
/// least as large.
pub open spec fn place(order: Seq<int>, keys: Seq<int>, x: int) -> Seq<int>
    decreases order.len(),
{
    if order.len() == 0 {
        seq![x]
    } else if keys[order.last()] >= keys[x] {
        order.push(x)
    } else {
        place(order.drop_last(), keys, x).push(order.last())
    }
}

/// The first `n` indices ordered by key, largest first, equal keys in their
/// original order.
pub open spec fn descending(keys: Seq<int>, n: nat) -> Seq<int>
    decreases n,
{
    if n == 0 {
        seq![]
    } else {
        place(descending(keys, (n - 1) as nat), keys, n - 1)
    }
}

/// Whether an order holds each of the first `n` indices once, larger keys
/// first and equal keys in index order.
pub open spec fn is_descending(keys: Seq<int>, n: nat, order: Seq<int>) -> bool {
    &&& order.len() == n
    &&& forall|i: int| 0 <= i < n ==> 0 <= #[trigger] order[i] < n
    &&& forall|i: int, j: int|
        0 <= i < j < n ==> {
            ||| keys[#[trigger] order[i]] > keys[#[trigger] order[j]]
            ||| keys[order[i]] == keys[order[j]] && order[i] < order[j]
        }
}

proof fn lemma_place(order: Seq<int>, keys: Seq<int>, x: int)
    requires
        forall|i: int| 0 <= i < order.len() ==> 0 <= #[trigger] order[i] < x,
        forall|i: int, j: int|
            0 <= i < j < order.len() ==> {
                ||| keys[#[trigger] order[i]] > keys[#[trigger] order[j]]
                ||| keys[order[i]] == keys[order[j]] && order[i] < order[j]
            },
        0 <= x,
    ensures
        place(order, keys, x).len() == order.len() + 1,
        forall|i: int| 0 <= i <= order.len() ==> 0 <= #[trigger] place(order, keys, x)[i] <= x,
        forall|i: int|
            0 <= i <= order.len() ==> #[trigger] place(order, keys, x)[i] == x || order.contains(
                place(order, keys, x)[i],
            ),
        forall|i: int, j: int|
            0 <= i < j <= order.len() ==> {
                ||| keys[#[trigger] place(order, keys, x)[i]] > keys[#[trigger] place(
                    order,
                    keys,
                    x,
                )[j]]
                ||| keys[place(order, keys, x)[i]] == keys[place(order, keys, x)[j]] && place(
                    order,
                    keys,
                    x,
                )[i] < place(order, keys, x)[j]
            },
    decreases order.len(),
{
    let r = place(order, keys, x);
    if order.len() == 0 {
    } else if keys[order.last()] >= keys[x] {
        assert forall|i: int| 0 <= i <= order.len() implies #[trigger] r[i] == x
            || order.contains(r[i]) by {
            if i < order.len() {
                assert(order[i] == r[i]);
            }
        }
    } else {
        let d = order.drop_last();
        let q = place(d, keys, x);
        lemma_place(d, keys, x);
        assert forall|i: int| 0 <= i <= order.len() implies #[trigger] r[i] == x
            || order.contains(r[i]) by {
            if i < q.len() {
                assert(r[i] == q[i]);
                if q[i] != x {
                    let k = choose|k: int| 0 <= k < d.len() && d[k] == q[i];
                    assert(order[k] == r[i]);
                }
            } else {
                assert(order[order.len() - 1] == r[i]);
            }
        }
        assert forall|i: int, j: int| 0 <= i < j <= order.len() implies {
            ||| keys[#[trigger] r[i]] > keys[#[trigger] r[j]]
            ||| keys[r[i]] == keys[r[j]] && r[i] < r[j]
        } by {
            assert(r[i] == q[i]);
            if j < q.len() {
                assert(r[j] == q[j]);
            } else if q[i] != x {
                let k = choose|k: int| 0 <= k < d.len() && d[k] == q[i];
                assert(order[k] == r[i]);
                assert(order[order.len() - 1] == r[j]);
            }
        }
    }
}

/// The order is a permutation of the indices, sorted by key and stable.
pub proof fn law_descending(keys: Seq<int>, n: nat)
    ensures
        is_descending(keys, n, descending(keys, n)),
    decreases n,
{
    if n > 0 {
        law_descending(keys, (n - 1) as nat);
        lemma_place(descending(keys, (n - 1) as nat), keys, n - 1);
    }
}

proof fn lemma_place_keeps(order: Seq<int>, keys: Seq<int>, x: int, y: int)
    requires
        y == x || order.contains(y),
    ensures
        place(order, keys, x).contains(y),
    decreases order.len(),
{
    let r = place(order, keys, x);
    if order.len() == 0 {
        assert(r[0] == x);
    } else if keys[order.last()] >= keys[x] {
        if y == x {
            assert(r[order.len() as int] == x);
        } else {
            let q = choose|q: int| 0 <= q < order.len() && order[q] == y;
            assert(r[q] == y);
        }
    } else {
        let t = place(order.drop_last(), keys, x);
        if y != x && y == order.last() {
            assert(r[t.len() as int] == y);
        } else {
            if y != x {
                let q = choose|q: int| 0 <= q < order.len() && order[q] == y;
                assert(order.drop_last()[q] == y);
            }
            lemma_place_keeps(order.drop_last(), keys, x, y);
            let q = choose|q: int| 0 <= q < t.len() && t[q] == y;
            assert(r[q] == y);
        }
    }
}

/// Every index has its place in the order.
pub proof fn law_descending_is_complete(keys: Seq<int>, n: nat, i: int)
    requires
        0 <= i < n,
    ensures
        descending(keys, n).contains(i),
    decreases n,
{
    if i < n - 1 {
        law_descending_is_complete(keys, (n - 1) as nat, i);
    }
    lemma_place_keeps(descending(keys, (n - 1) as nat), keys, n - 1, i);
}

proof fn lemma_place_at(order: Seq<int>, keys: Seq<int>, x: int, p: int)
    requires
        0 <= p <= order.len(),
        p > 0 ==> keys[order[p - 1]] >= keys[x],
        forall|i: int| p <= i < order.len() ==> keys[#[trigger] order[i]] < keys[x],
    ensures
        place(order, keys, x) == order.insert(p, x),
    decreases order.len() - p,
{
    if p < order.len() {
        lemma_place_at(order.drop_last(), keys, x, p);
        assert(order.drop_last().insert(p, x).push(order.last()) =~= order.insert(p, x));
    } else {
        assert(order.push(x) =~= order.insert(p, x));
        assert(order.len() == 0 ==> seq![x] =~= order.insert(p, x));
    }
}

/// Machine keys as integers.
pub open spec fn ints(keys: Seq<i128>) -> Seq<int> {
    keys.map_values(|k: i128| k as int)
}

/// Machine indices as integers.
pub open spec fn indices(order: Seq<usize>) -> Seq<int> {
    order.map_values(|k: usize| k as int)
}

/// The indices of `keys`, largest key first, equal keys in their original
/// order.
pub fn descending_order(keys: &Vec<i128>) -> (r: Vec<usize>)
    ensures
        indices(r@) == descending(ints(keys@), keys@.len()),
        is_descending(ints(keys@), keys@.len(), indices(r@)),
        r@.len() == keys@.len(),
        forall|i: int| 0 <= i < r@.len() ==> 0 <= #[trigger] r@[i] < keys@.len(),
{
    let mut out: Vec<usize> = Vec::new();
    let ghost ks = ints(keys@);
    proof {
        assert(indices(out@) =~= descending(ks, 0));
    }
    for i in 0..keys.len()
        invariant
            ks == ints(keys@),
            out@.len() == i,
            indices(out@) == descending(ks, i as nat),
            forall|j: int| 0 <= j < i ==> 0 <= #[trigger] out@[j] < i,
    {
        let mut p: usize = out.len();
        while p > 0 && keys[out[p - 1]] < keys[i]
            invariant
                p <= out@.len(),
                i < keys@.len(),
                ks == ints(keys@),
                forall|j: int| 0 <= j < out@.len() ==> 0 <= #[trigger] out@[j] < i,
                forall|k: int|
                    p <= k < out@.len() ==> ks[#[trigger] indices(out@)[k]] < ks[i as int],
            decreases p,
        {
            p = p - 1;
        }
        let ghost before = out@;
        out.insert(p, i);
        proof {
            lemma_place_at(indices(before), ks, i as int, p as int);
            assert(indices(out@) =~= indices(before).insert(p as int, i as int));
        }
    }
    proof {
        law_descending(ks, keys@.len());
    }
    out
}

} // verus!
