//! Retrieval by spreading activation through the link graph.
//!
//! Activation starts at the seeds and passes along links, weakened at every
//! hop. A unit keeps the strongest activation that reaches it. Quantities
//! are fixed-point numbers, in billionths.
use crate::fixed::{law_product, law_product_is_monotone, mul_fixed, mul_fixed_of, ONE};
use crate::memory::tally::{
    ids_unique, law_raising_never_lowers, lemma_score_index, score_index, score_keys, scored_views,
    with_score_raised, with_score_set, would_rise, Tally,
};
use crate::order::{descending, indices};
use crate::text::same;
use crate::window::{law_best_marked_are_picked, pick, picked};
use vstd::arithmetic::div_mod::lemma_div_is_ordered;
use vstd::arithmetic::mul::lemma_mul_inequality;
use vstd::prelude::*;

verus! {

/// One unit that activation reached.
#[derive(Debug, Clone)]
pub struct GraphHit {
    pub unit_id: String,
    pub activation: i64,
}

/// The views of a sequence of hits.
pub open spec fn hit_views(s: Seq<GraphHit>) -> Seq<(Seq<char>, i64)> {
    s.map_values(|h: GraphHit| (h.unit_id@, h.activation))
}

#[derive(Debug, Clone, Copy)]
pub struct GraphConfig {
    /// Multiplier applied at every hop.
    pub hop_decay: i64,
    /// Maximum depth from the seeds.
    pub max_hops: u32,
}

impl Default for GraphConfig {
    fn default() -> (r: GraphConfig)
        ensures
            r.hop_decay == 500_000_000,
            r.max_hops == 2,
    {
        GraphConfig { hop_decay: 500_000_000, max_hops: 2 }
    }
}

/// A spread in progress, as a mathematical value.
pub struct Spread {
    pub decay: i64,
    pub hops_left: nat,
    /// The strongest activation of each unit reached.
    pub activation: Seq<(Seq<char>, i64)>,
    /// The units of this hop whose neighbours are still to be looked at.
    pub frontier: Seq<(Seq<char>, i64)>,
    /// The units that the next hop starts from.
    pub next: Seq<(Seq<char>, i64)>,
    pub seeds: Seq<Seq<char>>,
}

/// The activation that passes along a link.
pub open spec fn passed_on(score: i64, decay: i64, weight: i64) -> i64 {
    mul_fixed_of(mul_fixed_of(score, decay), weight)
}

/// The activations and the next hop after the first `n` neighbours of a unit
/// were looked at: a neighbour is reached where what passes on is positive
/// and stronger than what it had.
pub open spec fn relaxed(
    act: Seq<(Seq<char>, i64)>,
    next: Seq<(Seq<char>, i64)>,
    score: i64,
    decay: i64,
    nbs: Seq<(Seq<char>, i64)>,
    n: nat,
) -> (Seq<(Seq<char>, i64)>, Seq<(Seq<char>, i64)>)
    decreases n,
{
    if n == 0 {
        (act, next)
    } else {
        let (a, f) = relaxed(act, next, score, decay, nbs, (n - 1) as nat);
        let id = nbs[n - 1].0;
        let s = passed_on(score, decay, nbs[n - 1].1);
        if s > 0 && would_rise(a, id, s) {
            (with_score_raised(a, id, s), f.push((id, s)))
        } else {
            (a, f)
        }
    }
}

/// The activations of the seeds; a later seed of the same unit replaces an
/// earlier one.
pub open spec fn seeded(seeds: Seq<(Seq<char>, i64)>) -> Seq<(Seq<char>, i64)>
    decreases seeds.len(),
{
    if seeds.len() == 0 {
        seq![]
    } else {
        with_score_set(seeded(seeds.drop_last()), seeds.last().0, seeds.last().1)
    }
}

/// A spread at its start.
pub open spec fn started(seeds: Seq<(Seq<char>, i64)>, decay: i64, hops: nat) -> Spread {
    Spread {
        decay,
        hops_left: hops,
        activation: seeded(seeds),
        frontier: seeds,
        next: seq![],
        seeds: seeds.map_values(|e: (Seq<char>, i64)| e.0),
    }
}

/// Whether a spread has come to its end.
pub open spec fn is_done(s: Spread) -> bool {
    s.hops_left == 0 || s.frontier.len() == 0
}

/// A spread after the neighbours of the first unit of its frontier were
/// looked at. Where that was the last one, the next hop begins.
pub open spec fn stepped(s: Spread, nbs: Seq<(Seq<char>, i64)>) -> Spread {
    let (a, f) = relaxed(s.activation, s.next, s.frontier[0].1, s.decay, nbs, nbs.len());
    if s.frontier.len() > 1 {
        Spread { activation: a, next: f, frontier: s.frontier.skip(1), ..s }
    } else {
        Spread {
            activation: a,
            next: seq![],
            frontier: f,
            hops_left: (s.hops_left - 1) as nat,
            ..s
        }
    }
}

/// A spread at its end, where neighbours are given by `adj`.
pub open spec fn finished(
    s: Spread,
    adj: spec_fn(Seq<char>) -> Seq<(Seq<char>, i64)>,
) -> Spread
    decreases s.hops_left, s.frontier.len(),
{
    if is_done(s) {
        s
    } else {
        finished(stepped(s, adj(s.frontier[0].0)), adj)
    }
}

/// Which of the activated units are no seeds.
pub open spec fn unseeded(s: Spread) -> Seq<bool> {
    s.activation.map_values(|e: (Seq<char>, i64)| !s.seeds.contains(e.0))
}

/// The `k` most strongly activated units that are no seeds.
pub open spec fn top_hits(s: Spread, k: nat) -> Seq<(Seq<char>, i64)> {
    picked(
        descending(score_keys(s.activation), s.activation.len()),
        unseeded(s),
        k,
    ).map_values(|i: int| s.activation[i])
}

/// Looking at neighbours never weakens an activation.
pub proof fn law_activation_never_weakens(
    act: Seq<(Seq<char>, i64)>,
    next: Seq<(Seq<char>, i64)>,
    score: i64,
    decay: i64,
    nbs: Seq<(Seq<char>, i64)>,
    n: nat,
    k: int,
)
    requires
        ids_unique(act),
        n <= nbs.len(),
        0 <= k < act.len(),
    ensures
        ({
            let a = relaxed(act, next, score, decay, nbs, n).0;
            &&& ids_unique(a)
            &&& a.len() >= act.len()
            &&& a[k].0 == act[k].0
            &&& a[k].1 >= act[k].1
        }),
    decreases n,
{
    if n > 0 {
        law_activation_never_weakens(act, next, score, decay, nbs, (n - 1) as nat, k);
        let (a, f) = relaxed(act, next, score, decay, nbs, (n - 1) as nat);
        lemma_score_index(a, nbs[n - 1].0);
    }
}

/// A spread with no hops left, or with no seeds, activates nothing.
pub proof fn law_no_hops_no_spread(
    s: Spread,
    adj: spec_fn(Seq<char>) -> Seq<(Seq<char>, i64)>,
)
    requires
        s.hops_left == 0 || s.frontier.len() == 0,
    ensures
        finished(s, adj) == s,
{
}

/// Whether a unit can be reached from the seeds over at most `n` links.
pub open spec fn reachable(
    seeds: Seq<Seq<char>>,
    adj: spec_fn(Seq<char>) -> Seq<(Seq<char>, i64)>,
    n: nat,
    id: Seq<char>,
) -> bool
    decreases n,
{
    seeds.contains(id) || (n > 0 && exists|from: Seq<char>, k: int|
        reachable(seeds, adj, (n - 1) as nat, from) && 0 <= k < adj(from).len() && (
        #[trigger] adj(from)[k]).0 == id)
}

proof fn lemma_reachable_grows(
    seeds: Seq<Seq<char>>,
    adj: spec_fn(Seq<char>) -> Seq<(Seq<char>, i64)>,
    n: nat,
    m: nat,
    id: Seq<char>,
)
    requires
        n <= m,
        reachable(seeds, adj, n, id),
    ensures
        reachable(seeds, adj, m, id),
    decreases n,
{
    if !seeds.contains(id) {
        let (from, k) = choose|from: Seq<char>, k: int|
            reachable(seeds, adj, (n - 1) as nat, from) && 0 <= k < adj(from).len() && (
            #[trigger] adj(from)[k]).0 == id;
        lemma_reachable_grows(seeds, adj, (n - 1) as nat, (m - 1) as nat, from);
        assert(adj(from)[k].0 == id);
    }
}

/// Every unit of a list can be reached over at most `n` links.
pub open spec fn all_reachable(
    s: Seq<(Seq<char>, i64)>,
    seeds: Seq<Seq<char>>,
    adj: spec_fn(Seq<char>) -> Seq<(Seq<char>, i64)>,
    n: nat,
) -> bool {
    forall|i: int| 0 <= i < s.len() ==> reachable(seeds, adj, n, (#[trigger] s[i]).0)
}

proof fn lemma_relaxed_reachable(
    act: Seq<(Seq<char>, i64)>,
    next: Seq<(Seq<char>, i64)>,
    score: i64,
    decay: i64,
    n: nat,
    seeds: Seq<Seq<char>>,
    adj: spec_fn(Seq<char>) -> Seq<(Seq<char>, i64)>,
    from: Seq<char>,
    d: nat,
)
    requires
        n <= adj(from).len(),
        reachable(seeds, adj, d, from),
        all_reachable(act, seeds, adj, d + 1),
        all_reachable(next, seeds, adj, d + 1),
    ensures
        all_reachable(relaxed(act, next, score, decay, adj(from), n).0, seeds, adj, d + 1),
        all_reachable(relaxed(act, next, score, decay, adj(from), n).1, seeds, adj, d + 1),
    decreases n,
{
    if n > 0 {
        lemma_relaxed_reachable(act, next, score, decay, (n - 1) as nat, seeds, adj, from, d);
        let (a, f) = relaxed(act, next, score, decay, adj(from), (n - 1) as nat);
        let id = adj(from)[n - 1].0;
        assert(reachable(seeds, adj, d + 1, id)) by {
            assert(reachable(seeds, adj, ((d + 1) - 1) as nat, from));
            assert(adj(from)[n - 1].0 == id);
        }
        lemma_score_index(a, id);
    }
}

proof fn lemma_finished_reachable(
    s: Spread,
    adj: spec_fn(Seq<char>) -> Seq<(Seq<char>, i64)>,
    hops: nat,
)
    requires
        s.hops_left <= hops,
        all_reachable(s.frontier, s.seeds, adj, (hops - s.hops_left) as nat),
        all_reachable(s.next, s.seeds, adj, (hops - s.hops_left + 1) as nat),
        all_reachable(
            s.activation,
            s.seeds,
            adj,
            if s.hops_left == 0 {
                hops
            } else {
                (hops - s.hops_left + 1) as nat
            },
        ),
    ensures
        all_reachable(finished(s, adj).activation, s.seeds, adj, hops),
        finished(s, adj).seeds == s.seeds,
    decreases s.hops_left, s.frontier.len(),
{
    if is_done(s) {
        assert forall|i: int| 0 <= i < s.activation.len() implies reachable(
            s.seeds,
            adj,
            hops,
            (#[trigger] s.activation[i]).0,
        ) by {
            if s.hops_left > 0 {
                lemma_reachable_grows(
                    s.seeds,
                    adj,
                    (hops - s.hops_left + 1) as nat,
                    hops,
                    s.activation[i].0,
                );
            }
        }
    } else {
        let from = s.frontier[0].0;
        let d = (hops - s.hops_left) as nat;
        lemma_relaxed_reachable(
            s.activation,
            s.next,
            s.frontier[0].1,
            s.decay,
            adj(from).len(),
            s.seeds,
            adj,
            from,
            d,
        );
        let t = stepped(s, adj(from));
        if s.frontier.len() > 1 {
            assert forall|i: int| 0 <= i < t.frontier.len() implies reachable(
                s.seeds,
                adj,
                d,
                (#[trigger] t.frontier[i]).0,
            ) by {
                assert(t.frontier[i] == s.frontier[i + 1]);
            }
        } else if t.hops_left > 0 {
            assert forall|i: int| 0 <= i < t.activation.len() implies reachable(
                s.seeds,
                adj,
                d + 2,
                (#[trigger] t.activation[i]).0,
            ) by {
                lemma_reachable_grows(s.seeds, adj, d + 1, d + 2, t.activation[i].0);
            }
        }
        lemma_finished_reachable(t, adj, hops);
    }
}

proof fn lemma_seeded(seeds: Seq<(Seq<char>, i64)>, i: int)
    requires
        0 <= i < seeded(seeds).len(),
    ensures
        exists|k: int| 0 <= k < seeds.len() && (#[trigger] seeds[k]).0 == seeded(seeds)[i].0,
    decreases seeds.len(),
{
    if seeds.len() > 0 {
        let d = seeds.drop_last();
        lemma_score_index(seeded(d), seeds.last().0);
        if seeded(seeds)[i].0 == seeds.last().0 {
            assert(seeds[seeds.len() - 1].0 == seeded(seeds)[i].0);
        } else {
            lemma_seeded(d, i);
            let k = choose|k: int| 0 <= k < d.len() && (#[trigger] d[k]).0 == seeded(d)[i].0;
            assert(seeds[k].0 == seeded(seeds)[i].0);
        }
    }
}

/// Whatever a spread activates lies within its number of hops of a seed.
pub proof fn law_activated_within_hops(
    seeds: Seq<(Seq<char>, i64)>,
    decay: i64,
    hops: nat,
    adj: spec_fn(Seq<char>) -> Seq<(Seq<char>, i64)>,
)
    ensures
        all_reachable(
            finished(started(seeds, decay, hops), adj).activation,
            started(seeds, decay, hops).seeds,
            adj,
            hops,
        ),
{
    let s = started(seeds, decay, hops);
    assert forall|i: int| 0 <= i < seeds.len() implies #[trigger] s.seeds.contains(seeds[i].0) by {
        assert(s.seeds[i] == seeds[i].0);
    }
    assert forall|i: int| 0 <= i < s.frontier.len() implies reachable(
        s.seeds,
        adj,
        0,
        (#[trigger] s.frontier[i]).0,
    ) by {
        assert(s.seeds.contains(seeds[i].0));
    }
    let n = if hops == 0 {
        0
    } else {
        1nat
    };
    assert forall|i: int| 0 <= i < s.activation.len() implies reachable(
        s.seeds,
        adj,
        n,
        (#[trigger] s.activation[i]).0,
    ) by {
        lemma_seeded(seeds, i);
        let k = choose|k: int| 0 <= k < seeds.len() && (#[trigger] seeds[k]).0 == seeded(seeds)[i].0;
        assert(s.seeds.contains(seeds[k].0));
    }
    lemma_finished_reachable(s, adj, hops);
}

/// Whether an activation passes on to another over the `k`-th link.
pub open spec fn passes(
    adj: spec_fn(Seq<char>) -> Seq<(Seq<char>, i64)>,
    decay: i64,
    from: (Seq<char>, i64),
    k: int,
    to: (Seq<char>, i64),
) -> bool {
    &&& 0 <= k < adj(from.0).len()
    &&& adj(from.0)[k].0 == to.0
    &&& passed_on(from.1, decay, adj(from.0)[k].1) == to.1
}

/// Whether a walk over exactly `n` links carries an activation from a seed to
/// a unit. Nothing passes on that is not positive.
pub open spec fn carries(
    seeds: Seq<(Seq<char>, i64)>,
    adj: spec_fn(Seq<char>) -> Seq<(Seq<char>, i64)>,
    decay: i64,
    n: nat,
    e: (Seq<char>, i64),
) -> bool
    decreases n,
{
    if n == 0 {
        seeds.contains(e)
    } else {
        e.1 > 0 && exists|f: (Seq<char>, i64), k: int| #[trigger]
            passes(adj, decay, f, k, e) && carries(seeds, adj, decay, (n - 1) as nat, f)
    }
}

/// Whether a unit has at least some score.
pub open spec fn at_least(act: Seq<(Seq<char>, i64)>, id: Seq<char>, x: i64) -> bool {
    exists|k: int| 0 <= k < act.len() && (#[trigger] act[k]).0 == id && act[k].1 >= x
}

/// Whether a unit whose activation is `y` has passed on what it can.
spec fn spent(
    act: Seq<(Seq<char>, i64)>,
    adj: spec_fn(Seq<char>) -> Seq<(Seq<char>, i64)>,
    decay: i64,
    e: (Seq<char>, i64),
) -> bool {
    forall|k: int|
        0 <= k < adj(e.0).len() && passed_on(e.1, decay, (#[trigger] adj(e.0)[k]).1) > 0
            ==> at_least(act, adj(e.0)[k].0, passed_on(e.1, decay, adj(e.0)[k].1))
}

/// Every walk of one to `d` links is outdone.
spec fn outdone(
    act: Seq<(Seq<char>, i64)>,
    seeds: Seq<(Seq<char>, i64)>,
    adj: spec_fn(Seq<char>) -> Seq<(Seq<char>, i64)>,
    decay: i64,
    d: nat,
) -> bool {
    forall|n: nat, e: (Seq<char>, i64)|
        1 <= n <= d && #[trigger] carries(seeds, adj, decay, n, e) ==> at_least(act, e.0, e.1)
}

/// Links only weaken or strengthen: no weight is negative.
pub open spec fn weights_ok(adj: spec_fn(Seq<char>) -> Seq<(Seq<char>, i64)>) -> bool {
    forall|id: Seq<char>, k: int| 0 <= k < adj(id).len() ==> (#[trigger] adj(id)[k]).1 >= 0
}

proof fn lemma_mul_fixed_monotone(a: i64, b: i64, w: i64)
    requires
        a <= b,
        w >= 0,
    ensures
        mul_fixed_of(a, w) <= mul_fixed_of(b, w),
{
    lemma_mul_inequality(a as int, b as int, w as int);
    lemma_div_is_ordered(a * w, b * w, ONE as int);
}

proof fn lemma_passed_on_monotone(a: i64, b: i64, decay: i64, w: i64)
    requires
        a <= b,
        decay >= 0,
        w >= 0,
    ensures
        passed_on(a, decay, w) <= passed_on(b, decay, w),
{
    lemma_mul_fixed_monotone(a, b, decay);
    lemma_mul_fixed_monotone(mul_fixed_of(a, decay), mul_fixed_of(b, decay), w);
}

proof fn lemma_at_least_stays(
    act: Seq<(Seq<char>, i64)>,
    next: Seq<(Seq<char>, i64)>,
    score: i64,
    decay: i64,
    nbs: Seq<(Seq<char>, i64)>,
    n: nat,
    id: Seq<char>,
    x: i64,
)
    requires
        ids_unique(act),
        n <= nbs.len(),
        at_least(act, id, x),
    ensures
        at_least(relaxed(act, next, score, decay, nbs, n).0, id, x),
{
    let k = choose|k: int| 0 <= k < act.len() && (#[trigger] act[k]).0 == id && act[k].1 >= x;
    law_activation_never_weakens(act, next, score, decay, nbs, n, k);
    let a = relaxed(act, next, score, decay, nbs, n).0;
    assert(a[k].0 == id && a[k].1 >= x);
}

proof fn lemma_unique_after(
    act: Seq<(Seq<char>, i64)>,
    next: Seq<(Seq<char>, i64)>,
    score: i64,
    decay: i64,
    nbs: Seq<(Seq<char>, i64)>,
    n: nat,
)
    requires
        ids_unique(act),
        n <= nbs.len(),
    ensures
        ids_unique(relaxed(act, next, score, decay, nbs, n).0),
    decreases n,
{
    if n > 0 {
        lemma_unique_after(act, next, score, decay, nbs, (n - 1) as nat);
        lemma_score_index(
            relaxed(act, next, score, decay, nbs, (n - 1) as nat).0,
            nbs[n - 1].0,
        );
    }
}

/// After `n` neighbours were looked at, each has what passed on to it.
proof fn lemma_neighbours_reached(
    act: Seq<(Seq<char>, i64)>,
    next: Seq<(Seq<char>, i64)>,
    score: i64,
    decay: i64,
    nbs: Seq<(Seq<char>, i64)>,
    n: nat,
    k: int,
)
    requires
        ids_unique(act),
        0 <= k < n <= nbs.len(),
        passed_on(score, decay, nbs[k].1) > 0,
    ensures
        at_least(
            relaxed(act, next, score, decay, nbs, n).0,
            nbs[k].0,
            passed_on(score, decay, nbs[k].1),
        ),
    decreases n,
{
    let (a, f) = relaxed(act, next, score, decay, nbs, (n - 1) as nat);
    let b = relaxed(act, next, score, decay, nbs, n).0;
    let id = nbs[n - 1].0;
    let x = passed_on(score, decay, nbs[n - 1].1);
    lemma_unique_after(act, next, score, decay, nbs, (n - 1) as nat);
    lemma_score_index(a, id);
    let i = score_index(a, id);
    if k == n - 1 {
        if would_rise(a, id, x) {
            assert(b[i].0 == id && b[i].1 == x);
        } else {
            assert(b[i].0 == id && b[i].1 >= x);
        }
    } else {
        lemma_neighbours_reached(act, next, score, decay, nbs, (n - 1) as nat, k);
        let y = passed_on(score, decay, nbs[k].1);
        let j = choose|j: int| 0 <= j < a.len() && (#[trigger] a[j]).0 == nbs[k].0 && a[j].1 >= y;
        if x > 0 {
            law_raising_never_lowers(a, id, x, j);
        }
        assert(b[j].0 == nbs[k].0 && b[j].1 >= y);
    }
}

/// What is new among the activations stands in the next hop too.
proof fn lemma_new_is_next(
    act: Seq<(Seq<char>, i64)>,
    next: Seq<(Seq<char>, i64)>,
    score: i64,
    decay: i64,
    nbs: Seq<(Seq<char>, i64)>,
    n: nat,
)
    requires
        n <= nbs.len(),
    ensures
        ({
            let (a, f) = relaxed(act, next, score, decay, nbs, n);
            &&& forall|i: int|
                0 <= i < a.len() ==> act.contains(#[trigger] a[i]) || f.contains(a[i])
            &&& forall|i: int| 0 <= i < next.len() ==> f.contains(#[trigger] next[i])
        }),
    decreases n,
{
    if n == 0 {
        assert forall|i: int| 0 <= i < act.len() implies act.contains(#[trigger] act[i]) by {}
    } else {
        lemma_new_is_next(act, next, score, decay, nbs, (n - 1) as nat);
        let (a, f) = relaxed(act, next, score, decay, nbs, (n - 1) as nat);
        let (b, g) = relaxed(act, next, score, decay, nbs, n);
        let id = nbs[n - 1].0;
        let x = passed_on(score, decay, nbs[n - 1].1);
        lemma_score_index(a, id);
        if x > 0 && would_rise(a, id, x) {
            assert(g[f.len() as int] == (id, x));
            assert forall|e: (Seq<char>, i64)| f.contains(e) implies #[trigger] g.contains(e) by {
                let i = choose|i: int| 0 <= i < f.len() && f[i] == e;
                assert(g[i] == e);
            }
            assert forall|i: int| 0 <= i < b.len() implies act.contains(#[trigger] b[i])
                || g.contains(b[i]) by {
                if b[i] != (id, x) {
                    assert(b[i] == a[i]);
                }
            }
        }
    }
}

/// Whether a unit with some activation is still to be looked at.
spec fn waiting(list: Seq<(Seq<char>, i64)>, e: (Seq<char>, i64)) -> bool {
    at_least(list, e.0, e.1)
}

/// What holds while a spread is under way. `act` are the activations at the
/// beginning of the hop.
spec fn in_order(
    s: Spread,
    act: Seq<(Seq<char>, i64)>,
    seeds: Seq<(Seq<char>, i64)>,
    adj: spec_fn(Seq<char>) -> Seq<(Seq<char>, i64)>,
    hops: nat,
) -> bool {
    &&& ids_unique(s.activation)
    &&& s.hops_left <= hops
    &&& s.frontier.len() == 0 || s.hops_left == 0 ==> s.next.len() == 0 && act == s.activation
    &&& outdone(act, seeds, adj, s.decay, (hops - s.hops_left) as nat)
    &&& forall|i: int|
        0 <= i < act.len() ==> at_least(s.activation, (#[trigger] act[i]).0, act[i].1)
    &&& forall|i: int|
        0 <= i < act.len() ==> waiting(s.frontier, #[trigger] act[i]) || spent(
            s.activation,
            adj,
            s.decay,
            act[i],
        )
    &&& forall|i: int|
        0 <= i < seeds.len() ==> waiting(s.frontier, #[trigger] seeds[i]) || spent(
            s.activation,
            adj,
            s.decay,
            seeds[i],
        )
    &&& forall|i: int|
        0 <= i < s.activation.len() ==> waiting(s.frontier, #[trigger] s.activation[i])
            || waiting(s.next, s.activation[i]) || spent(
            s.activation,
            adj,
            s.decay,
            s.activation[i],
        )
}

/// Where all activations of a hop and the seeds are spent, no walk of one
/// more link is better.
proof fn lemma_one_more(
    act: Seq<(Seq<char>, i64)>,
    after: Seq<(Seq<char>, i64)>,
    seeds: Seq<(Seq<char>, i64)>,
    adj: spec_fn(Seq<char>) -> Seq<(Seq<char>, i64)>,
    decay: i64,
    d: nat,
)
    requires
        decay >= 0,
        weights_ok(adj),
        outdone(act, seeds, adj, decay, d),
        forall|i: int| 0 <= i < act.len() ==> at_least(after, (#[trigger] act[i]).0, act[i].1),
        forall|i: int| 0 <= i < act.len() ==> spent(after, adj, decay, #[trigger] act[i]),
        forall|i: int| 0 <= i < seeds.len() ==> spent(after, adj, decay, #[trigger] seeds[i]),
    ensures
        outdone(after, seeds, adj, decay, d + 1),
{
    assert forall|n: nat, e: (Seq<char>, i64)|
        1 <= n <= d + 1 && #[trigger] carries(seeds, adj, decay, n, e) implies at_least(
        after,
        e.0,
        e.1,
    ) by {
        if n <= d {
            assert(at_least(act, e.0, e.1));
            let k = choose|k: int|
                0 <= k < act.len() && (#[trigger] act[k]).0 == e.0 && act[k].1 >= e.1;
            lemma_at_least_less(after, e.0, act[k].1, e.1);
        } else {
            let (f, k) = choose|f: (Seq<char>, i64), k: int| #[trigger]
                passes(adj, decay, f, k, e) && carries(seeds, adj, decay, (n - 1) as nat, f);
            let w = adj(f.0)[k].1;
            assert(w >= 0);
            if n == 1 {
                let i = choose|i: int| 0 <= i < seeds.len() && seeds[i] == f;
                assert(spent(after, adj, decay, seeds[i]));
            } else {
                assert(at_least(act, f.0, f.1));
                let i = choose|i: int|
                    0 <= i < act.len() && (#[trigger] act[i]).0 == f.0 && act[i].1 >= f.1;
                lemma_passed_on_monotone(f.1, act[i].1, decay, w);
                assert(spent(after, adj, decay, act[i]));
                assert(passed_on(act[i].1, decay, adj(act[i].0)[k].1) > 0);
                lemma_at_least_less(after, e.0, passed_on(act[i].1, decay, w), e.1);
            }
        }
    }
}

proof fn lemma_at_least_less(act: Seq<(Seq<char>, i64)>, id: Seq<char>, x: i64, y: i64)
    requires
        at_least(act, id, x),
        y <= x,
    ensures
        at_least(act, id, y),
{
    let k = choose|k: int| 0 <= k < act.len() && (#[trigger] act[k]).0 == id && act[k].1 >= x;
    assert(act[k].1 >= y);
}

proof fn lemma_outdone_on(
    act: Seq<(Seq<char>, i64)>,
    seeds: Seq<(Seq<char>, i64)>,
    adj: spec_fn(Seq<char>) -> Seq<(Seq<char>, i64)>,
    decay: i64,
    d: nat,
    hops: nat,
)
    requires
        decay >= 0,
        weights_ok(adj),
        d <= hops,
        outdone(act, seeds, adj, decay, d),
        forall|i: int| 0 <= i < act.len() ==> spent(act, adj, decay, #[trigger] act[i]),
        forall|i: int| 0 <= i < seeds.len() ==> spent(act, adj, decay, #[trigger] seeds[i]),
    ensures
        outdone(act, seeds, adj, decay, hops),
    decreases hops - d,
{
    if d < hops {
        assert forall|i: int| 0 <= i < act.len() implies at_least(
            act,
            (#[trigger] act[i]).0,
            act[i].1,
        ) by {}
        lemma_one_more(act, act, seeds, adj, decay, d);
        lemma_outdone_on(act, seeds, adj, decay, d + 1, hops);
    }
}

proof fn lemma_step_order(
    s: Spread,
    act: Seq<(Seq<char>, i64)>,
    seeds: Seq<(Seq<char>, i64)>,
    adj: spec_fn(Seq<char>) -> Seq<(Seq<char>, i64)>,
    hops: nat,
)
    requires
        s.decay >= 0,
        weights_ok(adj),
        !is_done(s),
        in_order(s, act, seeds, adj, hops),
    ensures
        ({
            let t = stepped(s, adj(s.frontier[0].0));
            in_order(
                t,
                if s.frontier.len() > 1 {
                    act
                } else {
                    t.activation
                },
                seeds,
                adj,
                hops,
            )
        }),
{
    let head = s.frontier[0];
    let nbs = adj(head.0);
    let t = stepped(s, nbs);
    let (a, f) = relaxed(s.activation, s.next, head.1, s.decay, nbs, nbs.len());
    lemma_unique_after(s.activation, s.next, head.1, s.decay, nbs, nbs.len());
    lemma_new_is_next(s.activation, s.next, head.1, s.decay, nbs, nbs.len());
    let rest = s.frontier.skip(1);
    // what was spent stays spent, and what waited at the head is spent now
    assert forall|e: (Seq<char>, i64)| #[trigger]
        waiting(s.frontier, e) || spent(s.activation, adj, s.decay, e) implies waiting(rest, e)
        || spent(a, adj, s.decay, e) by {
        if spent(s.activation, adj, s.decay, e) {
            assert forall|k: int|
                0 <= k < adj(e.0).len() && passed_on(
                    e.1,
                    s.decay,
                    (#[trigger] adj(e.0)[k]).1,
                ) > 0 implies at_least(
                a,
                adj(e.0)[k].0,
                passed_on(e.1, s.decay, adj(e.0)[k].1),
            ) by {
                lemma_at_least_stays(
                    s.activation,
                    s.next,
                    head.1,
                    s.decay,
                    nbs,
                    nbs.len(),
                    adj(e.0)[k].0,
                    passed_on(e.1, s.decay, adj(e.0)[k].1),
                );
            }
        } else {
            let i = choose|i: int|
                0 <= i < s.frontier.len() && (#[trigger] s.frontier[i]).0 == e.0
                    && s.frontier[i].1 >= e.1;
            if i > 0 {
                assert(rest[i - 1] == s.frontier[i]);
            } else {
                assert forall|k: int|
                    0 <= k < adj(e.0).len() && passed_on(
                        e.1,
                        s.decay,
                        (#[trigger] adj(e.0)[k]).1,
                    ) > 0 implies at_least(
                    a,
                    adj(e.0)[k].0,
                    passed_on(e.1, s.decay, adj(e.0)[k].1),
                ) by {
                    let w = adj(e.0)[k].1;
                    lemma_passed_on_monotone(e.1, head.1, s.decay, w);
                    lemma_neighbours_reached(
                        s.activation,
                        s.next,
                        head.1,
                        s.decay,
                        nbs,
                        nbs.len(),
                        k,
                    );
                    lemma_at_least_less(
                        a,
                        adj(e.0)[k].0,
                        passed_on(head.1, s.decay, w),
                        passed_on(e.1, s.decay, w),
                    );
                }
            }
        }
    }
    assert forall|i: int| 0 <= i < act.len() implies at_least(a, (#[trigger] act[i]).0, act[i].1) by {
        lemma_at_least_stays(
            s.activation,
            s.next,
            head.1,
            s.decay,
            nbs,
            nbs.len(),
            act[i].0,
            act[i].1,
        );
    }
    assert forall|i: int| 0 <= i < act.len() implies waiting(rest, #[trigger] act[i]) || spent(
        a,
        adj,
        s.decay,
        act[i],
    ) by {
        assert(waiting(s.frontier, act[i]) || spent(s.activation, adj, s.decay, act[i]));
    }
    assert forall|i: int| 0 <= i < seeds.len() implies waiting(rest, #[trigger] seeds[i]) || spent(
        a,
        adj,
        s.decay,
        seeds[i],
    ) by {
        assert(waiting(s.frontier, seeds[i]) || spent(s.activation, adj, s.decay, seeds[i]));
    }
    assert forall|i: int| 0 <= i < a.len() implies waiting(rest, #[trigger] a[i]) || waiting(f, a[i])
        || spent(a, adj, s.decay, a[i]) by {
        if f.contains(a[i]) {
            let j = choose|j: int| 0 <= j < f.len() && f[j] == a[i];
            assert(f[j].0 == a[i].0 && f[j].1 >= a[i].1);
        } else {
            let j = choose|j: int| 0 <= j < s.activation.len() && s.activation[j] == a[i];
            let e = s.activation[j];
            if waiting(s.next, e) {
                let q = choose|q: int|
                    0 <= q < s.next.len() && (#[trigger] s.next[q]).0 == e.0 && s.next[q].1 >= e.1;
                let g = choose|g: int| 0 <= g < f.len() && f[g] == s.next[q];
                assert(f[g].0 == e.0 && f[g].1 >= e.1);
            } else {
                assert(waiting(s.frontier, e) || spent(s.activation, adj, s.decay, e));
            }
        }
    }
    if s.frontier.len() == 1 {
        assert(rest.len() == 0);
        lemma_one_more(act, a, seeds, adj, s.decay, (hops - s.hops_left) as nat);
        assert forall|i: int| 0 <= i < a.len() implies at_least(a, (#[trigger] a[i]).0, a[i].1) by {}
    }
}

proof fn lemma_finished_best(
    s: Spread,
    act: Seq<(Seq<char>, i64)>,
    seeds: Seq<(Seq<char>, i64)>,
    adj: spec_fn(Seq<char>) -> Seq<(Seq<char>, i64)>,
    hops: nat,
)
    requires
        s.decay >= 0,
        weights_ok(adj),
        in_order(s, act, seeds, adj, hops),
    ensures
        outdone(finished(s, adj).activation, seeds, adj, s.decay, hops),
    decreases s.hops_left, s.frontier.len(),
{
    if is_done(s) {
        if s.hops_left > 0 {
            lemma_outdone_on(
                act,
                seeds,
                adj,
                s.decay,
                (hops - s.hops_left) as nat,
                hops,
            );
        }
    } else {
        let t = stepped(s, adj(s.frontier[0].0));
        lemma_step_order(s, act, seeds, adj, hops);
        lemma_finished_best(
            t,
            if s.frontier.len() > 1 {
                act
            } else {
                t.activation
            },
            seeds,
            adj,
            hops,
        );
    }
}

/// Whether a walk of at most `n` links carries an activation to a unit.
pub open spec fn carried_within(
    seeds: Seq<(Seq<char>, i64)>,
    adj: spec_fn(Seq<char>) -> Seq<(Seq<char>, i64)>,
    decay: i64,
    n: nat,
    e: (Seq<char>, i64),
) -> bool {
    exists|m: nat| m <= n && #[trigger] carries(seeds, adj, decay, m, e)
}

/// Every entry of a list is what a walk of at most `n` links carries.
pub open spec fn all_carried(
    s: Seq<(Seq<char>, i64)>,
    seeds: Seq<(Seq<char>, i64)>,
    adj: spec_fn(Seq<char>) -> Seq<(Seq<char>, i64)>,
    decay: i64,
    n: nat,
) -> bool {
    forall|i: int| 0 <= i < s.len() ==> carried_within(seeds, adj, decay, n, #[trigger] s[i])
}

/// Every entry of a list is what a walk of exactly `n` links carries.
spec fn carried_exactly(
    s: Seq<(Seq<char>, i64)>,
    seeds: Seq<(Seq<char>, i64)>,
    adj: spec_fn(Seq<char>) -> Seq<(Seq<char>, i64)>,
    decay: i64,
    n: nat,
) -> bool {
    forall|i: int| 0 <= i < s.len() ==> carries(seeds, adj, decay, n, #[trigger] s[i])
}

proof fn lemma_relaxed_carried(
    act: Seq<(Seq<char>, i64)>,
    next: Seq<(Seq<char>, i64)>,
    e: (Seq<char>, i64),
    decay: i64,
    n: nat,
    seeds: Seq<(Seq<char>, i64)>,
    adj: spec_fn(Seq<char>) -> Seq<(Seq<char>, i64)>,
    d: nat,
    hops: nat,
)
    requires
        n <= adj(e.0).len(),
        d < hops,
        carries(seeds, adj, decay, d, e),
        all_carried(act, seeds, adj, decay, hops),
        carried_exactly(next, seeds, adj, decay, d + 1),
    ensures
        all_carried(relaxed(act, next, e.1, decay, adj(e.0), n).0, seeds, adj, decay, hops),
        carried_exactly(relaxed(act, next, e.1, decay, adj(e.0), n).1, seeds, adj, decay, d + 1),
    decreases n,
{
    if n > 0 {
        lemma_relaxed_carried(act, next, e, decay, (n - 1) as nat, seeds, adj, d, hops);
        let (a, f) = relaxed(act, next, e.1, decay, adj(e.0), (n - 1) as nat);
        let (b, g) = relaxed(act, next, e.1, decay, adj(e.0), n);
        let id = adj(e.0)[n - 1].0;
        let x = passed_on(e.1, decay, adj(e.0)[n - 1].1);
        lemma_score_index(a, id);
        if x > 0 && would_rise(a, id, x) {
            assert(carries(seeds, adj, decay, d + 1, (id, x))) by {
                assert(carries(seeds, adj, decay, ((d + 1) - 1) as nat, e));
                assert(passes(adj, decay, e, n - 1, (id, x)));
            }
            assert forall|i: int| 0 <= i < b.len() implies carried_within(
                seeds,
                adj,
                decay,
                hops,
                #[trigger] b[i],
            ) by {
                if b[i] != (id, x) {
                    assert(b[i] == a[i]);
                } else {
                    assert(carries(seeds, adj, decay, d + 1, b[i]));
                }
            }
            assert forall|i: int| 0 <= i < g.len() implies carries(
                seeds,
                adj,
                decay,
                d + 1,
                #[trigger] g[i],
            ) by {
                if i < f.len() {
                    assert(g[i] == f[i]);
                }
            }
        }
    }
}

proof fn lemma_finished_carried(
    s: Spread,
    seeds: Seq<(Seq<char>, i64)>,
    adj: spec_fn(Seq<char>) -> Seq<(Seq<char>, i64)>,
    hops: nat,
)
    requires
        s.hops_left <= hops,
        carried_exactly(s.frontier, seeds, adj, s.decay, (hops - s.hops_left) as nat),
        carried_exactly(s.next, seeds, adj, s.decay, (hops - s.hops_left + 1) as nat),
        all_carried(s.activation, seeds, adj, s.decay, hops),
    ensures
        all_carried(finished(s, adj).activation, seeds, adj, s.decay, hops),
    decreases s.hops_left, s.frontier.len(),
{
    if !is_done(s) {
        let e = s.frontier[0];
        let d = (hops - s.hops_left) as nat;
        lemma_relaxed_carried(
            s.activation,
            s.next,
            e,
            s.decay,
            adj(e.0).len(),
            seeds,
            adj,
            d,
            hops,
        );
        let t = stepped(s, adj(e.0));
        if s.frontier.len() > 1 {
            assert forall|i: int| 0 <= i < t.frontier.len() implies carries(
                seeds,
                adj,
                s.decay,
                d,
                #[trigger] t.frontier[i],
            ) by {
                assert(t.frontier[i] == s.frontier[i + 1]);
            }
        }
        lemma_finished_carried(t, seeds, adj, hops);
    }
}

proof fn lemma_seeded_entries(seeds: Seq<(Seq<char>, i64)>)
    ensures
        ids_unique(seeded(seeds)),
        forall|i: int| 0 <= i < seeded(seeds).len() ==> seeds.contains(#[trigger] seeded(seeds)[i]),
    decreases seeds.len(),
{
    if seeds.len() > 0 {
        let d = seeds.drop_last();
        lemma_seeded_entries(d);
        lemma_score_index(seeded(d), seeds.last().0);
        assert forall|i: int| 0 <= i < seeded(seeds).len() implies seeds.contains(
            #[trigger] seeded(seeds)[i],
        ) by {
            let e = seeded(seeds)[i];
            if e == seeds.last() {
                assert(seeds[seeds.len() - 1] == e);
            } else {
                assert(e == seeded(d)[i]);
                let k = choose|k: int| 0 <= k < d.len() && d[k] == e;
                assert(seeds[k] == e);
            }
        }
    }
}

/// What a spread activates is the best over all walks: every activation is
/// what a walk of at most the number of hops carries from a seed, and no walk
/// of one or more links, up to that number, carries more to a unit than it
/// has.
pub proof fn law_activation_is_best_walk(
    seeds: Seq<(Seq<char>, i64)>,
    decay: i64,
    hops: nat,
    adj: spec_fn(Seq<char>) -> Seq<(Seq<char>, i64)>,
)
    requires
        decay >= 0,
        weights_ok(adj),
    ensures
        all_carried(
            finished(started(seeds, decay, hops), adj).activation,
            seeds,
            adj,
            decay,
            hops,
        ),
        forall|n: nat, e: (Seq<char>, i64)|
            1 <= n <= hops && #[trigger] carries(seeds, adj, decay, n, e) ==> at_least(
                finished(started(seeds, decay, hops), adj).activation,
                e.0,
                e.1,
            ),
{
    let s = started(seeds, decay, hops);
    let act = seeded(seeds);
    lemma_seeded_entries(seeds);
    assert forall|i: int| 0 <= i < seeds.len() implies carries(
        seeds,
        adj,
        decay,
        0,
        #[trigger] seeds[i],
    ) by {
        assert(seeds.contains(seeds[i]));
    }
    assert forall|i: int| 0 <= i < act.len() implies carried_within(
        seeds,
        adj,
        decay,
        hops,
        #[trigger] act[i],
    ) by {
        assert(carries(seeds, adj, decay, 0, act[i]));
    }
    lemma_finished_carried(s, seeds, adj, hops);
    assert forall|i: int| 0 <= i < act.len() implies waiting(seeds, #[trigger] act[i]) by {
        let k = choose|k: int| 0 <= k < seeds.len() && seeds[k] == act[i];
        assert(seeds[k].0 == act[i].0);
    }
    assert forall|i: int| 0 <= i < seeds.len() implies waiting(seeds, #[trigger] seeds[i]) by {}
    assert forall|i: int| 0 <= i < act.len() implies at_least(
        act,
        (#[trigger] act[i]).0,
        act[i].1,
    ) by {}
    assert(in_order(s, act, seeds, adj, hops));
    lemma_finished_best(s, act, seeds, adj, hops);
}

/// A spread in progress. It asks for the neighbours of one unit at a time.
#[derive(Debug)]
pub struct Expansion {
    pub decay: i64,
    pub hops_left: u32,
    pub activation: Tally,
    pub frontier: Vec<(String, i64)>,
    /// How many units of the frontier have been looked at.
    pub at: usize,
    pub next: Vec<(String, i64)>,
    pub seeds: Vec<String>,
}

impl View for Expansion {
    type V = Spread;

    open spec fn view(&self) -> Spread {
        Spread {
            decay: self.decay,
            hops_left: self.hops_left as nat,
            activation: self.activation@,
            frontier: scored_views(self.frontier@).skip(self.at as int),
            next: scored_views(self.next@),
            seeds: crate::text::views(self.seeds@),
        }
    }
}

fn copy_scored(v: &Vec<(String, i64)>) -> (r: Vec<(String, i64)>)
    ensures
        scored_views(r@) == scored_views(v@),
{
    let mut out: Vec<(String, i64)> = Vec::new();
    for i in 0..v.len()
        invariant
            scored_views(out@) == scored_views(v@).take(i as int),
    {
        let ghost before = out@;
        out.push((v[i].0.clone(), v[i].1));
        proof {
            assert(scored_views(out@) =~= scored_views(before).push((v@[i as int].0@, v@[i as int].1)));
            assert(scored_views(v@).take(i + 1) =~= scored_views(v@).take(i as int).push(
                scored_views(v@)[i as int],
            ));
        }
    }
    proof {
        assert(scored_views(v@).take(v@.len() as int) =~= scored_views(v@));
    }
    out
}

impl Expansion {
    /// The invariant: no more of the frontier is done than there is.
    pub open spec fn wf(&self) -> bool {
        self.at <= self.frontier@.len()
    }

    /// Starts a spread from scored seeds.
    pub fn start(seeds: &Vec<(String, i64)>, cfg: GraphConfig) -> (r: Expansion)
        ensures
            r.wf(),
            r@ == started(scored_views(seeds@), cfg.hop_decay, cfg.max_hops as nat),
    {
        let ghost sv = scored_views(seeds@);
        let mut act: Tally = Tally::new();
        let mut ids: Vec<String> = Vec::new();
        proof {
            assert(act@ =~= seeded(sv.take(0)));
        }
        for i in 0..seeds.len()
            invariant
                sv == scored_views(seeds@),
                act@ == seeded(sv.take(i as int)),
                ids@.len() == i,
                forall|j: int| 0 <= j < i ==> (#[trigger] ids@[j])@ == sv[j].0,
        {
            act.set_score(seeds[i].0.as_str(), seeds[i].1);
            ids.push(seeds[i].0.clone());
            proof {
                assert(sv.take(i + 1).drop_last() =~= sv.take(i as int));
                assert(sv.take(i + 1).last() == sv[i as int]);
            }
        }
        let r = Expansion {
            decay: cfg.hop_decay,
            hops_left: cfg.max_hops,
            activation: act,
            frontier: copy_scored(seeds),
            at: 0,
            next: Vec::new(),
            seeds: ids,
        };
        proof {
            assert(sv.take(sv.len() as int) =~= sv);
            assert(r@.frontier =~= sv);
            assert(r@.next =~= seq![]);
            assert(r@.seeds =~= sv.map_values(|e: (Seq<char>, i64)| e.0));
        }
        r
    }

    /// The unit whose neighbours are wanted next; none at the end.
    pub fn wanted(&self) -> (r: Option<String>)
        requires
            self.wf(),
        ensures
            match r {
                Some(id) => !is_done(self@) && id@ == self@.frontier[0].0,
                None => is_done(self@),
            },
    {
        if self.hops_left == 0 || self.at >= self.frontier.len() {
            None
        } else {
            Some(self.frontier[self.at].0.clone())
        }
    }

    /// Takes in the neighbours of the wanted unit, with the weights of their
    /// links.
    pub fn feed(&mut self, neighbours: &Vec<(String, i64)>)
        requires
            old(self).wf(),
            !is_done(old(self)@),
        ensures
            final(self).wf(),
            final(self)@ == stepped(old(self)@, scored_views(neighbours@)),
    {
        let ghost s = self@;
        let ghost nv = scored_views(neighbours@);
        let score: i64 = self.frontier[self.at].1;
        let base: i64 = mul_fixed(score, self.decay);
        proof {
            assert(s.frontier[0].1 == score);
        }
        for i in 0..neighbours.len()
            invariant
                nv == scored_views(neighbours@),
                base == mul_fixed_of(score, s.decay),
                self.decay == old(self).decay,
                self.hops_left == old(self).hops_left,
                self.frontier == old(self).frontier,
                self.at == old(self).at,
                self.seeds == old(self).seeds,
                s == old(self)@,
                (self.activation@, scored_views(self.next@)) == relaxed(
                    s.activation,
                    s.next,
                    score,
                    s.decay,
                    nv,
                    i as nat,
                ),
        {
            let x: i64 = mul_fixed(base, neighbours[i].1);
            proof {
                assert(nv[i as int] == (neighbours@[i as int].0@, neighbours@[i as int].1));
            }
            if x > 0 {
                let risen: bool = self.activation.raise(neighbours[i].0.as_str(), x);
                if risen {
                    let ghost before = self.next@;
                    self.next.push((neighbours[i].0.clone(), x));
                    proof {
                        assert(scored_views(self.next@) =~= scored_views(before).push(
                            (nv[i as int].0, x),
                        ));
                    }
                } else {
                    proof {
                        let a = relaxed(s.activation, s.next, score, s.decay, nv, i as nat).0;
                        assert(with_score_raised(a, nv[i as int].0, x) == a);
                    }
                }
            }
        }
        let ghost goal = stepped(s, nv);
        if self.frontier.len() - self.at > 1 {
            self.at = self.at + 1;
            proof {
                assert(self@.frontier =~= s.frontier.skip(1));
            }
        } else {
            let mut f: Vec<(String, i64)> = Vec::new();
            core::mem::swap(&mut f, &mut self.next);
            self.frontier = f;
            self.at = 0;
            self.hops_left = self.hops_left - 1;
            proof {
                assert(self@.frontier =~= goal.frontier);
                assert(self@.next =~= seq![]);
            }
        }
    }

    /// The `k` most strongly activated units that are no seeds, strongest
    /// first.
    pub fn hits(&self, k: usize) -> (r: Vec<GraphHit>)
        ensures
            hit_views(r@) == top_hits(self@, k as nat),
            r@.len() <= k,
    {
        let ghost s = self@;
        let ghost goal = unseeded(s);
        let mut marks: Vec<bool> = Vec::new();
        for i in 0..self.activation.entries.len()
            invariant
                s == self@,
                goal == unseeded(s),
                marks@ == goal.take(i as int),
        {
            let seed: bool = crate::text::has_string(
                &self.seeds,
                self.activation.entries[i].0.as_str(),
            );
            marks.push(!seed);
            proof {
                assert(marks@ =~= goal.take(i + 1));
            }
        }
        proof {
            assert(goal.take(goal.len() as int) =~= goal);
        }
        let order: Vec<usize> = self.activation.order();
        let chosen: Vec<usize> = pick(&order, &marks, k);
        let ghost ci = indices(chosen@);
        let mut out: Vec<GraphHit> = Vec::new();
        proof {
            assert(hit_views(out@) =~= ci.take(0).map_values(|i: int| s.activation[i]));
        }
        for i in 0..chosen.len()
            invariant
                s == self@,
                ci == indices(chosen@),
                marks@.len() == self.activation.entries@.len(),
                forall|j: int| 0 <= j < chosen@.len() ==> #[trigger] chosen@[j] < marks@.len(),
                hit_views(out@) == ci.take(i as int).map_values(|i: int| s.activation[i]),
                out@.len() == i,
        {
            let x: usize = chosen[i];
            let h = GraphHit {
                unit_id: self.activation.entries[x].0.clone(),
                activation: self.activation.entries[x].1,
            };
            let ghost before = out@;
            out.push(h);
            proof {
                assert(hit_views(out@) =~= hit_views(before).push((h.unit_id@, h.activation)));
                assert(ci.take(i + 1) =~= ci.take(i as int).push(x as int));
                assert(ci.take(i + 1).map_values(|i: int| s.activation[i]) =~= ci.take(
                    i as int,
                ).map_values(|i: int| s.activation[i]).push(s.activation[x as int]));
            }
        }
        proof {
            assert(ci.take(ci.len() as int) =~= ci);
        }
        out
    }
}

/// The links of a unit in a list of links by unit: those of its first entry.
pub open spec fn listed_links(adj: Seq<(String, Vec<(String, i64)>)>, id: Seq<char>) -> Seq<
    (Seq<char>, i64),
>
    decreases adj.len(),
{
    if adj.len() == 0 {
        seq![]
    } else if adj[0].0@ == id {
        scored_views(adj[0].1@)
    } else {
        listed_links(adj.skip(1), id)
    }
}

fn lookup(adj: &Vec<(String, Vec<(String, i64)>)>, id: &str) -> (r: Vec<(String, i64)>)
    ensures
        scored_views(r@) == listed_links(adj@, id@),
{
    proof {
        assert(adj@.skip(0) =~= adj@);
    }
    for i in 0..adj.len()
        invariant
            listed_links(adj@, id@) == listed_links(adj@.skip(i as int), id@),
    {
        proof {
            assert(adj@.skip(i as int)[0] == adj@[i as int]);
            assert(adj@.skip(i as int).skip(1) =~= adj@.skip(i + 1));
        }
        if same(adj[i].0.as_str(), id) {
            return copy_scored(&adj[i].1);
        }
    }
    let out: Vec<(String, i64)> = Vec::new();
    proof {
        assert(scored_views(out@) =~= seq![]);
    }
    out
}

/// The outcome of a whole spread through listed links.
pub open spec fn expanded(
    seeds: Seq<(Seq<char>, i64)>,
    cfg: GraphConfig,
    k: nat,
    adj: Seq<(String, Vec<(String, i64)>)>,
) -> Seq<(Seq<char>, i64)> {
    top_hits(
        finished(
            started(seeds, cfg.hop_decay, cfg.max_hops as nat),
            |id: Seq<char>| listed_links(adj, id),
        ),
        k,
    )
}

/// Spreads activation from seeds outward through listed links, and gives the
/// `k` most strongly activated units that are no seeds.
pub fn expand(
    seeds: &Vec<(String, i64)>,
    cfg: GraphConfig,
    k: usize,
    adj: &Vec<(String, Vec<(String, i64)>)>,
) -> (r: Vec<GraphHit>)
    ensures
        hit_views(r@) == expanded(scored_views(seeds@), cfg, k as nat, adj@),
        r@.len() <= k,
{
    let mut e: Expansion = Expansion::start(seeds, cfg);
    let ghost f = |id: Seq<char>| listed_links(adj@, id);
    let ghost goal = finished(e@, f);
    loop
        invariant
            e.wf(),
            f == (|id: Seq<char>| listed_links(adj@, id)),
            goal == finished(e@, f),
        ensures
            goal == e@,
        decreases e@.hops_left, e@.frontier.len(),
    {
        match e.wanted() {
            Some(id) => {
                let nbs: Vec<(String, i64)> = lookup(adj, id.as_str());
                e.feed(&nbs);
            },
            None => {
                break;
            },
        }
    }
    e.hits(k)
}

/// What passes along a link is weakened by the decay and by the weight of
/// the link: it grows with what passes and with the weight, is never more
/// than there was, and nothing passes along a link without weight. A full
/// weight leaves the decay alone, and no decay leaves the weight alone.
pub proof fn law_links_weaken(score: i64, more: i64, decay: i64, weight: i64, heavier: i64)
    requires
        0 <= score <= more,
        0 <= decay <= 1_000_000_000,
        0 <= weight <= heavier <= 1_000_000_000,
    ensures
        passed_on(score, decay, weight) <= passed_on(more, decay, weight),
        passed_on(score, decay, weight) <= passed_on(score, decay, heavier),
        0 <= passed_on(score, decay, weight) <= score,
        passed_on(score, decay, 0) == 0,
        passed_on(score, 0, weight) == 0,
        passed_on(score, decay, 1_000_000_000) == mul_fixed_of(score, decay),
        passed_on(score, 1_000_000_000, weight) == mul_fixed_of(score, weight),
        passed_on(score, 500_000_000, 1_000_000_000) == score / 2,
{
    let a = mul_fixed_of(score, decay);
    let b = mul_fixed_of(more, decay);
    law_product_is_monotone(score, more, decay);
    law_product_is_monotone(a, b, weight);
    assert(0 <= score * decay <= score * 1_000_000_000) by (nonlinear_arith)
        requires
            0 <= score,
            0 <= decay <= 1_000_000_000,
    ;
    assert(0 <= a <= score);
    assert(0 <= a * weight <= a * heavier <= a * 1_000_000_000) by (nonlinear_arith)
        requires
            0 <= a,
            0 <= weight <= heavier <= 1_000_000_000,
    ;
    law_product(a, 0);
    law_product(score, 0);
    law_product(0, weight);
    law_product(weight, 0);
    law_product(a, 1_000_000_000);
    law_product(score, 1_000_000_000);
    let h = mul_fixed_of(score, 500_000_000);
    law_product(h, 1_000_000_000);
    assert((score * 500_000_000) / 1_000_000_000 == score / 2);
}

/// The hits of a spread are no seeds, the strongest first, and at most as
/// many as asked for; nothing else that was activated is stronger than a
/// hit, and while there is room nothing is left out.
pub proof fn law_strongest_come_first(s: Spread, k: nat)
    ensures
        ({
            let r = top_hits(s, k);
            &&& r.len() <= k
            &&& forall|i: int|
                0 <= i < r.len() ==> s.activation.contains(#[trigger] r[i]) && !s.seeds.contains(
                    r[i].0,
                )
            &&& forall|i: int, j: int|
                0 <= i < j < r.len() ==> (#[trigger] r[i]).1 >= (#[trigger] r[j]).1
            &&& forall|m: int, i: int|
                0 <= m < s.activation.len() && !s.seeds.contains((#[trigger] s.activation[m]).0)
                    && !r.contains(s.activation[m]) && 0 <= i < r.len() ==> s.activation[m].1 <= (
                #[trigger] r[i]).1
            &&& r.len() < k ==> forall|m: int|
                0 <= m < s.activation.len() && !s.seeds.contains((#[trigger] s.activation[m]).0)
                    ==> r.contains(s.activation[m])
        }),
{
    let keys = score_keys(s.activation);
    let marks = unseeded(s);
    let p = picked(descending(keys, keys.len()), marks, k);
    let r = top_hits(s, k);
    law_best_marked_are_picked(keys, marks, k);
    assert(r.len() == p.len());
    assert forall|i: int| 0 <= i < r.len() implies s.activation.contains(#[trigger] r[i])
        && !s.seeds.contains(r[i].0) by {
        assert(r[i] == s.activation[p[i]]);
        assert(marks[p[i]]);
    }
    assert forall|i: int, j: int| 0 <= i < j < r.len() implies (#[trigger] r[i]).1 >= (
    #[trigger] r[j]).1 by {
        assert(keys[p[i]] >= keys[p[j]]);
    }
    assert forall|m: int|
        0 <= m < s.activation.len() && !s.seeds.contains((#[trigger] s.activation[m]).0)
            && !r.contains(s.activation[m]) implies !p.contains(m) by {
        if p.contains(m) {
            let z = choose|z: int| 0 <= z < p.len() && p[z] == m;
            assert(r[z] == s.activation[m]);
        }
    }
    assert forall|m: int, i: int|
        0 <= m < s.activation.len() && !s.seeds.contains((#[trigger] s.activation[m]).0)
            && !r.contains(s.activation[m]) && 0 <= i < r.len() implies s.activation[m].1 <= (
    #[trigger] r[i]).1 by {
        assert(marks[m]);
        assert(!p.contains(m));
        assert(keys[m] <= keys[p[i]]);
    }
    if r.len() < k {
        assert forall|m: int|
            0 <= m < s.activation.len() && !s.seeds.contains(
                (#[trigger] s.activation[m]).0,
            ) implies r.contains(s.activation[m]) by {
            assert(marks[m]);
            assert(p.contains(m));
            let z = choose|z: int| 0 <= z < p.len() && p[z] == m;
            assert(r[z] == s.activation[m]);
        }
    }
}

} // verus!
