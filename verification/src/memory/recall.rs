//! The recall pipeline.
//!
//! Three arms look for units: by similarity, by words, and through links
//! from the most similar ones. Reciprocal rank fusion merges them; a second
//! scoring takes time into account, and a budget caps the text returned.
//! Scores count units of `10⁻¹⁵`.
use crate::ambient::Timestamp;
use crate::fixed::{add_capped, capped_add, mul_fixed, mul_fixed_of, HALF};
use crate::memory::fusion::{lemma_rank_range, rank_score, rank_term, DEFAULT_RRF_K};
use crate::memory::graph_retrieval::GraphConfig;
use crate::memory::model::{
    arm_size, unit_time, unit_views, units_wf, Budget, FactType, MemoryUnit, TagMatch, Unit,
};
use crate::memory::reranker::{
    rescored, seconds_since, specific_time, HeuristicReranker, RerankerConfig,
};
use crate::memory::storage::{eligible, eligible_units, keep_eligible};
use crate::memory::tally::{
    best_first, has_score, ids_unique, law_adding_to_a_score, score_index, scored_views,
    with_score_added, Tally,
};
use crate::order::{
    descending, descending_order, indices, ints, law_descending, law_descending_is_complete,
};
use crate::text::{same, trim, trimmed, views};
use crate::window::at_most;
use vstd::prelude::*;

verus! {

/// One recall request.
#[derive(Debug, Clone)]
pub struct RecallRequest {
    pub query: String,
    pub fact_types: Vec<FactType>,
    pub tags: Vec<String>,
    pub tag_match: TagMatch,
    pub budget: Budget,
    /// Soft cap on the returned text, in characters.
    pub max_tokens: Option<usize>,
}

impl Default for RecallRequest {
    fn default() -> (r: RecallRequest)
        ensures
            r.query@ == Seq::<char>::empty(),
            r.fact_types@.len() == 0,
            r.tags@.len() == 0,
            r.tag_match == TagMatch::Any,
            r.budget == Budget::Mid,
            r.max_tokens is None,
    {
        RecallRequest {
            query: String::new(),
            fact_types: Vec::new(),
            tags: Vec::new(),
            tag_match: TagMatch::Any,
            budget: Budget::Mid,
            max_tokens: None,
        }
    }
}

/// A unit that was found.
#[derive(Debug)]
pub struct RecallHit {
    pub unit: MemoryUnit,
    pub score: u64,
    /// The rank in each arm, counted from one; absent where the arm did not
    /// find the unit.
    pub semantic_rank: Option<usize>,
    pub bm25_rank: Option<usize>,
    pub graph_rank: Option<usize>,
}

/// A hit as a mathematical value.
pub struct Hit {
    pub unit: Unit,
    pub score: u64,
    pub semantic_rank: Option<usize>,
    pub bm25_rank: Option<usize>,
    pub graph_rank: Option<usize>,
}

impl View for RecallHit {
    type V = Hit;

    open spec fn view(&self) -> Hit {
        Hit {
            unit: self.unit@,
            score: self.score,
            semantic_rank: self.semantic_rank,
            bm25_rank: self.bm25_rank,
            graph_rank: self.graph_rank,
        }
    }
}

/// The views of a sequence of hits.
pub open spec fn hit_views(s: Seq<RecallHit>) -> Seq<Hit> {
    s.map_values(|h: RecallHit| h@)
}

/// Every unit of a list of hits is well formed.
pub open spec fn hits_wf(s: Seq<RecallHit>) -> bool {
    forall|i: int| 0 <= i < s.len() ==> (#[trigger] s[i]).unit.wf()
}

impl Clone for RecallHit {
    fn clone(&self) -> (r: RecallHit)
        ensures
            r@ == self@,
            r.unit.wf() == self.unit.wf(),
    {
        RecallHit {
            unit: self.unit.clone(),
            score: self.score,
            semantic_rank: self.semantic_rank,
            bm25_rank: self.bm25_rank,
            graph_rank: self.graph_rank,
        }
    }
}

impl RecallHit {
    /// The most specific time of the unit.
    pub fn specific_time(&self) -> (r: Timestamp)
        ensures
            r == specific_time(self@.unit),
    {
        match self.unit.occurred_start {
            Some(t) => t,
            None => match self.unit.event_date {
                Some(t) => t,
                None => self.unit.mentioned_at,
            },
        }
    }
}

#[derive(Debug, Clone)]
pub struct RecallResponse {
    pub results: Vec<RecallHit>,
}

impl Default for RecallResponse {
    fn default() -> (r: RecallResponse)
        ensures
            r.results@.len() == 0,
    {
        RecallResponse { results: Vec::new() }
    }
}

/// The three ways to find units.
#[derive(Debug, Clone, Copy, PartialEq, Eq, Structural)]
pub enum Arm {
    Semantic,
    Words,
    Graph,
}

/// The position of the hit on a unit, or the length when there is none.
pub open spec fn hit_index(hs: Seq<Hit>, id: Seq<char>) -> int
    decreases hs.len(),
{
    if hs.len() == 0 || hs[0].unit.id == id {
        0
    } else {
        1 + hit_index(hs.skip(1), id)
    }
}

/// The first of two ranks.
pub open spec fn first_rank(old_rank: Option<usize>, rank: usize, here: bool) -> Option<usize> {
    match old_rank {
        Some(r) => Some(r),
        None => if here {
            Some(rank)
        } else {
            None
        },
    }
}

/// A hit with one more place in an arm.
pub open spec fn with_place(h: Hit, arm: Arm, rank: usize, k: u64) -> Hit {
    Hit {
        unit: h.unit,
        score: capped_add(h.score, rank_score(k, rank as nat) as u64),
        semantic_rank: first_rank(h.semantic_rank, rank, arm == Arm::Semantic),
        bm25_rank: first_rank(h.bm25_rank, rank, arm == Arm::Words),
        graph_rank: first_rank(h.graph_rank, rank, arm == Arm::Graph),
    }
}

/// A unit that no arm has placed yet.
pub open spec fn unplaced(u: Unit) -> Hit {
    Hit { unit: u, score: 0, semantic_rank: None, bm25_rank: None, graph_rank: None }
}

/// The hits after a unit was found at a rank of an arm.
pub open spec fn with_found(hs: Seq<Hit>, u: Unit, arm: Arm, rank: usize, k: u64) -> Seq<Hit> {
    let i = hit_index(hs, u.id);
    if i < hs.len() {
        hs.update(i, with_place(hs[i], arm, rank, k))
    } else {
        hs.push(with_place(unplaced(u), arm, rank, k))
    }
}

/// The hits after the first `n` places of an arm.
pub open spec fn with_arm(hs: Seq<Hit>, units: Seq<Unit>, n: nat, arm: Arm, k: u64) -> Seq<Hit>
    decreases n,
{
    if n == 0 {
        hs
    } else {
        with_found(with_arm(hs, units, (n - 1) as nat, arm, k), units[n - 1], arm, n as usize, k)
    }
}

/// The hits of all three arms, in the order in which units were first found.
pub open spec fn fused(semantic: Seq<Unit>, words: Seq<Unit>, graph: Seq<Unit>, k: u64) -> Seq<
    Hit,
> {
    let a = with_arm(seq![], semantic, semantic.len(), Arm::Semantic, k);
    let b = with_arm(a, words, words.len(), Arm::Words, k);
    with_arm(b, graph, graph.len(), Arm::Graph, k)
}

/// The scores of hits as sort keys.
pub open spec fn hit_keys(hs: Seq<Hit>) -> Seq<int> {
    hs.map_values(|h: Hit| h.score as int)
}

/// Hits, best first, equal scores in their original order.
pub open spec fn sorted_hits(hs: Seq<Hit>) -> Seq<Hit> {
    descending(hit_keys(hs), hs.len()).map_values(|i: int| hs[i])
}

/// The whole days since a unit took place; zero where that lies ahead.
pub open spec fn age_days(u: Unit, now: Timestamp) -> int {
    seconds_since(unit_time(u), now) / 86_400
}

/// A score weighed by age and support: times `max(1 − days/365, 0.5)`, times
/// `1 + 0.1·(proofs − 0.5)`, held within the range of its type.
pub open spec fn boosted(score: u64, days: int, proofs: u32) -> u64 {
    let p = 19 + 2 * proofs;
    let s = if 2 * days < 365 {
        (score * ((365 - days) * p)) / 7300
    } else {
        (score * p) / 40
    };
    if s > u64::MAX {
        u64::MAX
    } else {
        s as u64
    }
}

/// The hits with their scores weighed by age and support.
pub open spec fn with_boosts(hs: Seq<Hit>, now: Timestamp) -> Seq<Hit> {
    hs.map_values(
        |h: Hit|
            Hit { score: boosted(h.score, age_days(h.unit, now), h.unit.proof_count), ..h },
    )
}

/// How long the texts of the first `n` hits are together.
pub open spec fn text_length(hs: Seq<Hit>, n: nat) -> nat
    decreases n,
{
    if n == 0 {
        0
    } else {
        text_length(hs, (n - 1) as nat) + hs[n - 1].unit.text.len()
    }
}

/// Whether the first `n` hits may stay under a cap: their texts fit, or there
/// is at most one.
pub open spec fn fits(hs: Seq<Hit>, n: nat, max: nat) -> bool {
    n <= 1 || text_length(hs, n) <= max
}

/// The largest number of hits up to `n` that may stay.
pub open spec fn fitting(hs: Seq<Hit>, n: nat, max: nat) -> nat
    decreases n,
{
    if n == 0 || fits(hs, n, max) {
        n
    } else {
        fitting(hs, (n - 1) as nat, max)
    }
}

/// The hits that a cap on their text leaves: as many as may stay, from the
/// first on.
pub open spec fn capped_hits(hs: Seq<Hit>, max: Option<usize>) -> Seq<Hit> {
    match max {
        Some(m) => hs.take(fitting(hs, hs.len(), m as nat) as int),
        None => hs,
    }
}

/// What takes time into account after fusion.
pub open spec fn rescored_hits(
    reranker: Option<RerankerConfig>,
    hs: Seq<Hit>,
    recency: Seq<u64>,
    closeness: Seq<u64>,
    now: Timestamp,
) -> Seq<Hit> {
    match reranker {
        Some(cfg) => sorted_hits(rescored(cfg, hs, recency, closeness)),
        None => sorted_hits(with_boosts(hs, now)),
    }
}

proof fn lemma_hit_index(hs: Seq<Hit>, id: Seq<char>)
    ensures
        0 <= hit_index(hs, id) <= hs.len(),
        hit_index(hs, id) < hs.len() ==> hs[hit_index(hs, id)].unit.id == id,
        forall|i: int| 0 <= i < hit_index(hs, id) ==> (#[trigger] hs[i]).unit.id != id,
    decreases hs.len(),
{
    if hs.len() > 0 && hs[0].unit.id != id {
        let t = hs.skip(1);
        lemma_hit_index(t, id);
        assert forall|i: int| 0 <= i < hit_index(hs, id) implies (#[trigger] hs[i]).unit.id
            != id by {
            if i > 0 {
                assert(hs[i] == t[i - 1]);
            }
        }
    }
}

proof fn lemma_hit_index_is(hs: Seq<Hit>, id: Seq<char>, k: int)
    requires
        0 <= k <= hs.len(),
        k < hs.len() ==> hs[k].unit.id == id,
        forall|i: int| 0 <= i < k ==> (#[trigger] hs[i]).unit.id != id,
    ensures
        hit_index(hs, id) == k,
{
    lemma_hit_index(hs, id);
    let d = hit_index(hs, id);
    if d < k {
        assert(hs[d].unit.id != id);
    } else if k < d {
        assert(hs[k].unit.id != id);
    }
}

/// No two hits are on the same unit.
pub open spec fn hits_unique(hs: Seq<Hit>) -> bool {
    forall|i: int, j: int|
        0 <= i < j < hs.len() ==> (#[trigger] hs[i]).unit.id != (#[trigger] hs[j]).unit.id
}

proof fn lemma_arm_unique(hs: Seq<Hit>, units: Seq<Unit>, n: nat, arm: Arm, k: u64)
    requires
        hits_unique(hs),
        n <= units.len(),
    ensures
        hits_unique(with_arm(hs, units, n, arm, k)),
    decreases n,
{
    if n > 0 {
        lemma_arm_unique(hs, units, (n - 1) as nat, arm, k);
        lemma_hit_index(with_arm(hs, units, (n - 1) as nat, arm, k), units[n - 1].id);
    }
}

/// Fusion gives each unit one hit, however many arms found it.
pub proof fn law_fusion_merges(semantic: Seq<Unit>, words: Seq<Unit>, graph: Seq<Unit>, k: u64)
    ensures
        hits_unique(fused(semantic, words, graph, k)),
{
    let a = with_arm(seq![], semantic, semantic.len(), Arm::Semantic, k);
    lemma_arm_unique(seq![], semantic, semantic.len(), Arm::Semantic, k);
    let b = with_arm(a, words, words.len(), Arm::Words, k);
    lemma_arm_unique(a, words, words.len(), Arm::Words, k);
    lemma_arm_unique(b, graph, graph.len(), Arm::Graph, k);
}

/// A cap keeps at least the first hit, and only drops from the end.
pub proof fn law_cap_keeps_first(hs: Seq<Hit>, max: usize)
    requires
        hs.len() > 0,
    ensures
        1 <= capped_hits(hs, Some(max)).len() <= hs.len(),
        capped_hits(hs, Some(max)) == hs.take(capped_hits(hs, Some(max)).len() as int),
        capped_hits(hs, Some(max))[0] == hs[0],
{
    lemma_fitting(hs, hs.len(), max as nat);
}

proof fn lemma_fitting(hs: Seq<Hit>, n: nat, max: nat)
    ensures
        fitting(hs, n, max) <= n,
        n > 0 ==> fitting(hs, n, max) >= 1,
    decreases n,
{
    if n > 0 && !fits(hs, n, max) {
        lemma_fitting(hs, (n - 1) as nat, max);
    }
}

proof fn lemma_fitting_is(hs: Seq<Hit>, k: nat, n: nat, max: nat)
    requires
        k <= n,
        fits(hs, k, max),
        k < n ==> !fits(hs, k + 1, max),
    ensures
        fitting(hs, n, max) == k,
    decreases n - k,
{
    if k < n {
        lemma_length_grows(hs, k + 1, n);
        assert(!fits(hs, n, max));
        if k < n - 1 {
            lemma_fitting_is(hs, k, (n - 1) as nat, max);
        }
        assert(fitting(hs, n, max) == fitting(hs, (n - 1) as nat, max));
    }
}

proof fn lemma_length_grows(hs: Seq<Hit>, a: nat, b: nat)
    requires
        a <= b,
    ensures
        text_length(hs, a) <= text_length(hs, b),
    decreases b - a,
{
    if a < b {
        lemma_length_grows(hs, a, (b - 1) as nat);
    }
}

/// Every hit is on a unit that a request selects.
pub open spec fn all_eligible(
    hs: Seq<Hit>,
    fact_types: Seq<FactType>,
    tags: Seq<Seq<char>>,
    mode: TagMatch,
) -> bool {
    forall|i: int| 0 <= i < hs.len() ==> eligible((#[trigger] hs[i]).unit, fact_types, tags, mode)
}

proof fn lemma_arm_eligible(
    hs: Seq<Hit>,
    units: Seq<Unit>,
    n: nat,
    arm: Arm,
    k: u64,
    fact_types: Seq<FactType>,
    tags: Seq<Seq<char>>,
    mode: TagMatch,
)
    requires
        all_eligible(hs, fact_types, tags, mode),
        n <= eligible_units(units, fact_types, tags, mode).len(),
    ensures
        all_eligible(
            with_arm(hs, eligible_units(units, fact_types, tags, mode), n, arm, k),
            fact_types,
            tags,
            mode,
        ),
    decreases n,
{
    let us = eligible_units(units, fact_types, tags, mode);
    if n > 0 {
        lemma_arm_eligible(hs, units, (n - 1) as nat, arm, k, fact_types, tags, mode);
        let before = with_arm(hs, us, (n - 1) as nat, arm, k);
        lemma_hit_index(before, us[n - 1].id);
        units.lemma_filter_pred(|u: Unit| eligible(u, fact_types, tags, mode), n - 1);
        assert(eligible(us[n - 1], fact_types, tags, mode));
    }
}

proof fn lemma_sorted_keeps(
    hs: Seq<Hit>,
    fact_types: Seq<FactType>,
    tags: Seq<Seq<char>>,
    mode: TagMatch,
)
    requires
        hits_unique(hs),
        all_eligible(hs, fact_types, tags, mode),
    ensures
        hits_unique(sorted_hits(hs)),
        all_eligible(sorted_hits(hs), fact_types, tags, mode),
        sorted_hits(hs).len() == hs.len(),
{
    let keys = hit_keys(hs);
    let o = descending(keys, hs.len());
    law_descending(keys, hs.len());
    let t = sorted_hits(hs);
    assert forall|i: int, j: int| 0 <= i < j < t.len() implies (#[trigger] t[i]).unit.id != (
    #[trigger] t[j]).unit.id by {
        assert(o[i] != o[j]);
        assert(t[i] == hs[o[i]] && t[j] == hs[o[j]]);
        if o[i] < o[j] {
            assert(hs[o[i]].unit.id != hs[o[j]].unit.id);
        } else {
            assert(hs[o[j]].unit.id != hs[o[i]].unit.id);
        }
    }
    assert forall|i: int| 0 <= i < t.len() implies eligible(
        (#[trigger] t[i]).unit,
        fact_types,
        tags,
        mode,
    ) by {
        assert(t[i] == hs[o[i]]);
    }
}

/// The hits of a request, best first: whatever an arm found, only what the
/// request selects counts.
pub open spec fn gathered(
    semantic: Seq<Unit>,
    words: Seq<Unit>,
    graph: Seq<Unit>,
    fact_types: Seq<FactType>,
    tags: Seq<Seq<char>>,
    mode: TagMatch,
    k: u64,
) -> Seq<Hit> {
    sorted_hits(
        fused(
            eligible_units(semantic, fact_types, tags, mode),
            eligible_units(words, fact_types, tags, mode),
            eligible_units(graph, fact_types, tags, mode),
            k,
        ),
    )
}

/// Every hit of a request satisfies the fact types and the tags that were
/// asked for, whichever arm found it, and no unit is hit twice. Rescoring and
/// the cap keep that.
pub proof fn law_hits_are_what_was_asked_for(
    semantic: Seq<Unit>,
    words: Seq<Unit>,
    graph: Seq<Unit>,
    fact_types: Seq<FactType>,
    tags: Seq<Seq<char>>,
    mode: TagMatch,
    k: u64,
    reranker: Option<RerankerConfig>,
    recency: Seq<u64>,
    closeness: Seq<u64>,
    now: Timestamp,
    max: Option<usize>,
)
    ensures
        ({
            let hs = gathered(semantic, words, graph, fact_types, tags, mode, k);
            let answer = capped_hits(rescored_hits(reranker, hs, recency, closeness, now), max);
            &&& all_eligible(hs, fact_types, tags, mode)
            &&& hits_unique(hs)
            &&& all_eligible(answer, fact_types, tags, mode)
            &&& hits_unique(answer)
        }),
{
    let s = eligible_units(semantic, fact_types, tags, mode);
    let w = eligible_units(words, fact_types, tags, mode);
    let g = eligible_units(graph, fact_types, tags, mode);
    let a = with_arm(seq![], s, s.len(), Arm::Semantic, k);
    lemma_arm_eligible(seq![], semantic, s.len(), Arm::Semantic, k, fact_types, tags, mode);
    let b = with_arm(a, w, w.len(), Arm::Words, k);
    lemma_arm_eligible(a, words, w.len(), Arm::Words, k, fact_types, tags, mode);
    lemma_arm_eligible(b, graph, g.len(), Arm::Graph, k, fact_types, tags, mode);
    law_fusion_merges(s, w, g, k);
    lemma_sorted_keeps(fused(s, w, g, k), fact_types, tags, mode);
    let hs = gathered(semantic, words, graph, fact_types, tags, mode, k);
    let scored = match reranker {
        Some(cfg) => rescored(cfg, hs, recency, closeness),
        None => with_boosts(hs, now),
    };
    assert forall|i: int| 0 <= i < scored.len() implies (#[trigger] scored[i]).unit == hs[i].unit by {}
    assert(hits_unique(scored)) by {
        assert forall|i: int, j: int| 0 <= i < j < scored.len() implies (
        #[trigger] scored[i]).unit.id != (#[trigger] scored[j]).unit.id by {
            assert(hs[i].unit.id != hs[j].unit.id);
        }
    }
    assert(all_eligible(scored, fact_types, tags, mode)) by {
        assert forall|i: int| 0 <= i < scored.len() implies eligible(
            (#[trigger] scored[i]).unit,
            fact_types,
            tags,
            mode,
        ) by {
            assert(eligible(hs[i].unit, fact_types, tags, mode));
        }
    }
    lemma_sorted_keeps(scored, fact_types, tags, mode);
    let r = rescored_hits(reranker, hs, recency, closeness, now);
    if let Some(m) = max {
        lemma_fitting(r, r.len(), m as nat);
    }
}

/// Of two hits of one score and one support, the older never comes out
/// higher.
pub proof fn law_older_scores_no_higher(score: u64, days: int, later: int, proofs: u32)
    requires
        0 <= days <= later,
    ensures
        boosted(score, days, proofs) >= boosted(score, later, proofs),
        boosted(score, later, proofs) <= boosted(score, 0, proofs),
{
    lemma_age(score, days, later, proofs);
    lemma_age(score, 0, later, proofs);
}

proof fn lemma_age(score: u64, days: int, later: int, proofs: u32)
    requires
        0 <= days <= later,
    ensures
        boosted(score, days, proofs) >= boosted(score, later, proofs),
{
    let p = 19 + 2 * proofs;
    let x = score * p;
    lemma_factors(score as int, p, days);
    lemma_factors(score as int, p, later);
    assert(x >= 0) by (nonlinear_arith)
        requires
            x == score * p,
            score >= 0,
            p >= 0,
    ;
    assert(x * (365 - days) >= x * (365 - later)) by (nonlinear_arith)
        requires
            x >= 0,
            days <= later,
    ;
    if 2 * days < 365 && 2 * later >= 365 {
        assert(x * (365 - days) >= x * 183) by (nonlinear_arith)
            requires
                x >= 0,
                365 - days >= 183,
        ;
        assert((x * 183) / 7300 >= x / 40);
    }
}

proof fn lemma_factors(score: int, p: int, days: int)
    ensures
        score * ((365 - days) * p) == (score * p) * (365 - days),
{
    assert(score * ((365 - days) * p) == (score * p) * (365 - days)) by (nonlinear_arith);
}

/// Up to half a year, every day takes a 365th of the fresh score, up to
/// rounding.
pub proof fn law_each_day_costs_a_share(score: u64, days: int, proofs: u32)
    requires
        0 <= days <= 182,
        boosted(score, 0, proofs) < u64::MAX,
    ensures
        ({
            let fresh = boosted(score, 0, proofs);
            let aged = boosted(score, days, proofs);
            &&& 365 * aged <= (365 - days) * (fresh + 1)
            &&& (365 - days) * fresh < 365 * (aged + 1)
        }),
{
    let p = 19 + 2 * proofs;
    let x = score * p;
    lemma_age(score, 0, days, proofs);
    lemma_factors(score as int, p, 0);
    lemma_factors(score as int, p, days);
    let m = 365 - days;
    let fresh = boosted(score, 0, proofs) as int;
    let aged = boosted(score, days, proofs) as int;
    assert(x * (365 - 0) == x * 365);
    let y = x * m;
    assert(20 * fresh <= x < 20 * (fresh + 1));
    assert(7300 * aged <= y < 7300 * (aged + 1));
    assert(y <= m * (20 * (fresh + 1)) && m * (20 * fresh) <= y) by (nonlinear_arith)
        requires
            y == x * m,
            m > 0,
            20 * fresh <= x < 20 * (fresh + 1),
    ;
    assert(m * (20 * (fresh + 1)) == 20 * (m * (fresh + 1))) by (nonlinear_arith);
    assert(m * (20 * fresh) == 20 * (m * fresh)) by (nonlinear_arith);
}

/// From half a year on a score is half the fresh one, however old the memory
/// is.
pub proof fn law_age_halves_at_most(score: u64, days: int, proofs: u32)
    requires
        days >= 183,
        boosted(score, 0, proofs) < u64::MAX,
    ensures
        2 * boosted(score, days, proofs) <= boosted(score, 0, proofs) <= 2 * boosted(
            score,
            days,
            proofs,
        ) + 1,
{
    let p = 19 + 2 * proofs;
    let x = score * p;
    lemma_age(score, 0, days, proofs);
    lemma_factors(score as int, p, 0);
    assert(x >= 0) by (nonlinear_arith)
        requires
            x == score * p,
            score >= 0,
            p >= 0,
    ;
    assert(x * (365 - 0) == x * 365);
}

/// Without support a fresh score counts for nineteen twentieths, and each
/// supporting memory adds a tenth of it, up to rounding.
pub proof fn law_support_adds_a_tenth(score: u64, proofs: u32, more: u32)
    requires
        proofs <= more,
        boosted(score, 0, more) < u64::MAX,
    ensures
        ({
            let a = boosted(score, 0, proofs);
            let b = boosted(score, 0, more);
            &&& 20 * boosted(score, 0, 0) <= 19 * score < 20 * (boosted(score, 0, 0) + 1)
            &&& a <= b
            &&& 10 * (b - a - 1) <= (more - proofs) * score <= 10 * (b - a + 1)
        }),
{
    let p = 19 + 2 * proofs;
    let q = 19 + 2 * more;
    let x = score * p;
    let y = score * q;
    lemma_factors(score as int, p, 0);
    lemma_factors(score as int, q, 0);
    lemma_factors(score as int, 19, 0);
    let d = more - proofs;
    assert(y == x + 2 * (d * score)) by (nonlinear_arith)
        requires
            x == score * p,
            y == score * q,
            q == p + 2 * d,
    ;
    assert(d * score >= 0 && x >= 19 * score) by (nonlinear_arith)
        requires
            d >= 0,
            score >= 0,
            x == score * p,
            p >= 19,
    ;
    assert(x * (365 - 0) == x * 365 && y * (365 - 0) == y * 365);
    assert((19 * score) * (365 - 0) == 365 * (19 * score));
}

/// A better score stays at least as good after age and support were weighed,
/// and so does one with more support.
pub proof fn law_boost_keeps_order(
    score: u64,
    better: u64,
    days: int,
    proofs: u32,
    more: u32,
)
    requires
        score <= better,
        proofs <= more,
        days >= 0,
    ensures
        boosted(score, days, proofs) <= boosted(better, days, more),
{
    let p = 19 + 2 * proofs;
    let q = 19 + 2 * more;
    let x = score * p;
    let y = better * q;
    lemma_factors(score as int, p, days);
    lemma_factors(better as int, q, days);
    assert(0 <= x <= y) by (nonlinear_arith)
        requires
            x == score * p,
            y == better * q,
            0 <= score <= better,
            0 <= p <= q,
    ;
    if 2 * days < 365 {
        assert(x * (365 - days) <= y * (365 - days)) by (nonlinear_arith)
            requires
                x <= y,
                365 - days >= 0,
        ;
    }
}

/// Whether a point in time is not before another.
pub open spec fn not_before(a: Timestamp, b: Timestamp) -> bool {
    a.secs > b.secs || (a.secs == b.secs && a.nanos >= b.nanos)
}

/// The more recent of two memories of one score and one support is ranked no
/// lower. A memory is as old as its event, or as its mention where no event
/// is dated.
pub proof fn law_recent_memory_scores_no_lower(hs: Seq<Hit>, now: Timestamp, i: int, j: int)
    requires
        0 <= i < hs.len(),
        0 <= j < hs.len(),
        hs[i].score == hs[j].score,
        hs[i].unit.proof_count == hs[j].unit.proof_count,
        not_before(
            match hs[i].unit.event_date {
                Some(t) => t,
                None => hs[i].unit.mentioned_at,
            },
            match hs[j].unit.event_date {
                Some(t) => t,
                None => hs[j].unit.mentioned_at,
            },
        ),
    ensures
        with_boosts(hs, now)[i].score >= with_boosts(hs, now)[j].score,
        with_boosts(hs, now)[i].unit == hs[i].unit,
{
    let a = seconds_since(unit_time(hs[i].unit), now);
    let b = seconds_since(unit_time(hs[j].unit), now);
    assert(0 <= a <= b);
    law_older_scores_no_higher(
        hs[i].score,
        age_days(hs[i].unit, now),
        age_days(hs[j].unit, now),
        hs[i].unit.proof_count,
    );
}

/// A memory of the last day is fresh, and one that lies ahead is, too; after
/// that its age is counted in whole days of 86 400 seconds.
pub proof fn law_age_counts_days(u: Unit, now: Timestamp, n: int)
    requires
        n >= 0,
        u.event_date matches Some(t) && t.nanos == now.nanos && 86_400 * n <= now.secs - t.secs
            < 86_400 * (n + 1),
    ensures
        age_days(u, now) == n,
{
}

/// Sorted hits are the same hits, each once, and none is followed by a
/// better one.
pub proof fn law_hits_come_best_first(hs: Seq<Hit>)
    ensures
        sorted_hits(hs).len() == hs.len(),
        forall|i: int, j: int|
            0 <= i < j < hs.len() ==> (#[trigger] sorted_hits(hs)[i]).score >= (
            #[trigger] sorted_hits(hs)[j]).score,
        forall|i: int| 0 <= i < hs.len() ==> sorted_hits(hs).contains(#[trigger] hs[i]),
        forall|i: int| 0 <= i < hs.len() ==> hs.contains(#[trigger] sorted_hits(hs)[i]),
{
    let keys = hit_keys(hs);
    let order = descending(keys, hs.len());
    law_descending(keys, hs.len());
    let r = sorted_hits(hs);
    assert forall|i: int, j: int| 0 <= i < j < hs.len() implies (#[trigger] r[i]).score >= (
    #[trigger] r[j]).score by {
        assert(r[i] == hs[order[i]] && r[j] == hs[order[j]]);
        assert(keys[order[i]] == r[i].score && keys[order[j]] == r[j].score);
    }
    assert forall|i: int| 0 <= i < hs.len() implies r.contains(#[trigger] hs[i]) by {
        law_descending_is_complete(keys, hs.len(), i);
        let q = choose|q: int| 0 <= q < order.len() && order[q] == i;
        assert(r[q] == hs[i]);
    }
    assert forall|i: int| 0 <= i < hs.len() implies hs.contains(#[trigger] r[i]) by {
        assert(r[i] == hs[order[i]]);
    }
}

/// What the first `n` places of an arm give a unit together.
pub open spec fn places_score(units: Seq<Unit>, n: nat, id: Seq<char>, k: u64) -> nat
    decreases n,
{
    if n == 0 {
        0
    } else {
        places_score(units, (n - 1) as nat, id, k) + (if units[n - 1].id == id {
            rank_score(k, n) as nat
        } else {
            0
        })
    }
}

/// Whether some list of units holds one with an identifier.
pub open spec fn finds(units: Seq<Unit>, id: Seq<char>) -> bool {
    exists|i: int| 0 <= i < units.len() && (#[trigger] units[i]).id == id
}

spec fn capped_nat(n: nat) -> u64 {
    if n > u64::MAX {
        u64::MAX
    } else {
        n as u64
    }
}

/// The score of an identifier among some hits, zero where it has none.
spec fn score_in(hs: Seq<Hit>, id: Seq<char>) -> nat {
    let i = hit_index(hs, id);
    if i < hs.len() {
        hs[i].score as nat
    } else {
        0
    }
}

proof fn lemma_arm_scores(hs: Seq<Hit>, units: Seq<Unit>, n: nat, arm: Arm, k: u64, id: Seq<char>)
    requires
        n <= units.len(),
        units.len() <= usize::MAX,
    ensures
        ({
            let r = with_arm(hs, units, n, arm, k);
            &&& score_in(r, id) == capped_nat(score_in(hs, id) + places_score(units, n, id, k))
            &&& hit_index(r, id) < r.len() <==> hit_index(hs, id) < hs.len() || finds(
                units.take(n as int),
                id,
            )
        }),
    decreases n,
{
    let r = with_arm(hs, units, n, arm, k);
    lemma_hit_index(hs, id);
    if n == 0 {
        assert(score_in(hs, id) <= u64::MAX);
        assert(!finds(units.take(0), id));
    } else {
        lemma_arm_scores(hs, units, (n - 1) as nat, arm, k, id);
        let b = with_arm(hs, units, (n - 1) as nat, arm, k);
        let u = units[n - 1];
        lemma_hit_index(b, u.id);
        lemma_hit_index(b, id);
        lemma_rank_range(k, n);
        let i = hit_index(b, u.id);
        let j = hit_index(b, id);
        if finds(units.take(n - 1), id) {
            let q = choose|q: int| 0 <= q < n - 1 && (#[trigger] units.take(n - 1)[q]).id == id;
            assert(units.take(n as int)[q].id == id);
        }
        if u.id == id {
            assert(units.take(n as int)[n - 1].id == id);
            if i < b.len() {
                lemma_hit_index_is(r, id, i);
            } else {
                assert forall|q: int| 0 <= q < b.len() implies (#[trigger] r[q]).unit.id != id by {
                    assert(r[q] == b[q]);
                }
                lemma_hit_index_is(r, id, b.len() as int);
            }
        } else {
            if j < b.len() {
                assert forall|q: int| 0 <= q < j implies (#[trigger] r[q]).unit.id != id by {
                    assert(b[q].unit.id != id);
                }
                assert(r[j].unit.id == id);
                lemma_hit_index_is(r, id, j);
            } else {
                assert forall|q: int| 0 <= q < r.len() implies (#[trigger] r[q]).unit.id != id by {
                    if q < b.len() {
                        assert(b[q].unit.id != id);
                    }
                }
                lemma_hit_index_is(r, id, r.len() as int);
            }
            if finds(units.take(n as int), id) {
                let q = choose|q: int|
                    0 <= q < n && (#[trigger] units.take(n as int)[q]).id == id;
                assert(q != n - 1);
                assert(units.take(n - 1)[q].id == id);
            }
        }
    }
}

/// Fusion finds exactly what an arm found, and the score of a hit is the sum
/// of what its places in the three arms give, whichever arm they are in.
pub proof fn law_every_place_counts(
    semantic: Seq<Unit>,
    words: Seq<Unit>,
    graph: Seq<Unit>,
    k: u64,
    id: Seq<char>,
)
    requires
        semantic.len() <= usize::MAX,
        words.len() <= usize::MAX,
        graph.len() <= usize::MAX,
    ensures
        ({
            let hs = fused(semantic, words, graph, k);
            let sum = places_score(semantic, semantic.len(), id, k) + places_score(
                words,
                words.len(),
                id,
                k,
            ) + places_score(graph, graph.len(), id, k);
            &&& (exists|i: int| 0 <= i < hs.len() && (#[trigger] hs[i]).unit.id == id) <==> finds(
                semantic,
                id,
            ) || finds(words, id) || finds(graph, id)
            &&& forall|i: int|
                0 <= i < hs.len() && (#[trigger] hs[i]).unit.id == id ==> hs[i].score == if sum
                    <= u64::MAX {
                    sum
                } else {
                    u64::MAX as nat
                }
        }),
{
    let e = Seq::<Hit>::empty();
    let a = with_arm(e, semantic, semantic.len(), Arm::Semantic, k);
    let b = with_arm(a, words, words.len(), Arm::Words, k);
    let hs = fused(semantic, words, graph, k);
    lemma_arm_scores(e, semantic, semantic.len(), Arm::Semantic, k, id);
    lemma_arm_scores(a, words, words.len(), Arm::Words, k, id);
    lemma_arm_scores(b, graph, graph.len(), Arm::Graph, k, id);
    assert(semantic.take(semantic.len() as int) =~= semantic);
    assert(words.take(words.len() as int) =~= words);
    assert(graph.take(graph.len() as int) =~= graph);
    law_fusion_merges(semantic, words, graph, k);
    lemma_hit_index(hs, id);
    let d = hit_index(hs, id);
    assert forall|i: int| 0 <= i < hs.len() && (#[trigger] hs[i]).unit.id == id implies i == d by {
        if i < d {
            assert(hs[i].unit.id != id);
        } else if d < i {
            assert(hs[d].unit.id != hs[i].unit.id);
        }
    }
}

/// A cap keeps as much as fits: the texts that stay fit together, unless only
/// one stays, and one more would not fit.
pub proof fn law_cap_is_tight(hs: Seq<Hit>, max: usize)
    ensures
        ({
            let r = capped_hits(hs, Some(max));
            &&& r.len() <= 1 || text_length(r, r.len()) <= max
            &&& r.len() < hs.len() ==> r.len() >= 1 && text_length(hs, r.len() + 1) > max
        }),
        capped_hits(hs, None) == hs,
{
    lemma_fitting(hs, hs.len(), max as nat);
    lemma_fitting_tight(hs, hs.len(), max as nat);
    let r = capped_hits(hs, Some(max));
    lemma_length_prefix(hs, r, r.len());
}

proof fn lemma_fitting_tight(hs: Seq<Hit>, n: nat, max: nat)
    ensures
        fits(hs, fitting(hs, n, max), max),
        fitting(hs, n, max) < n ==> !fits(hs, fitting(hs, n, max) + 1, max),
    decreases n,
{
    if n > 0 && !fits(hs, n, max) {
        lemma_fitting_tight(hs, (n - 1) as nat, max);
    }
}

proof fn lemma_length_prefix(hs: Seq<Hit>, r: Seq<Hit>, n: nat)
    requires
        n <= r.len() <= hs.len(),
        r == hs.take(r.len() as int),
    ensures
        text_length(hs, n) == text_length(r, n),
    decreases n,
{
    if n > 0 {
        lemma_length_prefix(hs, r, (n - 1) as nat);
    }
}

/// Sorts hits, best first.
pub fn sort_hits(hits: &Vec<RecallHit>) -> (r: Vec<RecallHit>)
    requires
        hits_wf(hits@),
    ensures
        hits_wf(r@),
        hit_views(r@) == sorted_hits(hit_views(hits@)),
{
    let ghost hs = hit_views(hits@);
    let mut keys: Vec<i128> = Vec::new();
    for i in 0..hits.len()
        invariant
            keys@.len() == i,
            forall|j: int| 0 <= j < i ==> #[trigger] keys@[j] == hits@[j].score,
    {
        keys.push(hits[i].score as i128);
    }
    proof {
        assert(ints(keys@) =~= hit_keys(hs));
    }
    let order: Vec<usize> = descending_order(&keys);
    let ghost ord = indices(order@);
    let mut out: Vec<RecallHit> = Vec::new();
    proof {
        assert(hit_views(out@) =~= ord.take(0).map_values(|i: int| hs[i]));
    }
    for i in 0..order.len()
        invariant
            hs == hit_views(hits@),
            hits_wf(hits@),
            hits_wf(out@),
            ord == indices(order@),
            keys@.len() == hits@.len(),
            forall|j: int| 0 <= j < order@.len() ==> 0 <= #[trigger] order@[j] < keys@.len(),
            hit_views(out@) == ord.take(i as int).map_values(|i: int| hs[i]),
    {
        let x: usize = order[i];
        let h: RecallHit = hits[x].clone();
        let ghost before = out@;
        out.push(h);
        proof {
            assert(hit_views(out@) =~= hit_views(before).push(h@));
            assert(ord.take(i + 1) =~= ord.take(i as int).push(x as int));
            assert(ord.take(i + 1).map_values(|i: int| hs[i]) =~= ord.take(i as int).map_values(
                |i: int| hs[i],
            ).push(hs[x as int]));
        }
    }
    proof {
        assert(ord.take(ord.len() as int) =~= ord);
    }
    out
}

fn find_hit(hits: &Vec<RecallHit>, id: &str) -> (r: usize)
    ensures
        r == hit_index(hit_views(hits@), id@),
        r <= hits@.len(),
{
    let ghost hs = hit_views(hits@);
    let mut i: usize = 0;
    while i < hits.len()
        invariant_except_break
            i <= hits@.len(),
        invariant
            hs == hit_views(hits@),
            forall|j: int| 0 <= j < i ==> (#[trigger] hs[j]).unit.id != id@,
        ensures
            i <= hits@.len(),
            i < hits@.len() ==> hs[i as int].unit.id == id@,
        decreases hits@.len() - i,
    {
        if same(hits[i].unit.id.as_str(), id) {
            break;
        }
        i = i + 1;
    }
    proof {
        lemma_hit_index_is(hs, id@, i as int);
    }
    i
}

fn add_arm(hits: Vec<RecallHit>, units: &Vec<MemoryUnit>, arm: Arm, k: u64) -> (r: Vec<RecallHit>)
    requires
        hits_wf(hits@),
        units_wf(units@),
    ensures
        hits_wf(r@),
        hit_views(r@) == with_arm(hit_views(hits@), unit_views(units@), units@.len(), arm, k),
{
    let mut out: Vec<RecallHit> = hits;
    let ghost base = hit_views(out@);
    let ghost uv = unit_views(units@);
    for n in 0..units.len()
        invariant
            uv == unit_views(units@),
            hits_wf(out@),
            units_wf(units@),
            hit_views(out@) == with_arm(base, uv, n as nat, arm, k),
    {
        let ghost hs = hit_views(out@);
        let ghost before = out@;
        let i: usize = find_hit(&out, units[n].id.as_str());
        let term: u64 = rank_term(k, n as u64 + 1) as u64;
        proof {
            assert(uv[n as int] == units@[n as int]@);
            lemma_hit_index(hs, uv[n as int].id);
        }
        if i < out.len() {
            let mut h: RecallHit = out[i].clone();
            proof {
                assert(h@ == hs[i as int]);
                assert(out@[i as int].unit.wf());
            }
            place(&mut h, arm, n + 1, term);
            out.set(i, h);
            proof {
                assert(hit_views(out@) =~= hs.update(i as int, h@));
            }
        } else {
            let mut h = RecallHit {
                unit: units[n].clone(),
                score: 0,
                semantic_rank: None,
                bm25_rank: None,
                graph_rank: None,
            };
            proof {
                assert(units@[n as int].wf());
                assert(h@ == unplaced(uv[n as int]));
            }
            place(&mut h, arm, n + 1, term);
            out.push(h);
            proof {
                assert(hit_views(out@) =~= hs.push(h@));
            }
        }
        proof {
            assert(hit_views(out@) == with_found(hs, uv[n as int], arm, (n + 1) as usize, k));
        }
    }
    out
}

fn place(h: &mut RecallHit, arm: Arm, rank: usize, term: u64)
    ensures
        final(h).unit == old(h).unit,
        final(h).score == capped_add(old(h).score, term),
        final(h).semantic_rank == first_rank(old(h).semantic_rank, rank, arm == Arm::Semantic),
        final(h).bm25_rank == first_rank(old(h).bm25_rank, rank, arm == Arm::Words),
        final(h).graph_rank == first_rank(old(h).graph_rank, rank, arm == Arm::Graph),
{
    h.score = add_capped(h.score, term);
    match arm {
        Arm::Semantic => {
            if h.semantic_rank.is_none() {
                h.semantic_rank = Some(rank);
            }
        },
        Arm::Words => {
            if h.bm25_rank.is_none() {
                h.bm25_rank = Some(rank);
            }
        },
        Arm::Graph => {
            if h.graph_rank.is_none() {
                h.graph_rank = Some(rank);
            }
        },
    }
}

fn boost(score: u64, days: u64, proofs: u32) -> (r: u64)
    ensures
        r == boosted(score, days as int, proofs),
{
    let p: u128 = 19 + 2 * (proofs as u128);
    let s: u128 = if days < 183 {
        proof {
            let f = (365 - days) * p;
            assert(0 <= f <= 365 * 8_589_934_609) by (nonlinear_arith)
                requires
                    f == (365 - days) * p,
                    0 <= days < 183,
                    0 <= p <= 8_589_934_609,
            ;
            assert(0 <= score * f <= u64::MAX * (365 * 8_589_934_609)) by (nonlinear_arith)
                requires
                    0 <= f <= 365 * 8_589_934_609,
                    0 <= score <= u64::MAX,
            ;
        }
        (score as u128 * ((365 - days) as u128 * p)) / 7300
    } else {
        proof {
            assert(0 <= score * p <= u64::MAX * 8_589_934_609) by (nonlinear_arith)
                requires
                    0 <= p <= 8_589_934_609,
                    0 <= score <= u64::MAX,
            ;
        }
        (score as u128 * p) / 40
    };
    if s > u64::MAX as u128 {
        u64::MAX
    } else {
        s as u64
    }
}

/// The scores that pass from the first `n` seeds to their neighbours over
/// one link.
pub open spec fn passed(
    seeds: Seq<(Seq<char>, i64)>,
    links: Seq<Seq<(Seq<char>, i64)>>,
    n: nat,
) -> Seq<(Seq<char>, i64)>
    decreases n,
{
    if n == 0 {
        seq![]
    } else {
        passed_one(
            passed(seeds, links, (n - 1) as nat),
            seeds[n - 1].1,
            links[n - 1],
            links[n - 1].len(),
        )
    }
}

/// The scores after the first `n` neighbours of a seed received their share.
pub open spec fn passed_one(
    s: Seq<(Seq<char>, i64)>,
    score: i64,
    nbs: Seq<(Seq<char>, i64)>,
    n: nat,
) -> Seq<(Seq<char>, i64)>
    decreases n,
{
    if n == 0 {
        s
    } else {
        with_score_added(
            passed_one(s, score, nbs, (n - 1) as nat),
            nbs[n - 1].0,
            mul_fixed_of(score, nbs[n - 1].1),
        )
    }
}

/// The views of several lists of scored identifiers.
pub open spec fn scored_lists(v: Seq<Vec<(String, i64)>>) -> Seq<Seq<(Seq<char>, i64)>> {
    v.map_values(|l: Vec<(String, i64)>| scored_views(l@))
}

#[derive(Debug, Clone, Copy)]
pub struct RecallEngine {
    /// The fusion constant, in billionths.
    pub rrf_k: u64,
    pub reranker: Option<HeuristicReranker>,
    /// How many links the graph arm follows.
    pub graph_hops: u32,
}

/// How many seeds the graph arm starts from.
pub const GRAPH_SEEDS: usize = 20;

impl RecallEngine {
    pub fn new() -> (r: RecallEngine)
        ensures
            r == (RecallEngine { rrf_k: DEFAULT_RRF_K, reranker: None, graph_hops: 1 }),
    {
        RecallEngine { rrf_k: DEFAULT_RRF_K, reranker: None, graph_hops: 1 }
    }

    /// Enables the heuristic reranker.
    pub fn with_reranker(self, r: HeuristicReranker) -> (e: RecallEngine)
        ensures
            e == (RecallEngine { reranker: Some(r), ..self }),
    {
        RecallEngine { reranker: Some(r), rrf_k: self.rrf_k, graph_hops: self.graph_hops }
    }

    /// Sets the depth of the graph arm, at least one.
    pub fn with_graph_hops(self, hops: u32) -> (e: RecallEngine)
        ensures
            e == (RecallEngine {
                graph_hops: if hops > 1 {
                    hops
                } else {
                    1
                },
                ..self
            }),
    {
        RecallEngine {
            graph_hops: if hops > 1 {
                hops
            } else {
                1
            },
            rrf_k: self.rrf_k,
            reranker: self.reranker,
        }
    }

    pub fn graph_hops(&self) -> (r: u32)
        ensures
            r == self.graph_hops,
    {
        self.graph_hops
    }

    /// How the graph arm spreads where it goes further than one link.
    pub fn graph_config(&self) -> (r: Option<GraphConfig>)
        ensures
            r == if self.graph_hops > 1 {
                Some(GraphConfig { hop_decay: HALF as i64, max_hops: self.graph_hops })
            } else {
                None
            },
    {
        if self.graph_hops > 1 {
            Some(GraphConfig { hop_decay: 500_000_000, max_hops: self.graph_hops })
        } else {
            None
        }
    }

    pub fn has_reranker(&self) -> (r: bool)
        ensures
            r == (self.reranker is Some),
    {
        self.reranker.is_some()
    }

    /// How many units each arm fetches.
    pub fn arm_limit(&self, budget: Budget) -> (r: usize)
        ensures
            r == if arm_size(budget) < 500 {
                arm_size(budget)
            } else {
                500
            },
    {
        let n: usize = budget.per_arm();
        if n < 500 {
            n
        } else {
            500
        }
    }

    /// Whether a query says anything; else the similarity arm compares with
    /// the zero vector.
    pub fn has_query(&self, query: &str) -> (r: bool)
        ensures
            r == (trimmed(query@).len() > 0),
    {
        trim(query).as_str().unicode_len() > 0
    }

    /// Merges the arms, each best first, into one list, best first.
    pub fn fuse(
        &self,
        semantic: &Vec<MemoryUnit>,
        words: &Vec<MemoryUnit>,
        graph: &Vec<MemoryUnit>,
    ) -> (r: Vec<RecallHit>)
        requires
            units_wf(semantic@),
            units_wf(words@),
            units_wf(graph@),
        ensures
            hits_wf(r@),
            hit_views(r@) == sorted_hits(
                fused(unit_views(semantic@), unit_views(words@), unit_views(graph@), self.rrf_k),
            ),
    {
        let empty: Vec<RecallHit> = Vec::new();
        proof {
            assert(hit_views(empty@) =~= seq![]);
        }
        let a: Vec<RecallHit> = add_arm(empty, semantic, Arm::Semantic, self.rrf_k);
        let b: Vec<RecallHit> = add_arm(a, words, Arm::Words, self.rrf_k);
        let c: Vec<RecallHit> = add_arm(b, graph, Arm::Graph, self.rrf_k);
        sort_hits(&c)
    }

    /// The hits of a request, best first. Of each arm only what the request
    /// selects counts.
    pub fn gather(
        &self,
        req: &RecallRequest,
        semantic: &Vec<MemoryUnit>,
        words: &Vec<MemoryUnit>,
        graph: &Vec<MemoryUnit>,
    ) -> (r: Vec<RecallHit>)
        requires
            units_wf(semantic@),
            units_wf(words@),
            units_wf(graph@),
        ensures
            hits_wf(r@),
            hit_views(r@) == gathered(
                unit_views(semantic@),
                unit_views(words@),
                unit_views(graph@),
                req.fact_types@,
                views(req.tags@),
                req.tag_match,
                self.rrf_k,
            ),
            all_eligible(hit_views(r@), req.fact_types@, views(req.tags@), req.tag_match),
            hits_unique(hit_views(r@)),
    {
        let types: &[FactType] = req.fact_types.as_slice();
        let tags: &[String] = req.tags.as_slice();
        let s: Vec<MemoryUnit> = keep_eligible(semantic, types, tags, req.tag_match);
        let w: Vec<MemoryUnit> = keep_eligible(words, types, tags, req.tag_match);
        let g: Vec<MemoryUnit> = keep_eligible(graph, types, tags, req.tag_match);
        proof {
            law_hits_are_what_was_asked_for(
                unit_views(semantic@),
                unit_views(words@),
                unit_views(graph@),
                req.fact_types@,
                views(req.tags@),
                req.tag_match,
                self.rrf_k,
                None,
                seq![],
                seq![],
                Timestamp { secs: 0, nanos: 0 },
                None,
            );
        }
        self.fuse(&s, &w, &g)
    }

    /// Weighs each hit by its age and its support, and sorts anew.
    pub fn boost_hits(&self, hits: Vec<RecallHit>, now: Timestamp) -> (r: Vec<RecallHit>)
        requires
            hits_wf(hits@),
            now.wf(),
            forall|i: int| 0 <= i < hits@.len() ==> unit_time((#[trigger] hits@[i])@.unit).wf(),
        ensures
            hits_wf(r@),
            hit_views(r@) == sorted_hits(with_boosts(hit_views(hits@), now)),
    {
        let mut hs: Vec<RecallHit> = hits;
        let ghost hv = hit_views(hs@);
        let ghost goal = with_boosts(hv, now);
        let n: usize = hs.len();
        for i in 0..n
            invariant
                n == hs@.len(),
                n == hv.len(),
                hits_wf(hs@),
                now.wf(),
                goal == with_boosts(hv, now),
                forall|k: int| 0 <= k < n ==> unit_time((#[trigger] hv[k]).unit).wf(),
                forall|k: int| 0 <= k < i ==> (#[trigger] hs@[k])@ == goal[k],
                forall|k: int| i <= k < n ==> (#[trigger] hs@[k])@ == hv[k],
        {
            let t: Timestamp = hs[i].unit.time();
            let ghost before = hs@;
            proof {
                assert(before[i as int]@ == hv[i as int]);
                assert(unit_time(hv[i as int].unit).wf());
            }
            let mut d: i64 = now.secs - t.secs;
            if now.nanos < t.nanos {
                d = d - 1;
            }
            let days: u64 = if d > 0 {
                (d as u64) / 86_400
            } else {
                0
            };
            let b: u64 = boost(hs[i].score, days, hs[i].unit.proof_count);
            hs[i].score = b;
            proof {
                assert(days == age_days(hv[i as int].unit, now));
                assert(hs@[i as int]@ == goal[i as int]);
                assert forall|k: int| 0 <= k < n && k != i implies #[trigger] hs@[k] == before[k] by {
                }
            }
        }
        proof {
            assert(hit_views(hs@) =~= goal);
        }
        sort_hits(&hs)
    }

    /// Takes time into account after fusion: with the reranker where there
    /// is one, else by age and support. The two lists are only read by the
    /// reranker.
    pub fn rescore(
        &self,
        hits: Vec<RecallHit>,
        recency: &Vec<u64>,
        closeness: &Vec<u64>,
        now: Timestamp,
    ) -> (r: Vec<RecallHit>)
        requires
            hits_wf(hits@),
            now.wf(),
            recency@.len() == hits@.len(),
            closeness@.len() == hits@.len(),
            forall|i: int| 0 <= i < hits@.len() ==> unit_time((#[trigger] hits@[i])@.unit).wf(),
        ensures
            hits_wf(r@),
            hit_views(r@) == rescored_hits(
                match self.reranker {
                    Some(rr) => Some(rr.cfg),
                    None => None,
                },
                hit_views(hits@),
                recency@,
                closeness@,
                now,
            ),
    {
        match &self.reranker {
            Some(rr) => rr.rerank(hits, recency, closeness),
            None => self.boost_hits(hits, now),
        }
    }

    /// Caps the text returned: hits are kept from the first on while their
    /// text fits, and the first in any case.
    pub fn cap(&self, hits: Vec<RecallHit>, max_tokens: Option<usize>) -> (r: RecallResponse)
        ensures
            hit_views(r.results@) == capped_hits(hit_views(hits@), max_tokens),
    {
        let ghost hs = hit_views(hits@);
        let mut kept: Vec<RecallHit> = hits;
        match max_tokens {
            Some(max) => {
                let mut used: u128 = 0;
                let mut i: usize = 0;
                let n: usize = kept.len();
                while i < n
                    invariant_except_break
                        i <= n,
                    invariant
                        i <= n,
                        n == kept@.len(),
                        n == hs.len(),
                        hs == hit_views(kept@),
                        used == text_length(hs, i as nat),
                        fits(hs, i as nat, max as nat),
                        used <= max as int + usize::MAX,
                    ensures
                        i < n ==> !fits(hs, (i + 1) as nat, max as nat),
                    decreases n - i,
                {
                    let cost: u128 = kept[i].unit.text.as_str().unicode_len() as u128;
                    proof {
                        assert(hs[i as int].unit.text.len() == cost);
                        assert(i == 0 ==> used == 0);
                    }
                    if used + cost > max as u128 && i > 0 {
                        break;
                    }
                    used = used + cost;
                    i = i + 1;
                }
                proof {
                    lemma_fitting_is(hs, i as nat, n as nat, max as nat);
                }
                kept.truncate(i);
                proof {
                    assert(hit_views(kept@) =~= hs.take(i as int));
                }
            },
            None => {},
        }
        RecallResponse { results: kept }
    }

    /// The graph arm over one link: each neighbour of a seed receives the
    /// seed's score times the link's weight. `links` holds the neighbours of
    /// each seed, in billionths. Gives at most `limit` units, best first.
    pub fn one_hop(
        &self,
        seeds: &Vec<(String, i64)>,
        links: &Vec<Vec<(String, i64)>>,
        limit: usize,
    ) -> (r: Vec<(String, i64)>)
        requires
            links@.len() == seeds@.len(),
        ensures
            scored_views(r@) == at_most(
                best_first(passed(scored_views(seeds@), scored_lists(links@), seeds@.len())),
                limit as nat,
            ),
    {
        let mut t: Tally = Tally::new();
        let ghost sv = scored_views(seeds@);
        let ghost lv = scored_lists(links@);
        for i in 0..seeds.len()
            invariant
                sv == scored_views(seeds@),
                lv == scored_lists(links@),
                links@.len() == seeds@.len(),
                t@ == passed(sv, lv, i as nat),
        {
            let score: i64 = seeds[i].1;
            let nbs: &Vec<(String, i64)> = &links[i];
            let ghost base = t@;
            let ghost nv = scored_views(nbs@);
            proof {
                assert(lv[i as int] == nv);
                assert(sv[i as int].1 == score);
            }
            for j in 0..nbs.len()
                invariant
                    nv == scored_views(nbs@),
                    t@ == passed_one(base, score, nv, j as nat),
            {
                proof {
                    assert(nv[j as int] == (nbs@[j as int].0@, nbs@[j as int].1));
                }
                t.increase(nbs[j].0.as_str(), mul_fixed(score, nbs[j].1));
            }
        }
        let mut r: Vec<(String, i64)> = t.ranked();
        let ghost all = scored_views(r@);
        r.truncate(limit);
        proof {
            assert(scored_views(r@) =~= at_most(all, limit as nat));
        }
        r
    }

    /// The seeds of the graph arm: the most similar units with their scores,
    /// at most twenty.
    pub fn graph_seeds(&self, units: &Vec<MemoryUnit>, scores: &Vec<i64>) -> (r: Vec<(String, i64)>)
        requires
            scores@.len() == units@.len(),
        ensures
            r@.len() == if units@.len() < 20 {
                units@.len()
            } else {
                20
            },
            forall|i: int|
                0 <= i < r@.len() ==> (#[trigger] r@[i]).0@ == units@[i]@.id && r@[i].1 == scores@[i],
    {
        let mut out: Vec<(String, i64)> = Vec::new();
        let n: usize = if units.len() < GRAPH_SEEDS {
            units.len()
        } else {
            GRAPH_SEEDS
        };
        for i in 0..n
            invariant
                n <= units@.len(),
                scores@.len() == units@.len(),
                out@.len() == i,
                forall|k: int|
                    0 <= k < i ==> (#[trigger] out@[k]).0@ == units@[k]@.id && out@[k].1
                        == scores@[k],
        {
            out.push((units[i].id.clone(), scores[i]));
        }
        out
    }
}

/// What the first `n` neighbours of a seed with a score add to a unit.
pub open spec fn given_by(score: i64, nbs: Seq<(Seq<char>, i64)>, n: nat, id: Seq<char>) -> int
    decreases n,
{
    if n == 0 {
        0
    } else {
        given_by(score, nbs, (n - 1) as nat, id) + (if nbs[n - 1].0 == id {
            mul_fixed_of(score, nbs[n - 1].1) as int
        } else {
            0
        })
    }
}

/// The score of a unit; zero where it has none.
pub open spec fn score_of(s: Seq<(Seq<char>, i64)>, id: Seq<char>) -> int {
    if has_score(s, id) {
        s[score_index(s, id)].1 as int
    } else {
        0
    }
}

/// A seed passes its score on over each of its links, weighed by the link,
/// and a unit gets the sum of what all its links give.
pub proof fn law_links_pass_the_score_on(
    s: Seq<(Seq<char>, i64)>,
    score: i64,
    nbs: Seq<(Seq<char>, i64)>,
    n: nat,
    id: Seq<char>,
)
    requires
        ids_unique(s),
        n <= nbs.len(),
        forall|k: nat|
            k <= n ==> i64::MIN <= score_of(s, id) + #[trigger] given_by(score, nbs, k, id)
                <= i64::MAX,
    ensures
        ids_unique(passed_one(s, score, nbs, n)),
        score_of(passed_one(s, score, nbs, n), id) == score_of(s, id) + given_by(score, nbs, n, id),
        (exists|k: int| 0 <= k < n && (#[trigger] nbs[k]).0 == id) ==> has_score(
            passed_one(s, score, nbs, n),
            id,
        ),
    decreases n,
{
    if n > 0 {
        law_links_pass_the_score_on(s, score, nbs, (n - 1) as nat, id);
        let b = passed_one(s, score, nbs, (n - 1) as nat);
        let x = mul_fixed_of(score, nbs[n - 1].1);
        law_adding_to_a_score(b, nbs[n - 1].0, x, id);
        assert(i64::MIN <= score_of(s, id) + given_by(score, nbs, n, id) <= i64::MAX);
    }
}

} // verus!
