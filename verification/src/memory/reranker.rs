//! A heuristic reranker: a weighted sum of the normalised fusion score, the
//! recency of a unit and its closeness in time to the question.
//!
//! ```text
//!   combined = w_rrf · normal(score) + w_rec · recency + w_tmp · closeness
//! ```
use crate::ambient::Timestamp;
use crate::fixed::ONE;
use crate::memory::fusion::{
    law_normal_keeps_order, law_normal_range, normal, normalize_on_delta, SCORE_ONE,
};
use crate::memory::model::Unit;
use crate::memory::recall::{hit_views, hits_wf, sort_hits, sorted_hits, Hit, RecallHit};
use vstd::arithmetic::div_mod::lemma_div_is_ordered;
use vstd::arithmetic::mul::{lemma_mul_inequality, lemma_mul_is_commutative};
use vstd::prelude::*;

verus! {

#[derive(Debug, Clone, Copy)]
pub struct RerankerConfig {
    /// Weights, in billionths.
    pub w_rrf: u64,
    pub w_rec: u64,
    pub w_tmp: u64,
    /// Seconds after which recency has decayed by a factor of e.
    pub recency_halflife_sec: u64,
    /// Seconds after which closeness in time has decayed by a factor of e.
    pub temporal_halflife_sec: u64,
}

/// The default configuration: thirty days of recency, seven days of
/// closeness.
pub open spec fn default_reranker_config() -> RerankerConfig {
    RerankerConfig {
        w_rrf: 550_000_000,
        w_rec: 200_000_000,
        w_tmp: 250_000_000,
        recency_halflife_sec: 2_592_000,
        temporal_halflife_sec: 604_800,
    }
}

impl Default for RerankerConfig {
    fn default() -> (r: RerankerConfig)
        ensures
            r == default_reranker_config(),
    {
        RerankerConfig {
            w_rrf: 550_000_000,
            w_rec: 200_000_000,
            w_tmp: 250_000_000,
            recency_halflife_sec: 2_592_000,
            temporal_halflife_sec: 604_800,
        }
    }
}

/// The default weights sum to one.
pub proof fn law_default_weights_sum_to_one()
    ensures
        default_reranker_config().w_rrf + default_reranker_config().w_rec
            + default_reranker_config().w_tmp == ONE,
{
}

/// The most specific time of a unit: when it began, else its event date,
/// else when it was mentioned.
pub open spec fn specific_time(u: Unit) -> Timestamp {
    match u.occurred_start {
        Some(t) => t,
        None => match u.event_date {
            Some(t) => t,
            None => u.mentioned_at,
        },
    }
}

/// The whole seconds from `a` to `b`; zero where `b` is not later.
pub open spec fn seconds_since(a: Timestamp, b: Timestamp) -> int {
    let d = b.secs - a.secs - (if b.nanos < a.nanos {
        1int
    } else {
        0int
    });
    if d > 0 {
        d
    } else {
        0
    }
}

/// The whole seconds between two points in time.
pub open spec fn seconds_between(a: Timestamp, b: Timestamp) -> int {
    if seconds_since(a, b) > 0 {
        seconds_since(a, b)
    } else {
        seconds_since(b, a)
    }
}

fn elapsed(a: Timestamp, b: Timestamp) -> (r: u64)
    requires
        a.wf(),
        b.wf(),
    ensures
        r == seconds_since(a, b),
{
    let mut d: i64 = b.secs - a.secs;
    if b.nanos < a.nanos {
        d = d - 1;
    }
    if d > 0 {
        d as u64
    } else {
        0
    }
}

/// The combined score, held within the range of its type.
pub open spec fn blended(cfg: RerankerConfig, rrf: int, recency: u64, closeness: u64) -> int {
    let b = (cfg.w_rrf * rrf + cfg.w_rec * recency + cfg.w_tmp * closeness) / (ONE as int);
    if b > i64::MAX {
        i64::MAX as int
    } else {
        b
    }
}

/// The scores of some hits.
pub open spec fn hit_scores(hs: Seq<Hit>) -> Seq<u64> {
    hs.map_values(|h: Hit| h.score)
}

/// The hits with their combined scores.
pub open spec fn rescored(
    cfg: RerankerConfig,
    hs: Seq<Hit>,
    recency: Seq<u64>,
    closeness: Seq<u64>,
) -> Seq<Hit> {
    Seq::new(
        hs.len(),
        |i: int|
            Hit {
                score: blended(
                    cfg,
                    normal(hit_scores(hs), hs[i].score),
                    recency[i],
                    closeness[i],
                ) as u64,
                ..hs[i]
            },
    )
}

/// A hit that is no worse in rank, age and closeness is blended to no lower a
/// score.
pub proof fn law_blend_is_monotone(
    cfg: RerankerConfig,
    a: (int, u64, u64),
    b: (int, u64, u64),
)
    requires
        a.0 <= b.0,
        a.1 <= b.1,
        a.2 <= b.2,
    ensures
        blended(cfg, a.0, a.1, a.2) <= blended(cfg, b.0, b.1, b.2),
{
    lemma_mul_inequality(a.0, b.0, cfg.w_rrf as int);
    lemma_mul_inequality(a.1 as int, b.1 as int, cfg.w_rec as int);
    lemma_mul_inequality(a.2 as int, b.2 as int, cfg.w_tmp as int);
    lemma_mul_is_commutative(cfg.w_rrf as int, a.0);
    lemma_mul_is_commutative(cfg.w_rrf as int, b.0);
    lemma_mul_is_commutative(cfg.w_rec as int, a.1 as int);
    lemma_mul_is_commutative(cfg.w_rec as int, b.1 as int);
    lemma_mul_is_commutative(cfg.w_tmp as int, a.2 as int);
    lemma_mul_is_commutative(cfg.w_tmp as int, b.2 as int);
    lemma_div_is_ordered(
        cfg.w_rrf * a.0 + cfg.w_rec * a.1 + cfg.w_tmp * a.2,
        cfg.w_rrf * b.0 + cfg.w_rec * b.1 + cfg.w_tmp * b.2,
        ONE as int,
    );
}

#[derive(Debug, Clone, Copy)]
pub struct HeuristicReranker {
    pub cfg: RerankerConfig,
}

impl Default for HeuristicReranker {
    fn default() -> (r: HeuristicReranker)
        ensures
            r.cfg == default_reranker_config(),
    {
        HeuristicReranker::new()
    }
}

impl HeuristicReranker {
    pub fn new() -> (r: HeuristicReranker)
        ensures
            r.cfg == default_reranker_config(),
    {
        HeuristicReranker { cfg: RerankerConfig::default() }
    }

    pub fn with_config(cfg: RerankerConfig) -> (r: HeuristicReranker)
        ensures
            r.cfg == cfg,
    {
        HeuristicReranker { cfg }
    }

    pub fn config(&self) -> (r: &RerankerConfig)
        ensures
            *r == self.cfg,
    {
        &self.cfg
    }

    /// How many seconds ago each hit took place.
    pub fn ages(&self, hits: &Vec<RecallHit>, now: Timestamp) -> (r: Vec<u64>)
        requires
            now.wf(),
            forall|i: int|
                0 <= i < hits@.len() ==> specific_time((#[trigger] hits@[i])@.unit).wf(),
        ensures
            r@.len() == hits@.len(),
            forall|i: int|
                0 <= i < hits@.len() ==> #[trigger] r@[i] == seconds_since(
                    specific_time(hits@[i]@.unit),
                    now,
                ),
    {
        let mut out: Vec<u64> = Vec::new();
        for i in 0..hits.len()
            invariant
                now.wf(),
                out@.len() == i,
                forall|i: int|
                    0 <= i < hits@.len() ==> specific_time((#[trigger] hits@[i])@.unit).wf(),
                forall|k: int|
                    0 <= k < i ==> #[trigger] out@[k] == seconds_since(
                        specific_time(hits@[k]@.unit),
                        now,
                    ),
        {
            let t: Timestamp = hits[i].specific_time();
            proof {
                assert(specific_time(hits@[i as int]@.unit).wf());
            }
            out.push(elapsed(t, now));
        }
        out
    }

    /// How many seconds each hit lies from the question's date.
    pub fn gaps(&self, hits: &Vec<RecallHit>, question_date: Timestamp) -> (r: Vec<u64>)
        requires
            question_date.wf(),
            forall|i: int|
                0 <= i < hits@.len() ==> specific_time((#[trigger] hits@[i])@.unit).wf(),
        ensures
            r@.len() == hits@.len(),
            forall|i: int|
                0 <= i < hits@.len() ==> #[trigger] r@[i] == seconds_between(
                    specific_time(hits@[i]@.unit),
                    question_date,
                ),
    {
        let mut out: Vec<u64> = Vec::new();
        for i in 0..hits.len()
            invariant
                question_date.wf(),
                out@.len() == i,
                forall|i: int|
                    0 <= i < hits@.len() ==> specific_time((#[trigger] hits@[i])@.unit).wf(),
                forall|k: int|
                    0 <= k < i ==> #[trigger] out@[k] == seconds_between(
                        specific_time(hits@[k]@.unit),
                        question_date,
                    ),
        {
            let t: Timestamp = hits[i].specific_time();
            proof {
                assert(specific_time(hits@[i as int]@.unit).wf());
            }
            let a: u64 = elapsed(t, question_date);
            let b: u64 = elapsed(question_date, t);
            out.push(
                if a > 0 {
                    a
                } else {
                    b
                },
            );
        }
        out
    }

    /// The closeness of `n` hits to a question without a date: one half.
    pub fn undated(&self, n: usize) -> (r: Vec<u64>)
        ensures
            r@ == Seq::new(n as nat, |i: int| (SCORE_ONE / 2) as u64),
    {
        let mut out: Vec<u64> = Vec::new();
        for i in 0..n
            invariant
                out@ == Seq::new(i as nat, |k: int| (SCORE_ONE / 2) as u64),
        {
            out.push(SCORE_ONE / 2);
            proof {
                assert(out@ =~= Seq::new((i + 1) as nat, |k: int| (SCORE_ONE / 2) as u64));
            }
        }
        out
    }

    /// Scores and sorts hits anew. `recency` and `closeness` say how far each
    /// hit's factor has decayed, in units of the score.
    pub fn rerank(
        &self,
        hits: Vec<RecallHit>,
        recency: &Vec<u64>,
        closeness: &Vec<u64>,
    ) -> (r: Vec<RecallHit>)
        requires
            recency@.len() == hits@.len(),
            closeness@.len() == hits@.len(),
            hits_wf(hits@),
        ensures
            hits_wf(r@),
            hit_views(r@) == sorted_hits(
                rescored(self.cfg, hit_views(hits@), recency@, closeness@),
            ),
    {
        let mut hs: Vec<RecallHit> = hits;
        let ghost hv = hit_views(hs@);
        let ghost scores = hit_scores(hv);
        let ghost goal = rescored(self.cfg, hv, recency@, closeness@);
        let n: usize = hs.len();
        let mut rrf: Vec<u64> = Vec::new();
        for i in 0..n
            invariant
                n == hs@.len(),
                hv == hit_views(hs@),
                scores == hit_scores(hv),
                rrf@ == scores.take(i as int),
        {
            rrf.push(hs[i].score);
            proof {
                assert(rrf@ =~= scores.take(i + 1));
            }
        }
        proof {
            assert(rrf@ =~= scores);
        }
        normalize_on_delta(&mut rrf);
        for i in 0..n
            invariant
                n == hs@.len(),
                n == hv.len(),
                n == rrf@.len(),
                n == recency@.len(),
                n == closeness@.len(),
                hits_wf(hs@),
                scores == hit_scores(hv),
                goal == rescored(self.cfg, hv, recency@, closeness@),
                forall|k: int| 0 <= k < n ==> #[trigger] rrf@[k] as int == normal(scores, scores[k]),
                forall|k: int| 0 <= k < n ==> #[trigger] rrf@[k] <= SCORE_ONE,
                forall|k: int| 0 <= k < i ==> (#[trigger] hs@[k])@ == goal[k],
                forall|k: int| i <= k < n ==> (#[trigger] hs@[k])@ == hv[k],
        {
            let b: u64 = blend(&self.cfg, rrf[i], recency[i], closeness[i]);
            let ghost before = hs@;
            hs[i].score = b;
            proof {
                assert(scores[i as int] == hv[i as int].score);
                assert(hs@[i as int]@ == goal[i as int]);
                assert forall|k: int| 0 <= k < n && k != i implies #[trigger] hs@[k] == before[k] by {
                }
            }
        }
        proof {
            assert(hit_views(hs@) =~= goal);
        }
        sort_hits(&hs)
    }
}

fn blend(cfg: &RerankerConfig, rrf: u64, recency: u64, closeness: u64) -> (r: u64)
    ensures
        r == blended(*cfg, rrf as int, recency, closeness),
{
    proof {
        let m = 0xffff_ffff_ffff_ffffint;
        assert(m * m == 0xffff_ffff_ffff_fffe_0000_0000_0000_0001int) by (nonlinear_arith)
            requires
                m == 0xffff_ffff_ffff_ffffint,
        ;
        assert(0 <= cfg.w_rrf * rrf <= m * m) by (nonlinear_arith)
            requires
                0 <= cfg.w_rrf <= m,
                0 <= rrf <= m,
        ;
        assert(0 <= cfg.w_rec * recency <= m * m) by (nonlinear_arith)
            requires
                0 <= cfg.w_rec <= m,
                0 <= recency <= m,
        ;
        assert(0 <= cfg.w_tmp * closeness <= m * m) by (nonlinear_arith)
            requires
                0 <= cfg.w_tmp <= m,
                0 <= closeness <= m,
        ;
    }
    let one: u128 = ONE as u128;
    let a: u128 = cfg.w_rrf as u128 * rrf as u128;
    let b: u128 = cfg.w_rec as u128 * recency as u128;
    let c: u128 = cfg.w_tmp as u128 * closeness as u128;
    let whole: u128 = a / one + b / one + c / one;
    let rest: u128 = a % one + b % one + c % one;
    proof {
        let d = 1_000_000_000int;
        let (x, y, z) = (a as int, b as int, c as int);
        let w = whole as int;
        let r = rest as int;
        assert((x + y + z) / d == w + r / d) by (nonlinear_arith)
            requires
                d == 1_000_000_000,
                w == x / d + y / d + z / d,
                r == x % d + y % d + z % d,
        {
            assert(x + y + z == d * w + r);
        }
    }
    let total: u128 = whole + rest / one;
    if total > i64::MAX as u128 {
        i64::MAX as u64
    } else {
        total as u64
    }
}

/// Each factor counts by its weight: where all are one, the blend is the sum
/// of the weights, and a factor that grows adds its growth times its weight,
/// up to rounding.
pub proof fn law_factors_count_by_weight(
    cfg: RerankerConfig,
    rrf: u64,
    recency: u64,
    closeness: u64,
    a: u64,
    b: u64,
    c: u64,
)
    requires
        a <= rrf <= SCORE_ONE,
        b <= recency <= SCORE_ONE,
        c <= closeness <= SCORE_ONE,
        cfg.w_rrf <= ONE,
        cfg.w_rec <= ONE,
        cfg.w_tmp <= ONE,
    ensures
        ({
            let x = blended(cfg, rrf as int, recency, closeness);
            let y = blended(cfg, a as int, b, c);
            let gain = cfg.w_rrf * (rrf - a) + cfg.w_rec * (recency - b) + cfg.w_tmp * (closeness
                - c);
            &&& 1_000_000_000 * (x - y - 1) <= gain <= 1_000_000_000 * (x - y + 1)
            &&& blended(cfg, 0, 0, 0) == 0
        }),
{
    let p = cfg.w_rrf as int;
    let q = cfg.w_rec as int;
    let r = cfg.w_tmp as int;
    lemma_share_gain(p, rrf as int, a as int);
    lemma_share_gain(q, recency as int, b as int);
    lemma_share_gain(r, closeness as int, c as int);
    assert(p * 0 == 0 && q * 0 == 0 && r * 0 == 0) by (nonlinear_arith);
}

proof fn lemma_share_gain(w: int, x: int, y: int)
    requires
        0 <= w <= 1_000_000_000,
        0 <= y <= x <= 1_000_000_000_000_000,
    ensures
        w * (x - y) == w * x - w * y,
        0 <= w * y <= w * x <= 1_000_000_000_000_000_000_000_000,
{
    assert(w * (x - y) == w * x - w * y && 0 <= w * y <= w * x
        <= 1_000_000_000_000_000_000_000_000) by (nonlinear_arith)
        requires
            0 <= w <= 1_000_000_000,
            0 <= y <= x <= 1_000_000_000_000_000,
    ;
}

/// The seconds since a point are those that passed after it, none where it
/// lies ahead; the later the point, the fewer. The seconds between two points
/// do not depend on their order.
pub proof fn law_seconds(a: Timestamp, b: Timestamp, now: Timestamp)
    requires
        a.secs < b.secs || (a.secs == b.secs && a.nanos <= b.nanos),
    ensures
        seconds_since(b, now) <= seconds_since(a, now),
        a.nanos == b.nanos ==> seconds_since(a, b) == b.secs - a.secs,
        a.nanos < 1_000_000_000 && b.nanos < 1_000_000_000 ==> seconds_since(b, a) == 0,
        seconds_between(a, b) == seconds_between(b, a),
        seconds_between(a, b) == seconds_since(a, b),
{
}

/// A unit is dated by when it began, else by its event, else by its mention.
pub proof fn law_most_specific_time(u: Unit)
    ensures
        u.occurred_start matches Some(t) ==> specific_time(u) == t,
        u.occurred_start is None ==> (u.event_date matches Some(t) ==> specific_time(u) == t),
        u.occurred_start is None && u.event_date is None ==> specific_time(u) == u.mentioned_at,
{
}

/// A hit whose fused score, recency and closeness are all at least those of
/// another is scored no lower, and scoring changes nothing else of a hit.
pub proof fn law_better_hit_stays_better(
    cfg: RerankerConfig,
    hs: Seq<Hit>,
    recency: Seq<u64>,
    closeness: Seq<u64>,
    i: int,
    j: int,
)
    requires
        0 <= i < hs.len(),
        0 <= j < hs.len(),
        hs[i].score <= hs[j].score,
        recency[i] <= recency[j],
        closeness[i] <= closeness[j],
    ensures
        rescored(cfg, hs, recency, closeness)[i].score <= rescored(
            cfg,
            hs,
            recency,
            closeness,
        )[j].score,
        rescored(cfg, hs, recency, closeness)[i].unit == hs[i].unit,
        rescored(cfg, hs, recency, closeness)[i].semantic_rank == hs[i].semantic_rank,
{
    let v = hit_scores(hs);
    assert(v[i] == hs[i].score && v[j] == hs[j].score);
    law_normal_keeps_order(v, i, j);
    law_normal_range(v, i);
    law_normal_range(v, j);
    let x = normal(v, hs[i].score);
    let y = normal(v, hs[j].score);
    law_blend_is_monotone(cfg, (x, recency[i], closeness[i]), (y, recency[j], closeness[j]));
    law_blend_is_monotone(cfg, (0, 0, 0), (x, recency[i], closeness[i]));
    law_blend_is_monotone(cfg, (0, 0, 0), (y, recency[j], closeness[j]));
    let (p, q, r) = (cfg.w_rrf as int, cfg.w_rec as int, cfg.w_tmp as int);
    assert(p * 0 == 0 && q * 0 == 0 && r * 0 == 0) by (nonlinear_arith);
}

} // verus!
