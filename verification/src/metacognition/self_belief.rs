//! Outcome monitoring: a belief over named competence dimensions.
//!
//! Each dimension is a `Beta(α, β)` distribution. Successes raise α, failures
//! raise β, a mixed observation splits its weight between the two. All
//! quantities are fixed-point numbers, in billionths.
use crate::fixed::{add_capped, capped_add, is_isqrt, isqrt, isqrt_of, HALF, ONE};
use crate::text::{owned, same};
use vstd::arithmetic::div_mod::lemma_div_is_ordered;
use vstd::prelude::*;

verus! {

/// One `Beta(α, β)` distribution over a competence dimension.
#[derive(Debug, Clone, Copy, PartialEq, Eq, Structural)]
pub struct BetaParam {
    pub alpha: u64,
    pub beta: u64,
}

/// `α / (α + β)` in billionths, rounded down; one half when both are zero.
pub open spec fn beta_mean(p: BetaParam) -> nat {
    let s = p.alpha + p.beta;
    if s > 0 {
        ((p.alpha * ONE) / s) as nat
    } else {
        HALF as nat
    }
}

/// `mean · (1 − mean) / (α + β + 1)`, which is `αβ / ((α+β)²(α+β+1))`, in
/// units of one billionth squared.
pub open spec fn beta_variance(p: BetaParam) -> nat {
    let s = p.alpha + p.beta;
    let m = beta_mean(p);
    if s > 0 {
        ((m * (ONE - m) * ONE) / (s + ONE)) as nat
    } else {
        0
    }
}

/// The square root of the variance, in billionths, rounded down.
pub open spec fn beta_stddev(p: BetaParam) -> nat {
    isqrt_of(beta_variance(p) as int) as nat
}

/// The mean lies between zero and one.
pub proof fn lemma_mean_range(p: BetaParam)
    ensures
        beta_mean(p) <= ONE,
{
    let s = p.alpha + p.beta;
    if s > 0 {
        assert((p.alpha * ONE) / s <= ONE) by (nonlinear_arith)
            requires
                s > 0,
                p.alpha <= s,
        ;
    }
}

/// The variance is at most one quarter.
pub proof fn lemma_variance_range(p: BetaParam)
    ensures
        beta_variance(p) <= 250_000_000_000_000_000,
{
    lemma_mean_range(p);
    let s = p.alpha + p.beta;
    let m = beta_mean(p) as int;
    let one = ONE as int;
    if s > 0 {
        assert(m * (one - m) <= 250_000_000_000_000_000) by (nonlinear_arith)
            requires
                one == 1_000_000_000,
        {
            assert((2 * m - one) * (2 * m - one) >= 0);
        }
        assert(m * (one - m) >= 0) by (nonlinear_arith)
            requires
                0 <= m <= one,
        ;
        let v = m * (one - m);
        assert((v * one) / (s + one) <= v) by (nonlinear_arith)
            requires
                v >= 0,
                s > 0,
                one == 1_000_000_000,
        {
            assert(v * one <= v * (s + one));
        }
    }
}

/// Raising α never lowers the mean, and the exact fraction rises strictly
/// while β is positive.
pub proof fn law_success_raises_mean(p: BetaParam, q: BetaParam)
    requires
        q.beta == p.beta,
        q.alpha >= p.alpha,
        p.alpha + p.beta > 0,
    ensures
        beta_mean(q) >= beta_mean(p),
        p.beta > 0 && q.alpha > p.alpha ==> q.alpha * (p.alpha + p.beta) > p.alpha * (q.alpha
            + q.beta),
{
    let a = p.alpha as int;
    let c = q.alpha as int;
    let b = p.beta as int;
    let one = ONE as int;
    assert((c * one) / (c + b) >= (a * one) / (a + b)) by (nonlinear_arith)
        requires
            0 <= a <= c,
            b >= 0,
            a + b > 0,
            one == 1_000_000_000,
    {
        let x = (a * one) / (a + b);
        assert(x * (a + b) <= a * one);
        assert(x <= one);
        assert(x * (c + b) <= c * one) by {
            assert(x * (c - a) <= one * (c - a));
        }
    }
    if b > 0 && c > a {
        assert(c * (a + b) > a * (c + b)) by (nonlinear_arith)
            requires
                b > 0,
                c > a,
        ;
    }
}

/// Raising β never raises the mean, and the exact fraction falls strictly
/// while α is positive.
pub proof fn law_failure_lowers_mean(p: BetaParam, q: BetaParam)
    requires
        q.alpha == p.alpha,
        q.beta >= p.beta,
        p.alpha + p.beta > 0,
    ensures
        beta_mean(q) <= beta_mean(p),
        p.alpha > 0 && q.beta > p.beta ==> q.alpha * (p.alpha + p.beta) < p.alpha * (q.alpha
            + q.beta),
{
    let a = p.alpha as int;
    let b = p.beta as int;
    let c = q.beta as int;
    let one = ONE as int;
    assert((a * one) / (a + c) <= (a * one) / (a + b)) by (nonlinear_arith)
        requires
            0 <= b <= c,
            a >= 0,
            a + b > 0,
            one == 1_000_000_000,
    ;
    if a > 0 && c > b {
        assert(a * (a + b) < a * (a + c)) by (nonlinear_arith)
            requires
                a > 0,
                c > b,
        ;
    }
}

/// The uniform prior.
pub open spec fn uniform_prior() -> BetaParam {
    BetaParam { alpha: ONE, beta: ONE }
}

/// The uniform prior has mean one half.
pub proof fn lemma_uniform_mean()
    ensures
        beta_mean(uniform_prior()) == HALF,
{
    let p = uniform_prior();
    assert(p.alpha * ONE == 1_000_000_000_000_000_000) by (nonlinear_arith)
        requires
            p.alpha == 1_000_000_000,
            ONE == 1_000_000_000,
    ;
    assert(1_000_000_000_000_000_000int / 2_000_000_000int == 500_000_000);
}

impl Default for BetaParam {
    /// The uniform prior `α = β = 1`.
    fn default() -> (r: BetaParam)
        ensures
            r == uniform_prior(),
    {
        BetaParam { alpha: ONE, beta: ONE }
    }
}

impl BetaParam {
    pub fn new(alpha: u64, beta: u64) -> (r: BetaParam)
        ensures
            r == (BetaParam { alpha, beta }),
    {
        BetaParam { alpha, beta }
    }

    /// `mean = α / (α + β)`; one half if both parameters are zero.
    pub fn mean(&self) -> (r: u64)
        ensures
            r == beta_mean(*self),
            r <= ONE,
    {
        proof {
            lemma_mean_range(*self);
        }
        let s: u128 = self.alpha as u128 + self.beta as u128;
        if s > 0 {
            ((self.alpha as u128 * ONE as u128) / s) as u64
        } else {
            HALF
        }
    }

    /// `variance = αβ / ((α+β)²·(α+β+1))`, in billionths squared.
    pub fn variance(&self) -> (r: u64)
        ensures
            r == beta_variance(*self),
            r <= 250_000_000_000_000_000,
    {
        proof {
            lemma_variance_range(*self);
        }
        let s: u128 = self.alpha as u128 + self.beta as u128;
        if s == 0 {
            return 0;
        }
        let m: u64 = self.mean();
        proof {
            assert(m * (ONE - m) <= 1_000_000_000 * 1_000_000_000) by (nonlinear_arith)
                requires
                    0 <= m <= ONE,
                    ONE == 1_000_000_000,
            ;
        }
        let spread: u128 = (m as u128) * ((ONE - m) as u128);
        ((spread * ONE as u128) / (s + ONE as u128)) as u64
    }

    /// `stddev = sqrt(variance)`.
    pub fn stddev(&self) -> (r: u64)
        ensures
            r == beta_stddev(*self),
            r <= HALF,
    {
        let v: u64 = self.variance();
        let r: u64 = isqrt(v);
        proof {
            let x = r as int;
            assert(x <= 500_000_000) by (nonlinear_arith)
                requires
                    x * x <= 250_000_000_000_000_000,
                    x >= 0,
            ;
        }
        r
    }
}

/// A named dimension with its distribution.
#[derive(Debug, Clone)]
pub struct Dimension {
    pub name: String,
    pub param: BetaParam,
}

/// Belief state over an ordered set of named competence dimensions, in the
/// order in which they were added.
#[derive(Debug, Clone)]
pub struct SelfBelief {
    pub dims: Vec<Dimension>,
}

/// The dimensions of a belief: names with their distributions, in order.
pub open spec fn dims_view(s: Seq<Dimension>) -> Seq<(Seq<char>, BetaParam)> {
    s.map_values(|d: Dimension| (d.name@, d.param))
}

impl View for SelfBelief {
    type V = Seq<(Seq<char>, BetaParam)>;

    open spec fn view(&self) -> Seq<(Seq<char>, BetaParam)> {
        dims_view(self.dims@)
    }
}

/// The position of a dimension, or the length when there is none.
pub open spec fn dim_index(b: Seq<(Seq<char>, BetaParam)>, name: Seq<char>) -> int
    decreases b.len(),
{
    if b.len() == 0 {
        0
    } else if b[0].0 == name {
        0
    } else {
        1 + dim_index(b.skip(1), name)
    }
}

/// Whether a dimension is known.
pub open spec fn has_dim(b: Seq<(Seq<char>, BetaParam)>, name: Seq<char>) -> bool {
    exists|i: int| 0 <= i < b.len() && (#[trigger] b[i]).0 == name
}

/// The distribution of a dimension; the uniform prior when it is unknown.
pub open spec fn dim_param(b: Seq<(Seq<char>, BetaParam)>, name: Seq<char>) -> BetaParam {
    if has_dim(b, name) {
        b[dim_index(b, name)].1
    } else {
        uniform_prior()
    }
}

/// No two dimensions share a name.
pub open spec fn dims_distinct(b: Seq<(Seq<char>, BetaParam)>) -> bool {
    forall|i: int, j: int|
        0 <= i < j < b.len() ==> (#[trigger] b[i]).0 != (#[trigger] b[j]).0
}

/// A belief with one dimension's distribution replaced; unchanged when the
/// dimension is unknown.
pub open spec fn with_param(b: Seq<(Seq<char>, BetaParam)>, name: Seq<char>, p: BetaParam) -> Seq<
    (Seq<char>, BetaParam),
> {
    if has_dim(b, name) {
        b.update(dim_index(b, name), (name, p))
    } else {
        b
    }
}

/// A belief after a clean success of the given weight.
pub open spec fn after_success(b: Seq<(Seq<char>, BetaParam)>, name: Seq<char>, w: u64) -> Seq<
    (Seq<char>, BetaParam),
> {
    let p = dim_param(b, name);
    with_param(b, name, BetaParam { alpha: capped_add(p.alpha, w), beta: p.beta })
}

/// A belief after a clean failure of the given weight.
pub open spec fn after_failure(b: Seq<(Seq<char>, BetaParam)>, name: Seq<char>, w: u64) -> Seq<
    (Seq<char>, BetaParam),
> {
    let p = dim_param(b, name);
    with_param(b, name, BetaParam { alpha: p.alpha, beta: capped_add(p.beta, w) })
}

/// The smaller of a probability and one.
pub open spec fn clamp_one(p: u64) -> u64 {
    if p > ONE {
        ONE
    } else {
        p
    }
}

/// A belief after a mixed observation: the weight is split in the
/// proportion `p`, held to at most one.
pub open spec fn after_mixed(b: Seq<(Seq<char>, BetaParam)>, name: Seq<char>, p: u64, w: u64) -> Seq<
    (Seq<char>, BetaParam),
> {
    let q = dim_param(b, name);
    let c = clamp_one(p);
    let up = (w * c) / (ONE as int);
    let down = (w * (ONE - c)) / (ONE as int);
    with_param(
        b,
        name,
        BetaParam { alpha: capped_add(q.alpha, up as u64), beta: capped_add(q.beta, down as u64) },
    )
}

/// The sum of the means of all dimensions.
pub open spec fn sum_means(b: Seq<(Seq<char>, BetaParam)>) -> nat
    decreases b.len(),
{
    if b.len() == 0 {
        0
    } else {
        sum_means(b.drop_last()) + beta_mean(b.last().1)
    }
}

/// The sum of the standard deviations of all dimensions.
pub open spec fn sum_stddevs(b: Seq<(Seq<char>, BetaParam)>) -> nat
    decreases b.len(),
{
    if b.len() == 0 {
        0
    } else {
        sum_stddevs(b.drop_last()) + beta_stddev(b.last().1)
    }
}

/// The average of the dimension means; one half when there are none.
pub open spec fn competence(b: Seq<(Seq<char>, BetaParam)>) -> nat {
    if b.len() == 0 {
        HALF as nat
    } else {
        sum_means(b) / b.len()
    }
}

/// The average of the dimension standard deviations; zero when there are
/// none.
pub open spec fn uncertainty(b: Seq<(Seq<char>, BetaParam)>) -> nat {
    if b.len() == 0 {
        0
    } else {
        sum_stddevs(b) / b.len()
    }
}

/// The first dimension of a name has an index with nothing of that name
/// before it.
pub proof fn lemma_dim_index(b: Seq<(Seq<char>, BetaParam)>, name: Seq<char>)
    ensures
        0 <= dim_index(b, name) <= b.len(),
        has_dim(b, name) <==> dim_index(b, name) < b.len(),
        dim_index(b, name) < b.len() ==> b[dim_index(b, name)].0 == name,
        forall|i: int| 0 <= i < dim_index(b, name) ==> (#[trigger] b[i]).0 != name,
    decreases b.len(),
{
    if b.len() > 0 && b[0].0 != name {
        let t = b.skip(1);
        lemma_dim_index(t, name);
        assert forall|i: int| 0 <= i < dim_index(b, name) implies (#[trigger] b[i]).0 != name by {
            if i > 0 {
                assert(b[i] == t[i - 1]);
            }
        }
        if has_dim(b, name) {
            let i = choose|i: int| 0 <= i < b.len() && (#[trigger] b[i]).0 == name;
            assert(t[i - 1] == b[i]);
            assert(has_dim(t, name));
        }
    }
}

/// An index whose predecessors all have another name is the dimension's
/// index.
pub proof fn lemma_dim_index_is(b: Seq<(Seq<char>, BetaParam)>, name: Seq<char>, k: int)
    requires
        0 <= k <= b.len(),
        k < b.len() ==> b[k].0 == name,
        forall|i: int| 0 <= i < k ==> (#[trigger] b[i]).0 != name,
    ensures
        dim_index(b, name) == k,
        has_dim(b, name) == (k < b.len()),
{
    lemma_dim_index(b, name);
    let d = dim_index(b, name);
    if d < k {
        assert(b[d].0 != name);
    } else if k < d {
        assert(b[k].0 != name);
    }
}

/// The averages are bounded as their summands are.
pub proof fn lemma_sums_bounded(b: Seq<(Seq<char>, BetaParam)>)
    ensures
        sum_means(b) <= b.len() * ONE,
        sum_stddevs(b) <= b.len() * HALF,
    decreases b.len(),
{
    if b.len() > 0 {
        lemma_sums_bounded(b.drop_last());
        lemma_mean_range(b.last().1);
        lemma_stddev_range(b.last().1);
        let n = b.len() as int;
        assert((n - 1) * ONE + ONE == n * ONE) by (nonlinear_arith);
        assert((n - 1) * HALF + HALF == n * HALF) by (nonlinear_arith);
    }
}

/// The standard deviation is at most one half.
pub proof fn lemma_stddev_range(p: BetaParam)
    ensures
        beta_stddev(p) <= HALF,
{
    lemma_variance_range(p);
    lemma_isqrt_exists(beta_variance(p) as int, 500_000_000);
    let r = isqrt_of(beta_variance(p) as int);
    assert(r <= 500_000_000) by (nonlinear_arith)
        requires
            r * r <= 250_000_000_000_000_000,
            r >= 0,
    ;
}

proof fn lemma_sum_update(b: Seq<(Seq<char>, BetaParam)>, i: int, x: (Seq<char>, BetaParam))
    requires
        0 <= i < b.len(),
    ensures
        sum_means(b.update(i, x)) + beta_mean(b[i].1) == sum_means(b) + beta_mean(x.1),
    decreases b.len(),
{
    let u = b.update(i, x);
    if i == b.len() - 1 {
        assert(u.drop_last() =~= b.drop_last());
    } else {
        assert(u.drop_last() =~= b.drop_last().update(i, x));
        assert(u.last() == b.last());
        lemma_sum_update(b.drop_last(), i, x);
    }
}

proof fn lemma_mean_moves(p: BetaParam, w: u64)
    ensures
        beta_mean(BetaParam { alpha: capped_add(p.alpha, w), beta: p.beta }) >= beta_mean(p),
        beta_mean(BetaParam { alpha: p.alpha, beta: capped_add(p.beta, w) }) <= beta_mean(p),
{
    let up = BetaParam { alpha: capped_add(p.alpha, w), beta: p.beta };
    let down = BetaParam { alpha: p.alpha, beta: capped_add(p.beta, w) };
    if p.alpha + p.beta > 0 {
        law_success_raises_mean(p, up);
        law_failure_lowers_mean(p, down);
    } else if w > 0 {
        assert(up.alpha == w && down.beta == w);
        assert((w * ONE) / (w as int) == ONE) by (nonlinear_arith)
            requires
                w > 0,
        ;
        assert((0 * ONE) / (w as int) == 0) by (nonlinear_arith)
            requires
                w > 0,
        ;
    }
}

/// A success never lowers the overall competence, and a failure never raises
/// it.
pub proof fn law_observations_move_competence(
    b: Seq<(Seq<char>, BetaParam)>,
    name: Seq<char>,
    w: u64,
)
    ensures
        competence(after_success(b, name, w)) >= competence(b),
        competence(after_failure(b, name, w)) <= competence(b),
{
    if has_dim(b, name) {
        lemma_dim_index(b, name);
        let i = dim_index(b, name);
        let p = b[i].1;
        let up = BetaParam { alpha: capped_add(p.alpha, w), beta: p.beta };
        let down = BetaParam { alpha: p.alpha, beta: capped_add(p.beta, w) };
        lemma_mean_moves(p, w);
        lemma_sum_update(b, i, (name, up));
        lemma_sum_update(b, i, (name, down));
        lemma_div_is_ordered(
            sum_means(b) as int,
            sum_means(after_success(b, name, w)) as int,
            b.len() as int,
        );
        lemma_div_is_ordered(
            sum_means(after_failure(b, name, w)) as int,
            sum_means(b) as int,
            b.len() as int,
        );
    }
}

/// An observation touches no other dimension.
pub proof fn law_observations_are_local(
    b: Seq<(Seq<char>, BetaParam)>,
    name: Seq<char>,
    other: Seq<char>,
    w: u64,
)
    requires
        other != name,
    ensures
        dim_param(after_success(b, name, w), other) == dim_param(b, other),
        dim_param(after_failure(b, name, w), other) == dim_param(b, other),
        has_dim(after_success(b, name, w), other) == has_dim(b, other),
        has_dim(after_failure(b, name, w), other) == has_dim(b, other),
{
    if has_dim(b, name) {
        let p = dim_param(b, name);
        lemma_dim_index(b, name);
        lemma_dim_index(b, other);
        let k = dim_index(b, other);
        let up = after_success(b, name, w);
        let down = after_failure(b, name, w);
        assert forall|i: int| 0 <= i < k implies (#[trigger] up[i]).0 != other by {
            assert(b[i].0 != other);
        }
        assert forall|i: int| 0 <= i < k implies (#[trigger] down[i]).0 != other by {
            assert(b[i].0 != other);
        }
        lemma_dim_index_is(up, other, k);
        lemma_dim_index_is(down, other, k);
        assert(has_dim(b, other) == (k < b.len()));
    }
}

proof fn lemma_isqrt_exists(n: int, hi: int)
    requires
        0 <= n < (hi + 1) * (hi + 1),
        hi >= 0,
    ensures
        is_isqrt(n, isqrt_of(n)),
    decreases hi,
{
    if hi * hi <= n {
        assert(is_isqrt(n, hi));
    } else {
        if hi == 0 {
            assert(0 * 0 == 0);
        }
        assert((hi - 1 + 1) * (hi - 1 + 1) == hi * hi);
        lemma_isqrt_exists(n, hi - 1);
    }
}

impl SelfBelief {
    /// The invariant: names are distinct.
    pub open spec fn wf(&self) -> bool {
        dims_distinct(self@)
    }

    /// The default competence dimensions, each at the uniform prior:
    /// `tool_use`, `code_edit`, `search`, `reasoning`, `task_progress`.
    pub open spec fn initial() -> Seq<(Seq<char>, BetaParam)> {
        seq![
            ("tool_use"@, uniform_prior()),
            ("code_edit"@, uniform_prior()),
            ("search"@, uniform_prior()),
            ("reasoning"@, uniform_prior()),
            ("task_progress"@, uniform_prior()),
        ]
    }

    fn find(&self, name: &str) -> (r: usize)
        ensures
            r == dim_index(self@, name@),
            r < self.dims@.len() <==> has_dim(self@, name@),
            r <= self.dims@.len(),
            self@.len() == self.dims@.len(),
    {
        let mut i: usize = 0;
        while i < self.dims.len()
            invariant_except_break
                i <= self.dims@.len(),
            invariant
                self@.len() == self.dims@.len(),
                forall|j: int| 0 <= j < i ==> (#[trigger] self@[j]).0 != name@,
            ensures
                i <= self.dims@.len(),
                i < self.dims@.len() ==> self@[i as int].0 == name@,
            decreases self.dims@.len() - i,
        {
            if same(self.dims[i].name.as_str(), name) {
                break;
            }
            i = i + 1;
        }
        proof {
            lemma_dim_index_is(self@, name@, i as int);
        }
        i
    }

    fn store(&mut self, i: usize, p: BetaParam)
        requires
            i < old(self).dims@.len(),
        ensures
            final(self)@ == old(self)@.update(i as int, (old(self)@[i as int].0, p)),
    {
        self.dims[i].param = p;
        proof {
            assert(self@ =~= old(self)@.update(i as int, (old(self)@[i as int].0, p)));
        }
    }

    /// Registers a new competence dimension. Nothing changes if one with the
    /// same name already exists.
    pub fn add_dimension(&mut self, name: &str, alpha: u64, beta: u64)
        requires
            old(self).wf(),
        ensures
            final(self).wf(),
            final(self)@ == if has_dim(old(self)@, name@) {
                old(self)@
            } else {
                old(self)@.push((name@, BetaParam { alpha, beta }))
            },
    {
        if self.has_dimension(name) {
            return;
        }
        self.dims.push(Dimension { name: owned(name), param: BetaParam { alpha, beta } });
        proof {
            assert(self@ =~= old(self)@.push((name@, BetaParam { alpha, beta })));
        }
    }

    pub fn has_dimension(&self, name: &str) -> (r: bool)
        ensures
            r == has_dim(self@, name@),
    {
        self.find(name) < self.dims.len()
    }

    /// The dimension names in the order in which they were added.
    pub fn dimensions(&self) -> (r: Vec<String>)
        ensures
            r@.len() == self@.len(),
            forall|i: int| 0 <= i < r@.len() ==> (#[trigger] r@[i])@ == self@[i].0,
    {
        let mut v: Vec<String> = Vec::new();
        for i in 0..self.dims.len()
            invariant
                v@.len() == i,
                self@.len() == self.dims@.len(),
                forall|j: int| 0 <= j < i ==> (#[trigger] v@[j])@ == self@[j].0,
        {
            v.push(self.dims[i].name.clone());
        }
        v
    }

    /// `α += weight` (clean success); an unknown dimension is left alone.
    pub fn observe_success(&mut self, dim: &str, weight: u64)
        requires
            old(self).wf(),
        ensures
            final(self).wf(),
            final(self)@ == after_success(old(self)@, dim@, weight),
    {
        let i: usize = self.find(dim);
        if i < self.dims.len() {
            proof {
                lemma_dim_index(self@, dim@);
            }
            let p: BetaParam = self.dims[i].param;
            self.store(i, BetaParam { alpha: add_capped(p.alpha, weight), beta: p.beta });
        }
    }

    /// `β += weight` (clean failure); an unknown dimension is left alone.
    pub fn observe_failure(&mut self, dim: &str, weight: u64)
        requires
            old(self).wf(),
        ensures
            final(self).wf(),
            final(self)@ == after_failure(old(self)@, dim@, weight),
    {
        let i: usize = self.find(dim);
        if i < self.dims.len() {
            proof {
                lemma_dim_index(self@, dim@);
            }
            let p: BetaParam = self.dims[i].param;
            self.store(i, BetaParam { alpha: p.alpha, beta: add_capped(p.beta, weight) });
        }
    }

    /// Mixed observation: `α += w·p`, `β += w·(1−p)`, with `p` held to at
    /// most one.
    pub fn observe_mixed(&mut self, dim: &str, p: u64, weight: u64)
        requires
            old(self).wf(),
        ensures
            final(self).wf(),
            final(self)@ == after_mixed(old(self)@, dim@, p, weight),
    {
        let c: u64 = if p > ONE {
            ONE
        } else {
            p
        };
        let i: usize = self.find(dim);
        if i < self.dims.len() {
            proof {
                lemma_dim_index(self@, dim@);
                let w = weight as int;
                let x = c as int;
                assert(0 <= (w * x) / 1_000_000_000 <= w) by (nonlinear_arith)
                    requires
                        0 <= x <= 1_000_000_000,
                        w >= 0,
                ;
                let y = 1_000_000_000 - x;
                assert(0 <= (w * y) / 1_000_000_000 <= w) by (nonlinear_arith)
                    requires
                        0 <= y <= 1_000_000_000,
                        w >= 0,
                ;
            }
            let up: u64 = ((weight as u128 * c as u128) / ONE as u128) as u64;
            let down: u64 = ((weight as u128 * (ONE - c) as u128) / ONE as u128) as u64;
            let q: BetaParam = self.dims[i].param;
            self.store(
                i,
                BetaParam { alpha: add_capped(q.alpha, up), beta: add_capped(q.beta, down) },
            );
        }
    }

    /// The distribution of a dimension; the uniform prior when unknown.
    pub fn get(&self, dim: &str) -> (r: BetaParam)
        ensures
            r == dim_param(self@, dim@),
    {
        let i: usize = self.find(dim);
        if i < self.dims.len() {
            self.dims[i].param
        } else {
            BetaParam { alpha: ONE, beta: ONE }
        }
    }

    /// Mean of the dimension; one half for an unknown dimension.
    pub fn mean(&self, dim: &str) -> (r: u64)
        ensures
            r == if has_dim(self@, dim@) {
                beta_mean(dim_param(self@, dim@))
            } else {
                HALF as nat
            },
            r == beta_mean(dim_param(self@, dim@)),
            r <= ONE,
    {
        let p: BetaParam = self.get(dim);
        proof {
            lemma_uniform_mean();
        }
        p.mean()
    }

    /// Standard deviation of the dimension; zero for an unknown dimension.
    pub fn stddev(&self, dim: &str) -> (r: u64)
        ensures
            r == if has_dim(self@, dim@) {
                beta_stddev(dim_param(self@, dim@))
            } else {
                0
            },
    {
        let i: usize = self.find(dim);
        if i < self.dims.len() {
            self.dims[i].param.stddev()
        } else {
            0
        }
    }

    /// Equal-weighted mean of all dimension means; one half when empty.
    pub fn overall_competence(&self) -> (r: u64)
        ensures
            r == competence(self@),
            r <= ONE,
    {
        if self.dims.len() == 0 {
            return HALF;
        }
        let n: usize = self.dims.len();
        let mut s: u128 = 0;
        for i in 0..n
            invariant
                n == self.dims@.len(),
                n == self@.len(),
                s == sum_means(self@.take(i as int)),
                s <= i * ONE,
        {
            let m: u64 = self.dims[i].param.mean();
            proof {
                assert(self@.take(i + 1).drop_last() =~= self@.take(i as int));
                assert(i * ONE + ONE == (i + 1) * ONE) by (nonlinear_arith);
                assert(i * ONE <= usize::MAX * 1_000_000_000) by (nonlinear_arith)
                    requires
                        i <= usize::MAX,
                        ONE == 1_000_000_000,
                ;
            }
            s = s + m as u128;
        }
        proof {
            assert(self@.take(n as int) =~= self@);
            let a = s as int;
            let b = n as int;
            assert(0 <= a / b <= 1_000_000_000) by (nonlinear_arith)
                requires
                    b > 0,
                    0 <= a <= b * 1_000_000_000,
            ;
        }
        (s / (n as u128)) as u64
    }

    /// Equal-weighted mean of all standard deviations; zero when empty.
    pub fn overall_uncertainty(&self) -> (r: u64)
        ensures
            r == uncertainty(self@),
            r <= HALF,
    {
        if self.dims.len() == 0 {
            return 0;
        }
        let n: usize = self.dims.len();
        let mut s: u128 = 0;
        for i in 0..n
            invariant
                n == self.dims@.len(),
                n == self@.len(),
                s == sum_stddevs(self@.take(i as int)),
                s <= i * HALF,
        {
            let m: u64 = self.dims[i].param.stddev();
            proof {
                assert(self@.take(i + 1).drop_last() =~= self@.take(i as int));
                assert(i * HALF + HALF == (i + 1) * HALF) by (nonlinear_arith);
                assert(i * HALF <= usize::MAX * 500_000_000) by (nonlinear_arith)
                    requires
                        i <= usize::MAX,
                        HALF == 500_000_000,
                ;
            }
            s = s + m as u128;
        }
        proof {
            assert(self@.take(n as int) =~= self@);
            let a = s as int;
            let b = n as int;
            assert(0 <= a / b <= 500_000_000) by (nonlinear_arith)
                requires
                    b > 0,
                    0 <= a <= b * 500_000_000,
            ;
        }
        (s / (n as u128)) as u64
    }

    /// The default dimensions.
    pub fn new() -> (r: SelfBelief)
        ensures
            r.wf(),
            r@ == SelfBelief::initial(),
    {
        let mut b: SelfBelief = SelfBelief { dims: Vec::new() };
        proof {
            reveal_strlit("tool_use");
            reveal_strlit("code_edit");
            reveal_strlit("search");
            reveal_strlit("reasoning");
            reveal_strlit("task_progress");
            assert("tool_use"@.len() == 8 && "code_edit"@.len() == 9 && "search"@.len() == 6);
            assert("reasoning"@.len() == 9 && "task_progress"@.len() == 13);
            assert("code_edit"@[0] == 'c');
            assert("reasoning"@[0] == 'r');
            assert(b@ =~= SelfBelief::initial().take(0));
        }
        b.add_dimension("tool_use", ONE, ONE);
        proof {
            assert(b@ =~= SelfBelief::initial().take(1));
        }
        b.add_dimension("code_edit", ONE, ONE);
        proof {
            assert(b@ =~= SelfBelief::initial().take(2));
        }
        b.add_dimension("search", ONE, ONE);
        proof {
            assert(b@ =~= SelfBelief::initial().take(3));
        }
        b.add_dimension("reasoning", ONE, ONE);
        proof {
            assert(b@ =~= SelfBelief::initial().take(4));
        }
        b.add_dimension("task_progress", ONE, ONE);
        proof {
            assert(b@ =~= SelfBelief::initial().take(5));
        }
        proof {
            assert(b@ =~= SelfBelief::initial());
        }
        b
    }
}

impl Default for SelfBelief {
    fn default() -> (r: SelfBelief)
        ensures
            r.wf(),
            r@ == SelfBelief::initial(),
    {
        SelfBelief::new()
    }
}

/// The mean is the share of the successes in all that was observed, up to
/// rounding.
pub proof fn law_mean_is_a_share(p: BetaParam)
    requires
        p.alpha + p.beta > 0,
    ensures
        beta_mean(p) * (p.alpha + p.beta) <= p.alpha * 1_000_000_000 < (beta_mean(p) + 1) * (p.alpha
            + p.beta),
        p.alpha == p.beta ==> beta_mean(p) == 500_000_000,
{
    let s = p.alpha + p.beta;
    let x = p.alpha * ONE;
    let m = beta_mean(p) as int;
    assert(x >= 0) by (nonlinear_arith)
        requires
            x == p.alpha * 1_000_000_000,
    ;
    assert(m * s <= x < (m + 1) * s) by (nonlinear_arith)
        requires
            m == x / s,
            s > 0,
    ;
    if p.alpha == p.beta {
        let a = p.alpha as int;
        assert(x / s == 500_000_000) by (nonlinear_arith)
            requires
                x == a * 1_000_000_000,
                s == 2 * a,
                a > 0,
        ;
    }
}

/// The more was observed at one mean, the surer the belief is; and it is sure
/// where all were successes or all failures.
pub proof fn law_evidence_makes_sure(p: BetaParam, q: BetaParam)
    requires
        beta_mean(p) == beta_mean(q),
        0 < p.alpha + p.beta <= q.alpha + q.beta,
    ensures
        beta_variance(q) <= beta_variance(p),
        beta_stddev(q) <= beta_stddev(p),
        beta_mean(p) == 0 || beta_mean(p) == ONE ==> beta_variance(p) == 0,
{
    let m = beta_mean(p) as int;
    let one = ONE as int;
    let x = m * (one - m) * one;
    let a = p.alpha + p.beta + one;
    let b = q.alpha + q.beta + one;
    lemma_mean_range(p);
    assert(x >= 0) by (nonlinear_arith)
        requires
            x == m * (one - m) * one,
            0 <= m <= one,
            one > 0,
    ;
    assert(0 <= x / b <= x / a) by (nonlinear_arith)
        requires
            x >= 0,
            0 < a <= b,
    ;
    if m == 0 || m == one {
        assert(x == 0) by (nonlinear_arith)
            requires
                x == m * (one - m) * one,
                m == 0 || m == one,
        ;
        assert(0int / a == 0) by (nonlinear_arith)
            requires
                a > 0,
        ;
    }
    lemma_variance_range(p);
    lemma_variance_range(q);
    lemma_isqrt_exists(beta_variance(p) as int, 500_000_000);
    lemma_isqrt_exists(beta_variance(q) as int, 500_000_000);
    let r = isqrt_of(beta_variance(p) as int);
    let t = isqrt_of(beta_variance(q) as int);
    if t > r {
        assert(t * t >= (r + 1) * (r + 1)) by (nonlinear_arith)
            requires
                t >= r + 1,
                r >= 0,
        ;
    }
}

/// The variance is that of the share, divided by one more than the number of
/// observations, up to rounding; the deviation is its root.
pub proof fn law_variance_of_the_share(p: BetaParam)
    requires
        p.alpha + p.beta > 0,
    ensures
        ({
            let m = beta_mean(p) as int;
            let v = beta_variance(p) as int;
            let d = p.alpha + p.beta + 1_000_000_000;
            &&& v * d <= m * (1_000_000_000 - m) * 1_000_000_000 < (v + 1) * d
            &&& beta_stddev(p) * beta_stddev(p) <= v < (beta_stddev(p) + 1) * (beta_stddev(p) + 1)
        }),
{
    let m = beta_mean(p) as int;
    let one = ONE as int;
    let x = m * (one - m) * one;
    let d = p.alpha + p.beta + one;
    let v = beta_variance(p) as int;
    lemma_mean_range(p);
    assert(x >= 0) by (nonlinear_arith)
        requires
            x == m * (one - m) * one,
            0 <= m <= one,
            one > 0,
    ;
    assert(v == x / d) by {
        assert(x / d >= 0) by (nonlinear_arith)
            requires
                x >= 0,
                d > 0,
        ;
    }
    assert(v * d <= x < (v + 1) * d) by (nonlinear_arith)
        requires
            v == x / d,
            d > 0,
    ;
    lemma_variance_range(p);
    lemma_isqrt_exists(v, 500_000_000);
}

proof fn lemma_dim_after(b: Seq<(Seq<char>, BetaParam)>, name: Seq<char>, p: BetaParam)
    requires
        has_dim(b, name),
    ensures
        dim_param(with_param(b, name, p), name) == p,
        has_dim(with_param(b, name, p), name),
        with_param(b, name, p).len() == b.len(),
{
    lemma_dim_index(b, name);
    let k = dim_index(b, name);
    let c = with_param(b, name, p);
    assert forall|i: int| 0 <= i < k implies (#[trigger] c[i]).0 != name by {
        assert(b[i].0 != name);
    }
    assert(c[k].0 == name);
    lemma_dim_index_is(c, name, k);
}

/// A success adds its weight to the successes of its dimension, a failure to
/// the failures; a dimension that is not there is not made up, and its mean
/// is one half.
pub proof fn law_observations_add_weight(b: Seq<(Seq<char>, BetaParam)>, name: Seq<char>, w: u64)
    ensures
        ({
            let p = dim_param(b, name);
            let up = dim_param(after_success(b, name, w), name);
            let down = dim_param(after_failure(b, name, w), name);
            &&& has_dim(b, name) && p.alpha + w <= u64::MAX ==> up.alpha == p.alpha + w && up.beta
                == p.beta
            &&& has_dim(b, name) && p.beta + w <= u64::MAX ==> down.beta == p.beta + w && down.alpha
                == p.alpha
            &&& !has_dim(b, name) ==> after_success(b, name, w) == b && after_failure(b, name, w)
                == b && beta_mean(p) == 500_000_000
            &&& has_dim(after_success(b, name, w), name) == has_dim(b, name)
            &&& has_dim(after_failure(b, name, w), name) == has_dim(b, name)
        }),
{
    if has_dim(b, name) {
        let p = dim_param(b, name);
        lemma_dim_after(b, name, BetaParam { alpha: capped_add(p.alpha, w), beta: p.beta });
        lemma_dim_after(b, name, BetaParam { alpha: p.alpha, beta: capped_add(p.beta, w) });
    } else {
        lemma_uniform_mean();
    }
}

/// A mixed observation of full quality is a success, one of none a failure;
/// in between the weight is split in the proportion of the quality, and
/// nothing of it is made up.
pub proof fn law_mixed_observation_splits(
    b: Seq<(Seq<char>, BetaParam)>,
    name: Seq<char>,
    quality: u64,
    w: u64,
)
    requires
        has_dim(b, name),
        dim_param(b, name).alpha + w <= u64::MAX,
        dim_param(b, name).beta + w <= u64::MAX,
    ensures
        ({
            let p = dim_param(b, name);
            let q = dim_param(after_mixed(b, name, quality, w), name);
            &&& quality >= ONE ==> after_mixed(b, name, quality, w) == after_success(b, name, w)
            &&& quality == 0 ==> after_mixed(b, name, quality, w) == after_failure(b, name, w)
            &&& p.alpha <= q.alpha
            &&& p.beta <= q.beta
            &&& w - 1 <= (q.alpha - p.alpha) + (q.beta - p.beta) <= w
            &&& quality <= ONE ==> 1_000_000_000 * (q.alpha - p.alpha) <= w * quality
                < 1_000_000_000 * (q.alpha - p.alpha + 1)
        }),
{
    let p = dim_param(b, name);
    let c = clamp_one(quality) as int;
    let x = w * c;
    let y = w * (ONE - c);
    assert(0 <= x && 0 <= y && x + y == w * 1_000_000_000) by (nonlinear_arith)
        requires
            x == w * c,
            y == w * (1_000_000_000 - c),
            0 <= c <= 1_000_000_000,
            0 <= w,
    ;
    let up = x / (ONE as int);
    let down = y / (ONE as int);
    assert(0 <= up && 0 <= down && w - 1 <= up + down <= w);
    lemma_dim_after(
        b,
        name,
        BetaParam { alpha: capped_add(p.alpha, up as u64), beta: capped_add(p.beta, down as u64) },
    );
    if quality >= ONE {
        assert(w * 1_000_000_000 == x) by (nonlinear_arith)
            requires
                x == w * c,
                c == 1_000_000_000,
        ;
        assert(up == w && down == 0);
    }
    if quality == 0 {
        assert(x == 0) by (nonlinear_arith)
            requires
                x == w * c,
                c == 0,
        ;
        assert(up == 0 && down == w);
    }
}

/// The competence lies between the lowest and the highest mean, and the
/// uncertainty between the lowest and the highest deviation.
pub proof fn law_overall_values_are_averages(b: Seq<(Seq<char>, BetaParam)>, low: nat, high: nat)
    requires
        b.len() > 0,
    ensures
        (forall|i: int| 0 <= i < b.len() ==> low <= beta_mean((#[trigger] b[i]).1) <= high) ==> low
            <= competence(b) <= high,
        (forall|i: int| 0 <= i < b.len() ==> low <= beta_stddev((#[trigger] b[i]).1) <= high)
            ==> low <= uncertainty(b) <= high,
{
    let n = b.len() as int;
    if forall|i: int| 0 <= i < b.len() ==> low <= beta_mean((#[trigger] b[i]).1) <= high {
        lemma_sum_between(b, low, high, true);
        let s = sum_means(b) as int;
        assert(low <= s / n <= high) by (nonlinear_arith)
            requires
                n > 0,
                low * n <= s <= high * n,
        ;
    }
    if forall|i: int| 0 <= i < b.len() ==> low <= beta_stddev((#[trigger] b[i]).1) <= high {
        lemma_sum_between(b, low, high, false);
        let s = sum_stddevs(b) as int;
        assert(low <= s / n <= high) by (nonlinear_arith)
            requires
                n > 0,
                low * n <= s <= high * n,
        ;
    }
}

proof fn lemma_sum_between(b: Seq<(Seq<char>, BetaParam)>, low: nat, high: nat, means: bool)
    requires
        means ==> forall|i: int|
            0 <= i < b.len() ==> low <= beta_mean((#[trigger] b[i]).1) <= high,
        !means ==> forall|i: int|
            0 <= i < b.len() ==> low <= beta_stddev((#[trigger] b[i]).1) <= high,
    ensures
        means ==> low * b.len() <= sum_means(b) <= high * b.len(),
        !means ==> low * b.len() <= sum_stddevs(b) <= high * b.len(),
    decreases b.len(),
{
    if b.len() > 0 {
        let d = b.drop_last();
        assert forall|i: int| 0 <= i < d.len() implies (#[trigger] d[i]) == b[i] by {}
        lemma_sum_between(d, low, high, means);
        let n = b.len() as int;
        assert(b[n - 1] == b.last());
        assert(low * (n - 1) + low == low * n && high * (n - 1) + high == high * n)
            by (nonlinear_arith);
    } else {
        assert(low * 0 == 0 && high * 0 == 0) by (nonlinear_arith);
    }
}

} // verus!
