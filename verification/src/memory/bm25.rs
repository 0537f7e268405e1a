//! A word index over memory units.
//!
//! The index counts: how often a term occurs in a document and in a query,
//! in how many documents it occurs, and how long documents are. From these
//! counts the Okapi BM25 formula gives each document a score, by which the
//! index ranks. The logarithm in it comes from a table. Quantities are
//! fixed-point numbers, in billionths.
use crate::fixed::{add_capped, capped_add, fx_mul, ONE};
use crate::memory::model::{unit_views, units_wf, MemoryUnit, Unit};
use crate::order::{descending, descending_order, indices, ints, law_descending};
use crate::text::{begins, ends, same, views};
use crate::window::at_most;
use crate::words::{distinct, split_words, words, WordSet};
use vstd::arithmetic::div_mod::lemma_fundamental_div_mod_converse;
use vstd::prelude::*;

verus! {

/// The parameters of the formula, in billionths.
#[derive(Debug, Clone, Copy)]
pub struct BM25Config {
    pub k1: u64,
    pub b: u64,
}

impl Default for BM25Config {
    fn default() -> (r: BM25Config)
        ensures
            r.k1 == 1_500_000_000,
            r.b == 750_000_000,
    {
        BM25Config { k1: 1_500_000_000, b: 750_000_000 }
    }
}

/// One ranked document.
#[derive(Debug, Clone)]
pub struct BM25Hit {
    pub unit: MemoryUnit,
    pub score: u64,
}

/// What a term contributes to a document's score.
#[derive(Debug, Clone, Copy, PartialEq, Eq, Structural)]
pub struct TermStat {
    /// Occurrences in the document.
    pub tf: u64,
    /// Documents that hold the term.
    pub df: u64,
    /// Occurrences in the query.
    pub qtf: u64,
}

/// A document that shares a term with a query, with what its score is made
/// of.
#[derive(Debug, Clone)]
pub struct DocMatch {
    pub doc: usize,
    /// The document's length in terms.
    pub len: u64,
    pub terms: Vec<TermStat>,
}

/// The text of a unit that is indexed: its own, and its context.
pub open spec fn indexed_text(u: Unit) -> Seq<char> {
    match u.context {
        Some(c) => u.text + " "@ + c,
        None => u.text,
    }
}

/// The terms of a unit, with repetitions.
pub open spec fn unit_terms(u: Unit) -> Seq<Seq<char>> {
    words(indexed_text(u), 2, false)
}

/// How often a term occurs among some.
pub open spec fn occurrences(terms: Seq<Seq<char>>, t: Seq<char>) -> nat
    decreases terms.len(),
{
    if terms.len() == 0 {
        0
    } else {
        occurrences(terms.drop_last(), t) + (if terms.last() == t {
            1nat
        } else {
            0nat
        })
    }
}

/// In how many of the first `n` documents a term occurs.
pub open spec fn doc_frequency(docs: Seq<Seq<Seq<char>>>, n: nat, t: Seq<char>) -> nat
    decreases n,
{
    if n == 0 {
        0
    } else {
        doc_frequency(docs, (n - 1) as nat, t) + (if occurrences(docs[n - 1], t) > 0 {
            1nat
        } else {
            0nat
        })
    }
}

/// The sum of the lengths of the first `n` documents.
pub open spec fn total_length(docs: Seq<Seq<Seq<char>>>, n: nat) -> nat
    decreases n,
{
    if n == 0 {
        0
    } else {
        total_length(docs, (n - 1) as nat) + docs[n - 1].len()
    }
}

/// The contributions of the first `n` distinct query terms to a document:
/// one for each that it holds.
pub open spec fn term_stats(
    docs: Seq<Seq<Seq<char>>>,
    d: int,
    query: Seq<Seq<char>>,
    vocab: Seq<Seq<char>>,
    n: nat,
) -> Seq<TermStat>
    decreases n,
{
    if n == 0 {
        seq![]
    } else {
        let before = term_stats(docs, d, query, vocab, (n - 1) as nat);
        let t = vocab[n - 1];
        if occurrences(docs[d], t) > 0 {
            before.push(
                TermStat {
                    tf: occurrences(docs[d], t) as u64,
                    df: doc_frequency(docs, docs.len(), t) as u64,
                    qtf: occurrences(query, t) as u64,
                },
            )
        } else {
            before
        }
    }
}

/// A match as a mathematical value.
pub struct Matched {
    pub doc: int,
    pub len: int,
    pub terms: Seq<TermStat>,
}

/// The views of a sequence of matches.
pub open spec fn match_views(s: Seq<DocMatch>) -> Seq<Matched> {
    s.map_values(|m: DocMatch| Matched { doc: m.doc as int, len: m.len as int, terms: m.terms@ })
}

/// The matches of a query among the first `n` documents, in document order.
pub open spec fn matches_of(docs: Seq<Seq<Seq<char>>>, query: Seq<Seq<char>>, n: nat) -> Seq<
    Matched,
>
    decreases n,
{
    if n == 0 {
        seq![]
    } else {
        let before = matches_of(docs, query, (n - 1) as nat);
        let vocab = distinct(query);
        let ts = term_stats(docs, n - 1, query, vocab, vocab.len());
        if ts.len() > 0 {
            before.push(Matched { doc: n - 1, len: docs[n - 1].len() as int, terms: ts })
        } else {
            before
        }
    }
}

/// A count held within 32 bits.
pub open spec fn count32(n: int) -> int {
    if n > u32::MAX {
        u32::MAX as int
    } else {
        n
    }
}

/// A document's length relative to the average length, which counts as at
/// least one: `len · docs / total`.
pub open spec fn relative_length(len: int, total: int, docs: int) -> int {
    if total > docs {
        (count32(len) * count32(docs) * ONE) / total
    } else {
        count32(len) * ONE
    }
}

/// The least denominator.
pub const LEAST_WEIGHT: u64 = 1_000;

/// The denominator of the formula, `tf + k1 · (1 − b + b · relative length)`,
/// which counts as at least a millionth.
pub open spec fn term_weight(cfg: BM25Config, tf: int, rel: int) -> int {
    let w = count32(tf) * ONE + fx_mul(cfg.k1 as int, ONE - cfg.b + fx_mul(cfg.b as int, rel));
    if w < LEAST_WEIGHT {
        LEAST_WEIGHT as int
    } else {
        w
    }
}

/// What a term adds to a document's score: `idf · tf · (k1 + 1) / weight ·
/// qtf`.
pub open spec fn term_score(cfg: BM25Config, idf: u64, t: TermStat, rel: int) -> int {
    let ratio = (count32(t.tf as int) * (cfg.k1 + ONE) * ONE) / term_weight(
        cfg,
        t.tf as int,
        rel,
    );
    fx_mul(idf as int, ratio) * count32(t.qtf as int)
}

/// A score held within its type.
pub open spec fn as_score(x: int) -> u64 {
    if x > u64::MAX {
        u64::MAX
    } else {
        x as u64
    }
}

/// The score of a document from its first `n` terms. `idf` is indexed by
/// document frequency.
pub open spec fn doc_score(
    cfg: BM25Config,
    idf: Seq<u64>,
    terms: Seq<TermStat>,
    rel: int,
    n: nat,
) -> u64
    decreases n,
{
    if n == 0 {
        0
    } else {
        let t = terms[n - 1];
        capped_add(
            doc_score(cfg, idf, terms, rel, (n - 1) as nat),
            as_score(term_score(cfg, idf[t.df as int], t, rel)),
        )
    }
}

/// The scores of some matches.
pub open spec fn match_scores(
    cfg: BM25Config,
    idf: Seq<u64>,
    ms: Seq<Matched>,
    total: int,
    docs: int,
) -> Seq<int> {
    ms.map_values(
        |m: Matched|
            doc_score(
                cfg,
                idf,
                m.terms,
                relative_length(m.len, total, docs),
                m.terms.len(),
            ) as int,
    )
}

/// Whether every term occurs, and in fewer than `n` documents.
pub open spec fn stats_ok(terms: Seq<TermStat>, n: int) -> bool {
    forall|j: int|
        0 <= j < terms.len() ==> (#[trigger] terms[j]).df < n && terms[j].tf > 0
}

/// The terms of each document.
pub open spec fn term_lists(s: Seq<Vec<String>>) -> Seq<Seq<Seq<char>>> {
    s.map_values(|v: Vec<String>| views(v@))
}

/// The terms of each of some units.
pub open spec fn terms_of_units(us: Seq<Unit>) -> Seq<Seq<Seq<char>>> {
    us.map_values(|u: Unit| unit_terms(u))
}

#[derive(Debug)]
pub struct BM25Index {
    pub cfg: BM25Config,
    pub units: Vec<MemoryUnit>,
    /// The terms of each unit.
    pub terms: Vec<Vec<String>>,
    /// The sum of the lengths of all documents.
    pub total_len: u64,
}

proof fn lemma_occurrences(terms: Seq<Seq<char>>, t: Seq<char>)
    ensures
        occurrences(terms, t) <= terms.len(),
    decreases terms.len(),
{
    if terms.len() > 0 {
        lemma_occurrences(terms.drop_last(), t);
    }
}

/// A document that holds no query term is not matched, and every match is a
/// document of the index, once.
pub proof fn law_matches_are_documents(
    docs: Seq<Seq<Seq<char>>>,
    query: Seq<Seq<char>>,
    n: nat,
    i: int,
    j: int,
)
    requires
        n <= docs.len(),
        0 <= i < j < matches_of(docs, query, n).len(),
    ensures
        0 <= matches_of(docs, query, n)[i].doc < matches_of(docs, query, n)[j].doc < n,
        matches_of(docs, query, n)[i].terms.len() > 0,
        matches_of(docs, query, n)[j].terms.len() > 0,
    decreases n,
{
    if n > 0 {
        let before = matches_of(docs, query, (n - 1) as nat);
        if j < before.len() {
            law_matches_are_documents(docs, query, (n - 1) as nat, i, j);
        } else {
            lemma_match(docs, query, (n - 1) as nat, i);
        }
    }
}

/// What the length of a document adds to the weight of a term.
spec fn length_weight(cfg: BM25Config, rel: int) -> int {
    fx_mul(cfg.k1 as int, ONE - cfg.b + fx_mul(cfg.b as int, rel))
}

proof fn lemma_length_weight(cfg: BM25Config, rel: int, more: int)
    requires
        rel <= more,
    ensures
        length_weight(cfg, rel) <= length_weight(cfg, more),
        0 <= rel && cfg.b <= ONE ==> 0 <= length_weight(cfg, rel),
{
    let b = cfg.b as int;
    let k = cfg.k1 as int;
    assert(b * rel <= b * more) by (nonlinear_arith)
        requires
            b >= 0,
            rel <= more,
    ;
    let x = ONE - cfg.b + fx_mul(b, rel);
    let y = ONE - cfg.b + fx_mul(b, more);
    assert(x <= y);
    assert(k * x <= k * y) by (nonlinear_arith)
        requires
            k >= 0,
            x <= y,
    ;
    if 0 <= rel && cfg.b <= ONE {
        assert(b * rel >= 0) by (nonlinear_arith)
            requires
                b >= 0,
                rel >= 0,
        ;
        assert(k * x >= 0) by (nonlinear_arith)
            requires
                k >= 0,
                x >= 0,
        ;
    }
}

proof fn lemma_scaled(idf: int, r: int, s: int, q: int)
    requires
        0 <= idf,
        r <= s,
        0 <= q,
    ensures
        fx_mul(idf, r) * q <= fx_mul(idf, s) * q,
{
    assert(idf * r <= idf * s) by (nonlinear_arith)
        requires
            idf >= 0,
            r <= s,
    ;
    let a = fx_mul(idf, r);
    let b = fx_mul(idf, s);
    assert(a * q <= b * q) by (nonlinear_arith)
        requires
            a <= b,
            q >= 0,
    ;
}

/// The more often a document holds a term, the higher the term scores there,
/// or at least no lower, other things being equal.
pub proof fn law_more_occurrences_score_no_lower(
    cfg: BM25Config,
    idf: u64,
    t: TermStat,
    u: TermStat,
    rel: int,
)
    requires
        cfg.b <= ONE,
        rel >= 0,
        t.tf <= u.tf,
        t.qtf == u.qtf,
    ensures
        term_score(cfg, idf, t, rel) <= term_score(cfg, idf, u, rel),
{
    let f = count32(t.tf as int);
    let g = count32(u.tf as int);
    let c = length_weight(cfg, rel);
    lemma_length_weight(cfg, rel, rel);
    let h = (cfg.k1 + ONE) * ONE;
    let v = term_weight(cfg, t.tf as int, rel);
    let w = term_weight(cfg, u.tf as int, rel);
    let p = f * (cfg.k1 + ONE) * ONE;
    let q = g * (cfg.k1 + ONE) * ONE;
    let m = cfg.k1 + ONE;
    assert(p == f * h && q == g * h && h >= 0) by (nonlinear_arith)
        requires
            p == f * m * 1_000_000_000,
            q == g * m * 1_000_000_000,
            h == m * 1_000_000_000,
            m >= 0,
    ;
    assert(p / v <= q / w) by {
        if f == 0 {
            assert(p == 0) by (nonlinear_arith)
                requires
                    p == f * h,
                    f == 0,
            ;
            assert(q >= 0) by (nonlinear_arith)
                requires
                    q == g * h,
                    g >= 0,
                    h >= 0,
            ;
            assert(0int / v == 0) by (nonlinear_arith)
                requires
                    v > 0,
            ;
            assert(q / w >= 0) by (nonlinear_arith)
                requires
                    w > 0,
                    q >= 0,
            ;
        } else {
            assert(v == f * 1_000_000_000 + c && w == g * 1_000_000_000 + c);
            assert(f * w <= g * v) by (nonlinear_arith)
                requires
                    v == f * 1_000_000_000 + c,
                    w == g * 1_000_000_000 + c,
                    0 <= f <= g,
                    c >= 0,
            ;
            assert(p * w <= q * v) by (nonlinear_arith)
                requires
                    p == f * h,
                    q == g * h,
                    f * w <= g * v,
                    h >= 0,
            ;
            lemma_ratio(p, v, q, w);
        }
    }
    lemma_scaled(idf as int, p / v, q / w, count32(t.qtf as int));
}

proof fn lemma_ratio(p: int, v: int, q: int, w: int)
    requires
        v > 0,
        w > 0,
        p * w <= q * v,
    ensures
        p / v <= q / w,
{
    let r = p / v;
    assert(r * v <= p) by (nonlinear_arith)
        requires
            v > 0,
            r == p / v,
    ;
    assert((r * v) * w <= q * v) by (nonlinear_arith)
        requires
            r * v <= p,
            p * w <= q * v,
            w > 0,
    ;
    assert(r * w <= q) by (nonlinear_arith)
        requires
            (r * v) * w <= q * v,
            v > 0,
    ;
    assert(r <= q / w) by (nonlinear_arith)
        requires
            r * w <= q,
            w > 0,
    ;
}

/// The longer a document is, the lower a term scores there, or at least no
/// higher, other things being equal.
pub proof fn law_longer_document_scores_no_higher(
    cfg: BM25Config,
    idf: u64,
    t: TermStat,
    rel: int,
    longer: int,
)
    requires
        rel <= longer,
    ensures
        term_score(cfg, idf, t, longer) <= term_score(cfg, idf, t, rel),
{
    let f = count32(t.tf as int);
    lemma_length_weight(cfg, rel, longer);
    let v = term_weight(cfg, t.tf as int, rel);
    let w = term_weight(cfg, t.tf as int, longer);
    assert(v <= w);
    let p = f * (cfg.k1 + ONE) * ONE;
    let m = cfg.k1 + ONE;
    assert(p >= 0) by (nonlinear_arith)
        requires
            p == f * m * 1_000_000_000,
            f >= 0,
            m >= 0,
    ;
    assert(p * v <= p * w) by (nonlinear_arith)
        requires
            p >= 0,
            v <= w,
    ;
    lemma_ratio(p, w, p, v);
    lemma_scaled(idf as int, p / w, p / v, count32(t.qtf as int));
}

/// A rarer term, whose weight is larger, scores no lower; and a term scores
/// as many times as the query repeats it.
pub proof fn law_weight_and_repetition_count(
    cfg: BM25Config,
    idf: u64,
    rarer: u64,
    t: TermStat,
    rel: int,
)
    requires
        idf <= rarer,
        cfg.b <= ONE,
        rel >= 0,
        t.qtf <= u32::MAX,
    ensures
        term_score(cfg, idf, t, rel) <= term_score(cfg, rarer, t, rel),
        term_score(cfg, idf, t, rel) == t.qtf * term_score(
            cfg,
            idf,
            TermStat { qtf: 1, ..t },
            rel,
        ),
        term_score(cfg, 0, t, rel) == 0,
{
    let m = cfg.k1 + ONE;
    let f = count32(t.tf as int);
    let p = f * m * ONE;
    let v = term_weight(cfg, t.tf as int, rel);
    assert(p >= 0) by (nonlinear_arith)
        requires
            p == f * m * 1_000_000_000,
            f >= 0,
            m >= 0,
    ;
    let r = p / v;
    assert(r >= 0) by (nonlinear_arith)
        requires
            r == p / v,
            p >= 0,
            v > 0,
    ;
    assert(idf * r <= rarer * r) by (nonlinear_arith)
        requires
            idf <= rarer,
            r >= 0,
    ;
    let a = fx_mul(idf as int, r);
    let b = fx_mul(rarer as int, r);
    let q = count32(t.qtf as int);
    assert(a * q <= b * q) by (nonlinear_arith)
        requires
            a <= b,
            q >= 0,
    ;
    assert(a * q == q * (a * 1)) by (nonlinear_arith);
    assert(0 * r == 0) by (nonlinear_arith);
    assert(0 * q == 0) by (nonlinear_arith);
}

/// In a document of average length that holds it once, a term scores its
/// weight, whatever the parameters are.
pub proof fn law_one_occurrence_at_average_length(cfg: BM25Config, idf: u64, df: u64)
    ensures
        term_score(cfg, idf, TermStat { tf: 1, df, qtf: 1 }, 1_000_000_000) == idf,
{
    let b = cfg.b as int;
    let k = cfg.k1 as int;
    assert(fx_mul(b, 1_000_000_000) == b);
    assert(fx_mul(k, 1_000_000_000) == k);
    let w = ONE + k;
    assert(term_weight(cfg, 1, 1_000_000_000) == w);
    let t = TermStat { tf: 1, df, qtf: 1 };
    let f = count32(t.tf as int);
    let p = f * (cfg.k1 + ONE) * ONE;
    assert(p == w * 1_000_000_000) by (nonlinear_arith)
        requires
            f == 1,
            w == cfg.k1 + ONE,
            p == f * (cfg.k1 + ONE) * ONE,
            ONE == 1_000_000_000,
    ;
    assert(p / w == 1_000_000_000) by (nonlinear_arith)
        requires
            p == w * 1_000_000_000,
            w > 0,
    ;
    assert(fx_mul(idf as int, 1_000_000_000) == idf);
    assert(term_weight(cfg, t.tf as int, 1_000_000_000) == w);
    assert(count32(t.qtf as int) == 1);
}

/// However often a document holds a term, the term scores less than `k1 + 1`
/// times its weight, or that at most.
pub proof fn law_occurrences_saturate(cfg: BM25Config, idf: u64, t: TermStat, rel: int)
    requires
        cfg.b <= ONE,
        rel >= 0,
    ensures
        term_score(cfg, idf, t, rel) <= fx_mul(idf as int, cfg.k1 + 1_000_000_000) * count32(
            t.qtf as int,
        ),
{
    let f = count32(t.tf as int);
    lemma_length_weight(cfg, rel, rel);
    let m = cfg.k1 + ONE;
    let p = f * m * ONE;
    let v = term_weight(cfg, t.tf as int, rel);
    assert(v >= f * 1_000_000_000);
    assert(p <= m * v) by (nonlinear_arith)
        requires
            p == f * m * 1_000_000_000,
            v >= f * 1_000_000_000,
            m >= 0,
    ;
    assert(p / v <= m) by (nonlinear_arith)
        requires
            p <= m * v,
            v > 0,
    ;
    lemma_scaled(idf as int, p / v, m, count32(t.qtf as int));
}

/// A document of average length has the relative length one, and a longer
/// one has no smaller relative length.
pub proof fn law_relative_length(len: int, longer: int, total: int, docs: int)
    requires
        0 <= len <= longer <= u32::MAX,
        0 < docs <= u32::MAX,
        total > docs,
    ensures
        relative_length(len, total, docs) <= relative_length(longer, total, docs),
        len * docs == total ==> relative_length(len, total, docs) == 1_000_000_000,
{
    let p = len * docs * ONE;
    let q = longer * docs * ONE;
    assert(p <= q) by (nonlinear_arith)
        requires
            p == len * docs * 1_000_000_000,
            q == longer * docs * 1_000_000_000,
            0 <= len <= longer,
            docs > 0,
    ;
    assert(p / total <= q / total) by (nonlinear_arith)
        requires
            p <= q,
            total > 0,
    ;
    if len * docs == total {
        assert(p == total * 1_000_000_000);
        assert(p / total == 1_000_000_000) by (nonlinear_arith)
            requires
                p == total * 1_000_000_000,
                total > 0,
        ;
    }
}

/// Of two documents of one length, the one that holds the only word of a
/// query more often scores no lower.
pub proof fn law_more_mentions_score_no_lower(
    cfg: BM25Config,
    idf: Seq<u64>,
    docs: Seq<Seq<Seq<char>>>,
    word: Seq<char>,
    d: int,
    e: int,
    rel: int,
)
    requires
        cfg.b <= ONE,
        rel >= 0,
        0 < occurrences(docs[d], word) <= occurrences(docs[e], word) <= u64::MAX,
    ensures
        ({
            let q = seq![word];
            let a = term_stats(docs, d, q, distinct(q), distinct(q).len());
            let b = term_stats(docs, e, q, distinct(q), distinct(q).len());
            doc_score(cfg, idf, a, rel, a.len()) <= doc_score(cfg, idf, b, rel, b.len())
        }),
{
    let q = seq![word];
    reveal_with_fuel(distinct, 2);
    assert(q.drop_last() =~= Seq::<Seq<char>>::empty());
    assert(distinct(q) =~= seq![word]);
    reveal_with_fuel(term_stats, 2);
    reveal_with_fuel(doc_score, 2);
    let a = term_stats(docs, d, q, distinct(q), distinct(q).len());
    let b = term_stats(docs, e, q, distinct(q), distinct(q).len());
    assert(a.len() == 1 && b.len() == 1);
    law_more_occurrences_score_no_lower(cfg, idf[a[0].df as int], a[0], b[0], rel);
}

/// A term is counted as often as it stands in a text.
pub proof fn law_occurrences_count(terms: Seq<Seq<char>>, more: Seq<Seq<char>>, t: Seq<char>)
    ensures
        occurrences(terms + more, t) == occurrences(terms, t) + occurrences(more, t),
        occurrences(terms, t) > 0 <==> terms.contains(t),
        occurrences(seq![t], t) == 1,
    decreases more.len(),
{
    reveal_with_fuel(occurrences, 2);
    assert(seq![t].drop_last() =~= Seq::<Seq<char>>::empty());
    lemma_occurs(terms, t);
    if more.len() > 0 {
        law_occurrences_count(terms, more.drop_last(), t);
        assert((terms + more).drop_last() =~= terms + more.drop_last());
    } else {
        assert(terms + more =~= terms);
    }
}

proof fn lemma_occurs(terms: Seq<Seq<char>>, t: Seq<char>)
    ensures
        occurrences(terms, t) > 0 <==> terms.contains(t),
    decreases terms.len(),
{
    if terms.len() > 0 {
        let d = terms.drop_last();
        lemma_occurs(d, t);
        if d.contains(t) {
            let q = choose|q: int| 0 <= q < d.len() && d[q] == t;
            assert(terms[q] == t);
        }
        if terms.contains(t) && terms.last() != t {
            let q = choose|q: int| 0 <= q < terms.len() && terms[q] == t;
            assert(d[q] == t);
        }
    }
}

proof fn lemma_stats_exist(
    docs: Seq<Seq<Seq<char>>>,
    d: int,
    query: Seq<Seq<char>>,
    vocab: Seq<Seq<char>>,
    n: nat,
)
    requires
        n <= vocab.len(),
    ensures
        term_stats(docs, d, query, vocab, n).len() > 0 <==> exists|i: int|
            0 <= i < n && docs[d].contains(#[trigger] vocab[i]),
    decreases n,
{
    if n > 0 {
        lemma_stats_exist(docs, d, query, vocab, (n - 1) as nat);
        lemma_occurs(docs[d], vocab[n - 1]);
    }
}

proof fn lemma_distinct_holds(s: Seq<Seq<char>>, t: Seq<char>)
    ensures
        distinct(s).contains(t) <==> s.contains(t),
    decreases s.len(),
{
    if s.len() > 0 {
        let d = s.drop_last();
        lemma_distinct_holds(d, t);
        lemma_distinct_holds(d, s.last());
        let u = distinct(d);
        if s.contains(t) {
            let q = choose|q: int| 0 <= q < s.len() && s[q] == t;
            if q < d.len() {
                assert(d[q] == t);
            }
        }
        if d.contains(t) {
            let q = choose|q: int| 0 <= q < d.len() && d[q] == t;
            assert(s[q] == t);
        }
        assert(s[s.len() - 1] == s.last());
        if !u.contains(s.last()) {
            let v = u.push(s.last());
            assert(v[u.len() as int] == s.last());
            if u.contains(t) {
                let q = choose|q: int| 0 <= q < u.len() && u[q] == t;
                assert(v[q] == t);
            }
            if v.contains(t) && t != s.last() {
                let q = choose|q: int| 0 <= q < v.len() && v[q] == t;
                assert(u[q] == t);
            }
        }
    }
}

/// A document is matched exactly when it holds a word of the query.
pub proof fn law_matched_where_a_word_is_shared(
    docs: Seq<Seq<Seq<char>>>,
    query: Seq<Seq<char>>,
    n: nat,
    d: int,
)
    requires
        n <= docs.len(),
        0 <= d < n,
    ensures
        (exists|i: int|
            0 <= i < matches_of(docs, query, n).len() && (#[trigger] matches_of(
                docs,
                query,
                n,
            )[i]).doc == d) <==> exists|j: int|
            0 <= j < query.len() && docs[d].contains(#[trigger] query[j]),
    decreases n,
{
    let ms = matches_of(docs, query, n);
    let before = matches_of(docs, query, (n - 1) as nat);
    if d < n - 1 {
        law_matched_where_a_word_is_shared(docs, query, (n - 1) as nat, d);
        if exists|i: int| 0 <= i < before.len() && (#[trigger] before[i]).doc == d {
            let i = choose|i: int| 0 <= i < before.len() && (#[trigger] before[i]).doc == d;
            assert(ms[i].doc == d);
        }
        if exists|i: int| 0 <= i < ms.len() && (#[trigger] ms[i]).doc == d {
            let i = choose|i: int| 0 <= i < ms.len() && (#[trigger] ms[i]).doc == d;
            assert(i < before.len());
            assert(before[i].doc == d);
        }
    } else {
        let vocab = distinct(query);
        lemma_stats_exist(docs, d, query, vocab, vocab.len());
        if exists|i: int| 0 <= i < vocab.len() && docs[d].contains(#[trigger] vocab[i]) {
            let i = choose|i: int| 0 <= i < vocab.len() && docs[d].contains(#[trigger] vocab[i]);
            lemma_distinct_holds(query, vocab[i]);
            assert(query.contains(vocab[i]));
            let j = choose|j: int| 0 <= j < query.len() && query[j] == vocab[i];
            assert(docs[d].contains(query[j]));
            assert(ms[before.len() as int].doc == d);
        }
        if exists|j: int| 0 <= j < query.len() && docs[d].contains(#[trigger] query[j]) {
            let j = choose|j: int| 0 <= j < query.len() && docs[d].contains(#[trigger] query[j]);
            lemma_distinct_holds(query, query[j]);
            let i = choose|i: int| 0 <= i < vocab.len() && vocab[i] == query[j];
            assert(docs[d].contains(vocab[i]));
        }
        if exists|i: int| 0 <= i < ms.len() && (#[trigger] ms[i]).doc == d {
            let i = choose|i: int| 0 <= i < ms.len() && (#[trigger] ms[i]).doc == d;
            if i < before.len() {
                lemma_match(docs, query, (n - 1) as nat, i);
            }
        }
    }
}

proof fn lemma_match(docs: Seq<Seq<Seq<char>>>, query: Seq<Seq<char>>, n: nat, i: int)
    requires
        0 <= i < matches_of(docs, query, n).len(),
    ensures
        0 <= matches_of(docs, query, n)[i].doc < n,
        matches_of(docs, query, n)[i].terms.len() > 0,
    decreases n,
{
    if n > 0 {
        let before = matches_of(docs, query, (n - 1) as nat);
        if i < before.len() {
            lemma_match(docs, query, (n - 1) as nat, i);
        }
    }
}

fn count(terms: &Vec<String>, t: &str) -> (r: u64)
    ensures
        r == occurrences(views(terms@), t@),
{
    let mut n: u64 = 0;
    let ghost tv = views(terms@);
    for i in 0..terms.len()
        invariant
            tv == views(terms@),
            n <= i,
            n == occurrences(tv.take(i as int), t@),
    {
        proof {
            assert(tv.take(i + 1).drop_last() =~= tv.take(i as int));
            assert(tv.take(i + 1).last() == terms@[i as int]@);
        }
        if same(terms[i].as_str(), t) {
            n = n + 1;
        }
    }
    proof {
        assert(tv.take(tv.len() as int) =~= tv);
    }
    n
}

impl Default for BM25Index {
    fn default() -> (r: BM25Index)
        ensures
            r.wf(),
            r.units@.len() == 0,
            r.cfg.k1 == 1_500_000_000,
            r.cfg.b == 750_000_000,
    {
        BM25Index::new()
    }
}

impl BM25Index {
    /// The documents of the index, as lists of terms.
    pub open spec fn docs(&self) -> Seq<Seq<Seq<char>>> {
        term_lists(self.terms@)
    }

    /// The invariant: the terms are those of the units, and the total length
    /// is the sum of theirs, as far as it fits its type.
    pub open spec fn wf(&self) -> bool {
        &&& units_wf(self.units@)
        &&& self.docs() == terms_of_units(unit_views(self.units@))
        &&& self.total_len == if total_length(self.docs(), self.docs().len()) < u64::MAX {
            total_length(self.docs(), self.docs().len())
        } else {
            u64::MAX as nat
        }
    }

    pub fn new() -> (r: BM25Index)
        ensures
            r.wf(),
            r.units@.len() == 0,
            r.cfg.k1 == 1_500_000_000,
            r.cfg.b == 750_000_000,
    {
        BM25Index::with_config(BM25Config::default())
    }

    pub fn with_config(cfg: BM25Config) -> (r: BM25Index)
        ensures
            r.wf(),
            r.units@.len() == 0,
            r.cfg == cfg,
    {
        let r = BM25Index { cfg, units: Vec::new(), terms: Vec::new(), total_len: 0 };
        proof {
            assert(r.docs() =~= terms_of_units(unit_views(r.units@)));
        }
        r
    }

    pub fn is_empty(&self) -> (r: bool)
        ensures
            r == (self.units@.len() == 0),
    {
        self.units.len() == 0
    }

    pub fn len(&self) -> (r: usize)
        ensures
            r == self.units@.len(),
    {
        self.units.len()
    }

    /// Builds the index anew from some units. Text and context are indexed.
    pub fn build(&mut self, units: &[MemoryUnit])
        requires
            units_wf(units@),
        ensures
            final(self).wf(),
            final(self).cfg == old(self).cfg,
            unit_views(final(self).units@) == unit_views(units@),
    {
        let mut us: Vec<MemoryUnit> = Vec::new();
        let mut terms: Vec<Vec<String>> = Vec::new();
        let mut total: u64 = 0;
        let ghost uv = unit_views(units@);
        let n: usize = units.len();
        proof {
            assert(unit_views(us@) =~= uv.take(0));
            assert(term_lists(terms@) =~= terms_of_units(uv.take(0)));
        }
        for i in 0..n
            invariant
                n == units@.len(),
                units_wf(units@),
                uv == unit_views(units@),
                units_wf(us@),
                unit_views(us@) == uv.take(i as int),
                term_lists(terms@) == terms_of_units(uv.take(i as int)),
                terms@.len() == i,
                total == if total_length(term_lists(terms@), i as nat) < u64::MAX {
                    total_length(term_lists(terms@), i as nat)
                } else {
                    u64::MAX as nat
                },
        {
            let u: &MemoryUnit = &units[i];
            let mut body: String = u.text.clone();
            match &u.context {
                Some(c) => {
                    body.append(" ");
                    body.append(c.as_str());
                },
                None => {},
            }
            let toks: Vec<String> = split_words(body.as_str(), 2, false);
            proof {
                assert(body@ == indexed_text(u@));
                assert(units@[i as int].wf());
            }
            let more: u64 = toks.len() as u64;
            let ghost was = terms@;
            let ghost docs = term_lists(was);
            total = if total > u64::MAX - more {
                u64::MAX
            } else {
                total + more
            };
            let copy: MemoryUnit = u.clone();
            let ghost us_was = us@;
            us.push(copy);
            terms.push(toks);
            proof {
                assert(unit_views(us@) =~= unit_views(us_was).push(u@));
                assert(uv.take(i + 1) =~= uv.take(i as int).push(u@));
                assert(term_lists(terms@) =~= docs.push(unit_terms(u@)));
                assert(terms_of_units(uv.take(i + 1)) =~= terms_of_units(uv.take(i as int)).push(
                    unit_terms(u@),
                ));
                lemma_total_prefix(docs, term_lists(terms@), i as nat);
            }
        }
        self.units = us;
        self.terms = terms;
        self.total_len = total;
        proof {
            assert(uv.take(n as int) =~= uv);
        }
    }

    /// The sum of the document lengths and the number of documents, whose
    /// quotient is the average length.
    pub fn average_length(&self) -> (r: (u64, usize))
        ensures
            r == (self.total_len, self.units@.len() as usize),
            r.1 == self.units@.len(),
    {
        (self.total_len, self.units.len())
    }

    fn frequency(&self, t: &str) -> (r: u64)
        ensures
            r == doc_frequency(self.docs(), self.docs().len(), t@),
            r <= self.terms@.len(),
    {
        let mut n: u64 = 0;
        for i in 0..self.terms.len()
            invariant
                n <= i,
                n == doc_frequency(self.docs(), i as nat, t@),
        {
            proof {
                assert(self.docs()[i as int] == views(self.terms@[i as int]@));
            }
            if count(&self.terms[i], t) > 0 {
                n = n + 1;
            }
        }
        n
    }

    /// The documents that share a term with the query, in document order,
    /// with the counts that their scores are made of.
    pub fn matches(&self, query: &str) -> (r: Vec<DocMatch>)
        ensures
            match_views(r@) == matches_of(
                self.docs(),
                words(query@, 2, false),
                self.docs().len(),
            ),
            forall|i: int| 0 <= i < r@.len() ==> (#[trigger] r@[i]).doc < self.terms@.len(),
            forall|i: int|
                0 <= i < r@.len() ==> stats_ok(
                    (#[trigger] r@[i]).terms@,
                    self.terms@.len() as int + 1,
                ),
    {
        let q: Vec<String> = split_words(query, 2, false);
        let ghost qv = views(q@);
        let vocab: WordSet = WordSet::of(&q);
        let ghost vv = views(vocab.items@);
        let ghost docs = self.docs();
        let mut out: Vec<DocMatch> = Vec::new();
        proof {
            assert(match_views(out@) =~= seq![]);
        }
        for d in 0..self.terms.len()
            invariant
                docs == self.docs(),
                qv == views(q@),
                vv == views(vocab.items@),
                vv == distinct(qv),
                match_views(out@) == matches_of(docs, qv, d as nat),
                forall|i: int| 0 <= i < out@.len() ==> (#[trigger] out@[i]).doc < self.terms@.len(),
                forall|i: int|
                    0 <= i < out@.len() ==> stats_ok(
                        (#[trigger] out@[i]).terms@,
                        self.terms@.len() as int + 1,
                    ),
        {
            let mut ts: Vec<TermStat> = Vec::new();
            proof {
                assert(docs[d as int] == views(self.terms@[d as int]@));
            }
            for k in 0..vocab.items.len()
                invariant
                    d < self.terms@.len(),
                    docs == self.docs(),
                    docs[d as int] == views(self.terms@[d as int]@),
                    qv == views(q@),
                    vv == views(vocab.items@),
                    ts@ == term_stats(docs, d as int, qv, vv, k as nat),
                    stats_ok(ts@, self.terms@.len() as int + 1),
            {
                let t: &String = &vocab.items[k];
                proof {
                    assert(vv[k as int] == t@);
                }
                let tf: u64 = count(&self.terms[d], t.as_str());
                if tf > 0 {
                    let df: u64 = self.frequency(t.as_str());
                    let qtf: u64 = count(&q, t.as_str());
                    ts.push(TermStat { tf, df, qtf });
                }
            }
            if ts.len() > 0 {
                let m = DocMatch { doc: d, len: self.terms[d].len() as u64, terms: ts };
                let ghost before = out@;
                out.push(m);
                proof {
                    assert(match_views(out@) =~= match_views(before).push(
                        Matched { doc: d as int, len: docs[d as int].len() as int, terms: ts@ },
                    ));
                }
            }
        }
        out
    }

    fn score(&self, m: &DocMatch, idf: &Vec<u64>) -> (r: u64)
        requires
            stats_ok(m.terms@, idf@.len() as int),
        ensures
            r == doc_score(
                self.cfg,
                idf@,
                m.terms@,
                relative_length(m.len as int, self.total_len as int, self.units@.len() as int),
                m.terms@.len(),
            ),
    {
        let docs: u64 = self.units.len() as u64;
        let rel: u128 = relative(m.len, self.total_len, docs);
        let mut s: u64 = 0;
        let most: usize = idf.len();
        for i in 0..m.terms.len()
            invariant
                    most == idf@.len(),
                rel as int == relative_length(m.len as int, self.total_len as int, docs as int),
                rel <= 0x4000_0000_0000_0000,
                stats_ok(m.terms@, idf@.len() as int),
                s == doc_score(self.cfg, idf@, m.terms@, rel as int, i as nat),
        {
            let t: TermStat = m.terms[i];
            let x: u64 = one_term(&self.cfg, idf[t.df as usize], t, rel);
            s = add_capped(s, x);
        }
        s
    }

    /// The top `k` documents for a query, best first, equal scores in
    /// document order. `idf[d]` is the weight `ln(1 + (n − d + 0.5) / (d +
    /// 0.5))` of a term that occurs in `d` of the `n` documents.
    pub fn search(&self, query: &str, k: usize, idf: &Vec<u64>) -> (r: Vec<BM25Hit>)
        requires
            self.wf(),
            idf@.len() > self.units@.len(),
        ensures
            ({
                let ms = matches_of(self.docs(), words(query@, 2, false), self.docs().len());
                let scores = match_scores(
                    self.cfg,
                    idf@,
                    ms,
                    self.total_len as int,
                    self.units@.len() as int,
                );
                let order = at_most(descending(scores, scores.len()), k as nat);
                &&& r@.len() == order.len()
                &&& r@.len() <= k
                &&& forall|i: int, j: int|
                    0 <= i < j < r@.len() ==> (#[trigger] r@[i]).score >= (#[trigger] r@[j]).score
                &&& forall|i: int|
                    0 <= i < r@.len() ==> (#[trigger] r@[i]).unit@ == self.units@[ms[order[i]].doc]@
                        && r@[i].score == scores[order[i]]
            }),
    {
        let found: Vec<DocMatch> = self.matches(query);
        let ghost ms = match_views(found@);
        let ghost scores = match_scores(
            self.cfg,
            idf@,
            ms,
            self.total_len as int,
            self.units@.len() as int,
        );
        proof {
            assert(self.docs().len() == self.units@.len());
        }
        let mut keys: Vec<i128> = Vec::new();
        for i in 0..found.len()
            invariant
                    ms == match_views(found@),
                forall|i: int|
                    0 <= i < found@.len() ==> stats_ok(
                        (#[trigger] found@[i]).terms@,
                        idf@.len() as int,
                    ),
                scores == match_scores(
                    self.cfg,
                    idf@,
                    ms,
                    self.total_len as int,
                    self.units@.len() as int,
                ),
                keys@.len() == i,
                forall|j: int| 0 <= j < i ==> #[trigger] keys@[j] as int == scores[j],
                forall|j: int| 0 <= j < i ==> 0 <= #[trigger] keys@[j] <= u64::MAX,
        {
            proof {
                assert(ms[i as int].terms == found@[i as int].terms@);
            }
            keys.push(self.score(&found[i], idf) as i128);
        }
        proof {
            assert(ints(keys@) =~= scores);
        }
        let order: Vec<usize> = descending_order(&keys);
        let ghost ord = indices(order@);
        let mut out: Vec<BM25Hit> = Vec::new();
        let mut i: usize = 0;
        while i < order.len() && i < k
            invariant
                i <= order@.len(),
                i <= k,
                ms == match_views(found@),
                self.docs().len() == self.units@.len(),
                self.terms@.len() == self.units@.len(),
                ord == indices(order@),
                keys@.len() == found@.len(),
                forall|j: int| 0 <= j < keys@.len() ==> #[trigger] keys@[j] as int == scores[j],
                forall|j: int| 0 <= j < keys@.len() ==> 0 <= #[trigger] keys@[j] <= u64::MAX,
                forall|j: int| 0 <= j < order@.len() ==> 0 <= #[trigger] order@[j] < keys@.len(),
                forall|i: int| 0 <= i < found@.len() ==> (#[trigger] found@[i]).doc < self.terms@.len(),
                out@.len() == i,
                forall|j: int|
                    0 <= j < i ==> (#[trigger] out@[j]).unit@ == self.units@[ms[ord[j]].doc]@
                        && out@[j].score == scores[ord[j]],
            decreases order@.len() - i,
        {
            let x: usize = order[i];
            let m: &DocMatch = &found[x];
            proof {
                assert(ms[x as int].doc == m.doc);
                assert(keys@[x as int] as int == scores[x as int]);
            }
            out.push(BM25Hit { unit: self.units[m.doc].clone(), score: keys[x] as u64 });
            i = i + 1;
        }
        proof {
            assert(at_most(ord, k as nat) =~= ord.take(i as int));
            law_descending(scores, scores.len());
            assert forall|a: int, b: int| 0 <= a < b < out@.len() implies (#[trigger] out@[a]).score
                >= (#[trigger] out@[b]).score by {
                assert(scores[ord[a]] >= scores[ord[b]]);
            }
        }
        out
    }
}

fn hold32(n: u64) -> (r: u64)
    ensures
        r as int == count32(n as int),
        r <= u32::MAX,
{
    if n > u32::MAX as u64 {
        u32::MAX as u64
    } else {
        n
    }
}

fn relative(len: u64, total: u64, docs: u64) -> (r: u128)
    ensures
        r as int == relative_length(len as int, total as int, docs as int),
        r <= 0x4000_0000_0000_0000,
{
    let l: u64 = hold32(len);
    let d: u64 = hold32(docs);
    proof {
        let x = l as int;
        let y = d as int;
        assert(0 <= x * y <= 0xffff_ffff * 0xffff_ffff) by (nonlinear_arith)
            requires
                0 <= x <= 0xffff_ffff,
                0 <= y <= 0xffff_ffff,
        ;
        let p = x * y;
        assert(p * ONE == p * 1_000_000_000);
        if total > docs {
            let t = total as int;
            assert(p * 1_000_000_000 <= (x * 1_000_000_000) * t) by (nonlinear_arith)
                requires
                    p == x * y,
                    0 <= y <= t,
                    x >= 0,
            ;
            let q = x * 1_000_000_000;
            let w = p * 1_000_000_000;
            assert(0 <= w / t <= q) by (nonlinear_arith)
                requires
                    0 <= w <= q * t,
                    t > 0,
            ;
        }
    }
    if total > docs {
        ((l as u128) * (d as u128) * (ONE as u128)) / (total as u128)
    } else {
        (l as u128) * (ONE as u128)
    }
}

/// A weight beyond which every quotient of the formula is zero.
const FAR: u128 = 0x7fff_ffff_ffff_ffff_ffff_ffff_ffff_ffff;

/// Whether `w` is the weight `x`, or both are beyond the limit.
spec fn weighs(w: int, x: int) -> bool {
    w == x || (w > FAR && x > FAR)
}

/// The product of two fixed-point numbers that are not negative, or some
/// number beyond the limit where it is beyond it.
fn mul_far(k: u64, y: u128) -> (r: u128)
    ensures
        weighs(r as int, fx_mul(k as int, y as int)),
        r <= FAR + 0x1_0000_0000_0000_0000,
{
    let one: u128 = ONE as u128;
    let q: u128 = y / one;
    let rest: u128 = y % one;
    proof {
        let a = k as int;
        let m = rest as int;
        let s = a * m;
        assert(0 <= s <= 0xffff_ffff_ffff_ffff * 1_000_000_000) by (nonlinear_arith)
            requires
                s == a * m,
                0 <= a <= 0xffff_ffff_ffff_ffff,
                0 <= m <= 1_000_000_000,
        ;
        let t = s / 1_000_000_000;
        let u = s % 1_000_000_000;
        let qq = q as int;
        assert(a * (y as int) == (a * qq + t) * 1_000_000_000 + u) by (nonlinear_arith)
            requires
                y as int == qq * 1_000_000_000 + m,
                s == a * m,
                s == t * 1_000_000_000 + u,
        ;
        lemma_fundamental_div_mod_converse(a * (y as int), 1_000_000_000, a * qq + t, u);
        assert(fx_mul(a, y as int) == a * qq + t);
        if k > 0 {
            let lim = FAR as int / a;
            if qq > lim {
                assert(a * qq > FAR) by (nonlinear_arith)
                    requires
                        a > 0,
                        lim == FAR as int / a,
                        qq >= lim + 1,
                ;
            } else {
                assert(0 <= a * qq <= FAR) by (nonlinear_arith)
                    requires
                        a > 0,
                        lim == FAR as int / a,
                        0 <= qq <= lim,
                ;
            }
        } else {
            assert(a * qq == 0) by (nonlinear_arith)
                requires
                    a == 0,
            ;
        }
    }
    if k > 0 && q > FAR / (k as u128) {
        return FAR + 1;
    }
    (k as u128) * q + ((k as u128) * rest) / one
}

fn weight_of(cfg: &BM25Config, tf: u64, rel: u128) -> (r: u128)
    requires
        tf <= u32::MAX,
        rel <= 0x4000_0000_0000_0000,
    ensures
        weighs(r as int, term_weight(*cfg, tf as int, rel as int)),
        r >= LEAST_WEIGHT,
{
    let one: u128 = ONE as u128;
    let b: u128 = cfg.b as u128;
    proof {
        let x = cfg.b as int;
        let y = rel as int;
        assert(0 <= x * y <= 0xffff_ffff_ffff_ffff * 0x4000_0000_0000_0000) by (nonlinear_arith)
            requires
                0 <= x <= 0xffff_ffff_ffff_ffff,
                0 <= y <= 0x4000_0000_0000_0000,
        ;
    }
    let scaled: u128 = (b * rel) / one;
    let base: u128 = (tf as u128) * one;
    let w: u128 = if one + scaled >= b {
        base + mul_far(cfg.k1, one + scaled - b)
    } else {
        let n: u128 = b - one - scaled;
        proof {
            let k = cfg.k1 as int;
            let m = n as int;
            assert(0 <= k * m <= 0xffff_ffff_ffff_ffff * 0xffff_ffff_ffff_ffff) by (nonlinear_arith)
                requires
                    0 <= k <= 0xffff_ffff_ffff_ffff,
                    0 <= m <= 0xffff_ffff_ffff_ffff,
            ;
            assert(k * (-m) == -(k * m)) by (nonlinear_arith);
            let p = k * m;
            let c = (p + 999_999_999) / 1_000_000_000;
            let u = c * 1_000_000_000 - p;
            assert(0 <= u < 1_000_000_000);
            lemma_fundamental_div_mod_converse(-p, 1_000_000_000, -c, u);
        }
        let down: u128 = ((cfg.k1 as u128) * n + (one - 1)) / one;
        if base > down {
            base - down
        } else {
            0
        }
    };
    if w < LEAST_WEIGHT as u128 {
        LEAST_WEIGHT as u128
    } else {
        w
    }
}

/// The product of a weight and a ratio, rounded down, as often as a term
/// occurs in the query.
fn weighted(idf: u64, ratio: u128, qtf: u64) -> (r: u64)
    requires
        qtf <= u32::MAX,
    ensures
        r == as_score(fx_mul(idf as int, ratio as int) * qtf),
{
    let one: u128 = ONE as u128;
    let ghost i = idf as int;
    let ghost x = ratio as int;
    let ghost f = fx_mul(i, x);
    proof {
        assert(i * x >= 0) by (nonlinear_arith)
            requires
                i >= 0,
                x >= 0,
        ;
        if qtf == 0 {
            assert(f * 0 == 0) by (nonlinear_arith);
        } else {
            let q = qtf as int;
            assert(f * q >= f) by (nonlinear_arith)
                requires
                    f >= 0,
                    q >= 1,
            ;
        }
        if ratio > 0 {
            let m = u128::MAX as int;
            let lim = m / x;
            if i > lim {
                assert(i * x > m) by (nonlinear_arith)
                    requires
                        x > 0,
                        lim == m / x,
                        i >= lim + 1,
                ;
            } else {
                assert(i * x <= m) by (nonlinear_arith)
                    requires
                        x > 0,
                        lim == m / x,
                        i <= lim,
                ;
            }
        } else {
            assert(i * 0 == 0) by (nonlinear_arith);
        }
    }
    if qtf == 0 {
        return 0;
    }
    if ratio > 0 && (idf as u128) > u128::MAX / ratio {
        return u64::MAX;
    }
    let base: u128 = ((idf as u128) * ratio) / one;
    if base > u64::MAX as u128 {
        return u64::MAX;
    }
    proof {
        let y = base as int;
        let q = qtf as int;
        assert(0 <= y * q <= 0xffff_ffff_ffff_ffff * 0xffff_ffff) by (nonlinear_arith)
            requires
                0 <= y <= 0xffff_ffff_ffff_ffff,
                0 <= q <= 0xffff_ffff,
        ;
    }
    let total: u128 = base * (qtf as u128);
    if total > u64::MAX as u128 {
        u64::MAX
    } else {
        total as u64
    }
}

fn one_term(cfg: &BM25Config, idf: u64, t: TermStat, rel: u128) -> (r: u64)
    requires
        rel <= 0x4000_0000_0000_0000,
    ensures
        r == as_score(term_score(*cfg, idf, t, rel as int)),
{
    let tf: u64 = hold32(t.tf);
    let qtf: u64 = hold32(t.qtf);
    let one: u128 = ONE as u128;
    let weight: u128 = weight_of(cfg, tf, rel);
    proof {
        let f = tf as int;
        let g = cfg.k1 + ONE;
        assert(0 <= f * g <= 0xffff_ffff * 0x1_0000_0000_4000_0000) by (nonlinear_arith)
            requires
                0 <= f <= 0xffff_ffff,
                0 <= g <= 0x1_0000_0000_4000_0000,
        ;
        let p = f * g * 1_000_000_000;
        let x = term_weight(*cfg, t.tf as int, rel as int);
        assert(x == term_weight(*cfg, f, rel as int));
        if weight != x {
            let w = weight as int;
            assert(p / x == 0 && p / w == 0) by (nonlinear_arith)
                requires
                    0 <= p < x,
                    p < w,
            ;
        }
    }
    let ratio: u128 = ((tf as u128) * (cfg.k1 as u128 + one) * one) / weight;
    weighted(idf, ratio, qtf)
}

proof fn lemma_total_prefix(a: Seq<Seq<Seq<char>>>, b: Seq<Seq<Seq<char>>>, n: nat)
    requires
        n <= a.len(),
        n <= b.len(),
        forall|i: int| 0 <= i < n ==> #[trigger] a[i] == b[i],
    ensures
        total_length(a, n) == total_length(b, n),
    decreases n,
{
    if n > 0 {
        lemma_total_prefix(a, b, (n - 1) as nat);
    }
}

/// A unit is indexed with its context: both its text and its context are
/// searched.
pub proof fn law_context_is_indexed(u: Unit)
    ensures
        begins(indexed_text(u), u.text),
        u.context matches Some(c) ==> ends(indexed_text(u), c) && indexed_text(u).len()
            == u.text.len() + 1 + c.len(),
        u.context is None ==> indexed_text(u) == u.text,
{
    reveal_strlit(" ");
    let t = indexed_text(u);
    assert(t.take(u.text.len() as int) =~= u.text);
    if u.context is Some {
        let c = u.context->0;
        assert(t.skip(t.len() - c.len()) =~= c);
    }
}

/// A document more raises the frequency of each word that it holds by one,
/// however often it holds it, and the total length by its own.
pub proof fn law_statistics_grow(docs: Seq<Seq<Seq<char>>>, d: Seq<Seq<char>>, t: Seq<char>)
    ensures
        d.contains(t) ==> doc_frequency(docs.push(d), docs.len() + 1, t) == doc_frequency(
            docs,
            docs.len(),
            t,
        ) + 1,
        !d.contains(t) ==> doc_frequency(docs.push(d), docs.len() + 1, t) == doc_frequency(
            docs,
            docs.len(),
            t,
        ),
        doc_frequency(docs, docs.len(), t) <= docs.len(),
        total_length(docs.push(d), docs.len() + 1) == total_length(docs, docs.len()) + d.len(),
{
    law_occurrences_count(d, seq![], t);
    lemma_statistics_prefix(docs, d, t, docs.len());
    lemma_total_prefix(docs, docs.push(d), docs.len());
}

proof fn lemma_statistics_prefix(
    docs: Seq<Seq<Seq<char>>>,
    d: Seq<Seq<char>>,
    t: Seq<char>,
    n: nat,
)
    requires
        n <= docs.len(),
    ensures
        doc_frequency(docs.push(d), n, t) == doc_frequency(docs, n, t),
        doc_frequency(docs, n, t) <= n,
    decreases n,
{
    if n > 0 {
        lemma_statistics_prefix(docs, d, t, (n - 1) as nat);
    }
}

} // verus!
