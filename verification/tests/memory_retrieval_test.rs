use agentrust::ambient::Timestamp;
use agentrust::fixed::ONE;
use agentrust::memory::fusion::{rank_term, SCORE_ONE};
use agentrust::memory::graph_retrieval::{expand as graph_expand, Expansion};
use agentrust::memory::model::{Budget, FactType, MemoryUnit};
use agentrust::memory::{
    normalize_on_delta, reciprocal_rank_fusion, BM25Config, BM25Index, GraphConfig, HeuristicReranker,
    RecallEngine, RecallHit, RecallRequest, RerankerConfig, TagMatch, DEFAULT_RRF_K,
};

const T: i64 = 1_700_000_000;
const DAY: i64 = 86_400;

fn at(secs: i64) -> Timestamp {
    Timestamp { secs, nanos: 0 }
}

fn unit(text: &str) -> MemoryUnit {
    MemoryUnit::new("test", text, FactType::Experience)
}

fn named(id: &str) -> MemoryUnit {
    MemoryUnit::new_at("test", id, FactType::World, id.to_string(), at(T))
}

/// The weight of a term by the number of documents it occurs in.
fn idf(n: usize) -> Vec<u64> {
    let n = n as f64;
    let mut v = Vec::new();
    let mut d = 0.0;
    while d <= n {
        v.push(((1.0 + (n - d + 0.5) / (d + 0.5)).ln() * 1e9) as u64);
        d += 1.0;
    }
    v
}

fn texts(hits: &Vec<RecallHit>) -> Vec<String> {
    hits.iter().map(|h| h.unit.text.clone()).collect()
}

fn strings(v: &[&str]) -> Vec<String> {
    v.iter().map(|s| s.to_string()).collect()
}

// Word search

#[test]
fn empty_index_returns_empty() {
    let idx = BM25Index::new();
    assert!(idx.search("anything", 5, &idf(0)).is_empty());
    assert!(idx.is_empty());
}

#[test]
fn ranks_more_relevant_higher() {
    let mut idx = BM25Index::new();
    idx.build(&[
        unit("apple banana cherry"),
        unit("banana cherry date"),
        unit("zebra cherry"),
    ]);
    let hits = idx.search("apple banana", 3, &idf(3));
    assert!(!hits.is_empty());
    assert!(hits[0].unit.text.starts_with("apple"));
}

#[test]
fn missing_terms_return_zero_hits() {
    let mut idx = BM25Index::new();
    idx.build(&[unit("apple")]);
    assert!(idx.search("xenon", 5, &idf(1)).is_empty());
}

#[test]
fn bm25_index_ranks_query_matching_text_highest() {
    let mut idx = BM25Index::new();
    idx.build(&[
        unit("the quick brown fox jumps over the lazy dog"),
        unit("rusty old fox in a cage"),
        unit("a python script for parsing logs"),
    ]);
    let hits = idx.search("fox", 3, &idf(3));
    assert!(!hits.is_empty());
    assert!(hits[0].unit.text.contains("fox"));
    assert_eq!(hits.len(), 2);
    assert!(hits[0].unit.text.starts_with("rusty"));
}

#[test]
fn bm25_score_of_one_document() {
    let mut idx = BM25Index::new();
    idx.build(&[unit("apple")]);
    let hits = idx.search("apple", 5, &vec![0, ONE]);
    // one occurrence in a text of average length: the weight itself
    assert_eq!(hits[0].score, ONE);
    assert_eq!(idx.average_length(), (1, 1));
}

#[test]
fn context_is_indexed() {
    let mut u = unit("apple");
    u.context = Some("orchard notes".to_string());
    let mut idx = BM25Index::new();
    idx.build(&[u, unit("pear")]);
    let m = idx.matches("orchard");
    assert_eq!(m.len(), 1);
    assert_eq!(m[0].doc, 0);
    assert_eq!(m[0].len, 3);
    assert_eq!((m[0].terms[0].tf, m[0].terms[0].df, m[0].terms[0].qtf), (1, 1, 1));
    assert_eq!(idx.len(), 2);
}

#[test]
fn search_returns_at_most_k() {
    let mut idx = BM25Index::new();
    idx.build(&[unit("fox one"), unit("fox two"), unit("fox three")]);
    assert_eq!(idx.search("fox", 2, &idf(3)).len(), 2);
    assert!(idx.search("fox", 0, &idf(3)).is_empty());
    assert!(idx.search("", 2, &idf(3)).is_empty());
}

// Fusion

#[test]
fn fusion_prefers_top_of_every_list() {
    let l1 = strings(&["a", "b", "c"]);
    let l2 = strings(&["a", "x", "y"]);
    let merged = reciprocal_rank_fusion(&[&l1, &l2], DEFAULT_RRF_K);
    assert_eq!(merged[0].0, "a");
}

#[test]
fn rrf_fusion_merges_three_lists_consistently() {
    let semantic = strings(&["a", "b", "c"]);
    let bm25 = strings(&["b", "a", "d"]);
    let graph = strings(&["a", "d", "e"]);

    let merged = reciprocal_rank_fusion(&[&semantic, &bm25, &graph], 60 * ONE);
    assert_eq!(merged[0].0, "a");
    assert_eq!(merged[1].0, "b");
}

#[test]
fn fused_scores_are_sums_of_rank_terms() {
    let l1 = strings(&["a", "b"]);
    let l2 = strings(&["b"]);
    let merged = reciprocal_rank_fusion(&[&l1, &l2], DEFAULT_RRF_K);
    // 1 / 61 and 1 / 62, rounded down
    assert_eq!(rank_term(DEFAULT_RRF_K, 1), 16_393_442_622_950);
    assert_eq!(rank_term(DEFAULT_RRF_K, 2), 16_129_032_258_064);
    assert_eq!(merged[0], ("b".to_string(), 16_393_442_622_950 + 16_129_032_258_064));
    assert_eq!(merged[1], ("a".to_string(), 16_393_442_622_950));
}

#[test]
fn normalize_collapses_when_constant() {
    let mut v = vec![3 * SCORE_ONE, 3 * SCORE_ONE, 3 * SCORE_ONE];
    normalize_on_delta(&mut v);
    assert!(v.iter().all(|&x| x == SCORE_ONE / 2));
}

#[test]
fn normalize_extremes_become_0_and_1() {
    let mut v = vec![SCORE_ONE, 2 * SCORE_ONE, 3 * SCORE_ONE];
    normalize_on_delta(&mut v);
    assert_eq!(v[0], 0);
    assert_eq!(v[1], SCORE_ONE / 2);
    assert_eq!(v[2], SCORE_ONE);
}

// Graph

type Links = Vec<(String, Vec<(String, i64)>)>;

fn links(edges: &[(&str, &[(&str, i64)])]) -> Links {
    edges
        .iter()
        .map(|(a, to)| {
            (a.to_string(), to.iter().map(|(b, w)| (b.to_string(), *w)).collect())
        })
        .collect()
}

const UNIT: i64 = 1_000_000_000;

#[test]
fn no_seeds_returns_empty() {
    let cfg = GraphConfig::default();
    let hits = graph_expand(&vec![], cfg, 10, &links(&[]));
    assert!(hits.is_empty());
}

#[test]
fn spreads_two_hops_with_decay() {
    let adj = links(&[
        ("a", &[("b", UNIT)]),
        ("b", &[("c", UNIT)]),
        ("c", &[("d", UNIT)]),
    ]);
    let cfg = GraphConfig::default();
    let hits = graph_expand(&vec![("a".into(), UNIT)], cfg, 10, &adj);
    let ids: Vec<&str> = hits.iter().map(|h| h.unit_id.as_str()).collect();
    assert!(ids.contains(&"b"));
    assert!(ids.contains(&"c"));
    assert!(!ids.contains(&"d"));
}

#[test]
fn keeps_best_path_when_multiple_paths_exist() {
    let adj = links(&[
        ("a", &[("b", UNIT), ("c", UNIT)]),
        ("b", &[("c", UNIT / 10)]),
    ]);
    let cfg = GraphConfig { hop_decay: UNIT / 2, max_hops: 3 };
    let hits = graph_expand(&vec![("a".into(), UNIT)], cfg, 10, &adj);
    let c_hit = hits.iter().find(|h| h.unit_id == "c").expect("c reached");
    assert_eq!(c_hit.activation, UNIT / 2);
}

#[test]
fn graph_spreading_visits_two_hops_with_decay() {
    let adj = links(&[
        ("seed", &[("hop1", UNIT)]),
        ("hop1", &[("hop2", UNIT)]),
        ("hop2", &[("hop3", UNIT)]),
    ]);
    let hits = graph_expand(
        &vec![("seed".into(), UNIT)],
        GraphConfig { hop_decay: UNIT / 2, max_hops: 2 },
        10,
        &adj,
    );
    let ids: Vec<&str> = hits.iter().map(|h| h.unit_id.as_str()).collect();
    assert!(ids.contains(&"hop1"));
    assert!(ids.contains(&"hop2"));
    assert!(!ids.contains(&"hop3"), "hop3 is depth 3, must be excluded");
    let hop1_act = hits.iter().find(|h| h.unit_id == "hop1").unwrap().activation;
    let hop2_act = hits.iter().find(|h| h.unit_id == "hop2").unwrap().activation;
    assert!(hop1_act > hop2_act);
    assert_eq!(hop1_act, UNIT / 2);
    assert_eq!(hop2_act, UNIT / 4);
}

#[test]
fn no_hops_give_no_hits() {
    let adj = links(&[("a", &[("b", UNIT)])]);
    let cfg = GraphConfig { hop_decay: UNIT / 2, max_hops: 0 };
    assert!(graph_expand(&vec![("a".into(), UNIT)], cfg, 10, &adj).is_empty());
}

#[test]
fn an_expansion_asks_for_neighbours_step_by_step() {
    let cfg = GraphConfig { hop_decay: UNIT / 2, max_hops: 1 };
    let mut x = Expansion::start(&vec![("a".into(), UNIT)], cfg);
    assert_eq!(x.wanted(), Some("a".to_string()));
    x.feed(&vec![("b".into(), UNIT), ("c".into(), UNIT / 2)]);
    assert_eq!(x.wanted(), None);
    let hits = x.hits(1);
    assert_eq!(hits.len(), 1);
    assert_eq!(hits[0].unit_id, "b");
}

// Reranking

fn hit(text: &str, age_days: i64, raw: u64) -> RecallHit {
    let mut u = unit(text);
    u.event_date = Some(at(T - age_days * DAY));
    u.occurred_start = u.event_date;
    u.mentioned_at = u.event_date.unwrap();
    RecallHit { unit: u, score: raw, semantic_rank: None, bm25_rank: None, graph_rank: None }
}

fn rerank(r: &HeuristicReranker, hits: Vec<RecallHit>) -> Vec<RecallHit> {
    let half_life = r.config().recency_halflife_sec as f64;
    let recency: Vec<u64> = r
        .ages(&hits, at(T))
        .iter()
        .map(|a| ((-(*a as f64) / half_life).exp() * SCORE_ONE as f64) as u64)
        .collect();
    let closeness = r.undated(hits.len());
    r.rerank(hits, &recency, &closeness)
}

#[test]
fn fresh_hit_beats_stale_hit_when_rrf_is_tied() {
    let hits = vec![hit("old", 365, SCORE_ONE), hit("fresh", 1, SCORE_ONE)];
    let r = HeuristicReranker::new();
    let hits = rerank(&r, hits);
    assert_eq!(hits[0].unit.text, "fresh");
}

#[test]
fn higher_rrf_wins_when_age_matches() {
    let hits = vec![hit("a", 5, SCORE_ONE / 10), hit("b", 5, SCORE_ONE / 10 * 9)];
    let r = HeuristicReranker::new();
    let hits = rerank(&r, hits);
    assert_eq!(hits[0].unit.text, "b");
}

#[test]
fn weights_sum_to_one_by_default() {
    let c = RerankerConfig::default();
    assert_eq!(c.w_rrf + c.w_rec + c.w_tmp, ONE);
}

#[test]
fn weights_sum_invariant() {
    let c = RerankerConfig::default();
    let sum = c.w_rrf + c.w_rec + c.w_tmp;
    assert_eq!(sum, ONE);
}

#[test]
fn heuristic_reranker_blends_rrf_recency_temporal() {
    let hits = vec![
        hit("weak old", 365, SCORE_ONE / 10),
        hit("medium mid", 30, SCORE_ONE / 2),
        hit("strong fresh", 1, SCORE_ONE / 10 * 9),
    ];
    let r = HeuristicReranker::with_config(RerankerConfig::default());
    let hits = rerank(&r, hits);
    assert_eq!(hits[0].unit.text, "strong fresh");
    assert_eq!(hits.last().unwrap().unit.text, "weak old");
}

#[test]
fn a_blend_has_its_exact_value() {
    let r = HeuristicReranker::new();
    let hits = vec![hit("a", 0, SCORE_ONE), hit("b", 0, 0)];
    let full = vec![SCORE_ONE, SCORE_ONE];
    let half = r.undated(2);
    let hits = r.rerank(hits, &full, &half);
    // 0.55 + 0.20 + 0.25 / 2, and the same without the first
    assert_eq!(hits[0].score, 875_000_000_000_000);
    assert_eq!(hits[1].score, 325_000_000_000_000);
}

#[test]
fn ages_and_gaps_are_in_seconds() {
    let r = HeuristicReranker::new();
    let hits = vec![hit("a", 2, 0), hit("b", -3, 0)];
    assert_eq!(r.ages(&hits, at(T)), vec![2 * 86_400, 0]);
    assert_eq!(r.gaps(&hits, at(T)), vec![2 * 86_400, 3 * 86_400]);
}

// Recall

#[test]
fn fusing_the_arms_keeps_the_ranks() {
    let e = RecallEngine::new();
    let hits = e.fuse(
        &vec![named("a"), named("b")],
        &vec![named("b")],
        &vec![named("c")],
    );
    assert_eq!(texts(&hits), strings(&["b", "a", "c"]));
    assert_eq!(hits[0].semantic_rank, Some(2));
    assert_eq!(hits[0].bm25_rank, Some(1));
    assert_eq!(hits[0].graph_rank, None);
    assert_eq!(hits[2].graph_rank, Some(1));
    assert_eq!(hits[2].score, 16_393_442_622_950);
}

#[test]
fn age_and_support_weigh_hits() {
    let e = RecallEngine::new();
    let mut old = hit("old", 365, SCORE_ONE);
    old.unit.proof_count = 0;
    let mut supported = hit("supported", 0, SCORE_ONE);
    supported.unit.proof_count = 3;
    let hits = e.boost_hits(vec![old, supported], at(T));
    assert_eq!(texts(&hits), strings(&["supported", "old"]));
    // 1 + 0.1 * 2.5, and half of 1 - 0.1 * 0.5
    assert_eq!(hits[0].score, 1_250_000_000_000_000);
    assert_eq!(hits[1].score, 475_000_000_000_000);
}

#[test]
fn a_reranker_takes_the_place_of_the_boost() {
    let plain = RecallEngine::new();
    let blended = RecallEngine::new().with_reranker(HeuristicReranker::new());
    assert!(!plain.has_reranker());
    assert!(blended.has_reranker());
    let hits = vec![hit("a", 0, SCORE_ONE)];
    let one = vec![SCORE_ONE];
    let a = plain.rescore(hits.clone(), &one, &one, at(T));
    let b = blended.rescore(hits, &one, &one, at(T));
    assert_eq!(a[0].score, 950_000_000_000_000);
    assert_eq!(b[0].score, 725_000_000_000_000);
}

#[test]
fn a_cap_keeps_the_first_hit() {
    let e = RecallEngine::new();
    let hits = vec![hit("aaaaa", 0, 3), hit("bb", 0, 2), hit("cc", 0, 1)];
    assert_eq!(e.cap(hits.clone(), None).results.len(), 3);
    assert_eq!(e.cap(hits.clone(), Some(1)).results.len(), 1);
    assert_eq!(e.cap(hits.clone(), Some(7)).results.len(), 2);
    // characters count, not bytes
    let wide = vec![hit("ääääa", 0, 3), hit("bb", 0, 2)];
    assert_eq!(e.cap(wide, Some(7)).results.len(), 2);
}

#[test]
fn one_hop_sums_what_seeds_pass_on() {
    let e = RecallEngine::new();
    let seeds = vec![("a".to_string(), UNIT), ("b".to_string(), UNIT / 2)];
    let links = vec![
        vec![("c".to_string(), UNIT / 2), ("d".to_string(), UNIT / 4)],
        vec![("d".to_string(), UNIT)],
    ];
    let hits = e.one_hop(&seeds, &links, 5);
    assert_eq!(hits, vec![("d".to_string(), 750_000_000), ("c".to_string(), 500_000_000)]);
    assert_eq!(e.one_hop(&seeds, &links, 1).len(), 1);
}

#[test]
fn the_first_twenty_units_are_seeds() {
    let e = RecallEngine::new();
    let units: Vec<MemoryUnit> = (0..25).map(|i| named(&format!("u{}", i))).collect();
    let scores: Vec<i64> = (0..25).collect();
    let seeds = e.graph_seeds(&units, &scores);
    assert_eq!(seeds.len(), 20);
    assert_eq!(seeds[19], ("u19".to_string(), 19));
}

#[test]
fn arms_are_limited_by_the_budget() {
    let e = RecallEngine::new();
    assert_eq!(e.arm_limit(Budget::Low), 100);
    assert_eq!(e.arm_limit(Budget::Mid), 300);
    assert_eq!(e.arm_limit(Budget::High), 500);
    assert_eq!(e.graph_hops(), 1);
    assert_eq!(RecallEngine::new().with_graph_hops(0).graph_hops(), 1);
    assert_eq!(RecallEngine::new().with_graph_hops(2).graph_hops(), 2);
    assert!(e.graph_config().is_none());
    let deep = RecallEngine::new().with_graph_hops(2).graph_config().unwrap();
    assert_eq!((deep.hop_decay, deep.max_hops), (UNIT / 2, 2));
    assert!(e.has_query(" x "));
    assert!(!e.has_query(" \t"));
}

#[test]
fn what_tops_every_list_wins() {
    let l1 = strings(&["z", "a", "b"]);
    let l2 = strings(&["z", "b", "a"]);
    let l3 = strings(&["z"]);
    let merged = reciprocal_rank_fusion(&[&l1, &l2, &l3], u64::MAX);
    assert_eq!(merged[0].0, "z");
    let merged = reciprocal_rank_fusion(&[&l1, &l2, &l3], 0);
    assert_eq!(merged[0], ("z".to_string(), 3_000_000_000_000_000));
}

#[test]
fn every_hit_is_what_was_asked_for() {
    let mut wanted = named("a");
    wanted.tags = strings(&["x"]);
    let mut other = named("b");
    other.tags = strings(&["y"]);
    let mut past = named("c");
    past.tags = strings(&["x"]);
    past.fact_type = FactType::Experience;
    let req = RecallRequest {
        tags: strings(&["x"]),
        tag_match: TagMatch::AnyStrict,
        fact_types: vec![FactType::World],
        ..RecallRequest::default()
    };
    let hits = RecallEngine::new().gather(
        &req,
        &vec![wanted.clone()],
        &vec![wanted.clone()],
        &vec![wanted.clone(), other, past],
    );
    assert_eq!(texts(&hits), strings(&["a"]));
}

#[test]
fn the_strongest_walk_counts() {
    let adj = links(&[
        ("a", &[("b", UNIT / 10), ("c", UNIT)]),
        ("c", &[("b", UNIT)]),
    ]);
    let cfg = GraphConfig { hop_decay: UNIT / 2, max_hops: 2 };
    let hits = graph_expand(&vec![("a".into(), UNIT)], cfg, 10, &adj);
    let b = hits.iter().find(|h| h.unit_id == "b").expect("b reached");
    assert_eq!(b.activation, UNIT / 4);
}

#[test]
fn any_parameters_rank() {
    let one = vec![unit("red"), unit("red blue green grey")];
    let search = |k1: u64, b: u64| -> Vec<u64> {
        let mut idx = BM25Index::with_config(BM25Config { k1, b });
        idx.build(&one);
        idx.search("red", 5, &vec![0, ONE, ONE]).iter().map(|h| h.score).collect()
    };
    // Relative lengths 0.4 and 1.6: 1 + 1 * (1 - 2 + 2 * rel) is 0.8 and 3.2.
    assert_eq!(search(ONE, 2 * ONE), vec![2_500_000_000, 625_000_000]);
    // A denominator below a millionth counts as one: (4 + 1) / 1e-6.
    assert_eq!(search(4 * ONE, 4 * ONE)[0], 5_000_000 * ONE);
    // With neither parameter, each document scores the weight.
    assert_eq!(search(0, 0), vec![ONE, ONE]);
    assert_eq!(search(u64::MAX, u64::MAX).len(), 2);
}
