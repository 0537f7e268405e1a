use agentrust::ambient::Timestamp;
use agentrust::fixed::{HALF, ONE};
use agentrust::memory::consolidate::{Change, Start};
use agentrust::memory::embed::{
    check_embeddings, count_buckets, embeddings_url, features, EmbeddingError,
};
use agentrust::memory::history::{
    entries_of, history_item, history_type_from_tag, history_type_tag, unit_to_history_entry,
};
use agentrust::memory::llm::{consolidation_request, strip_code_fence, worth_extracting};
use agentrust::memory::manager::{
    bank_or_default, database_path, important_memories, item_of_entry, memories_of_type,
    search_request, show_units, status_of,
};
use agentrust::memory::retain::{plan_writes, prepare_fact, prepare_item, PreparedUnit};
use agentrust::memory::session::{document_info, document_of, item_of_message, session_from};
use agentrust::memory::storage::{
    blob_to_embedding, embedding_to_blob, filter_hits, parse_opt_dt, rank_units,
    sanitize_fts_query, stored_dt, tags_match,
};
use agentrust::memory::{
    Bank, Budget, ConsolidatedObservation, ConsolidationConfig, ConsolidationDecision,
    ConsolidationEngine, Document, Entity, ExtractedEntity, ExtractedFact, FactType, HashEmbedder,
    HistoryEntry, HistoryFilter, HistoryManager, HistoryType, LinkType, MemoryConfig, MemoryEntry,
    MemoryType, MemoryUnit, NoopLlm, RetainEngine, RetainItem, Session, SessionManager, SessionStatus,
    StorageBackend, TagMatch,
};
use agentrust::metacognition::self_model_memory_adapter::{
    load, proposition_to_entry, unit_to_proposition,
};
use agentrust::metacognition::{SelfModelStore, SelfProposition, SELFPROP_TAG};

fn at(secs: i64) -> Timestamp {
    Timestamp { secs, nanos: 0 }
}

fn some(s: &str) -> Option<String> {
    Some(s.to_string())
}

fn strings(v: &[&str]) -> Vec<String> {
    v.iter().map(|s| s.to_string()).collect()
}

fn unit(id: &str, text: &str) -> MemoryUnit {
    MemoryUnit::new_at("b", text, FactType::Experience, id.to_string(), at(100))
}

fn tagged(id: &str, tags: &[&str]) -> MemoryUnit {
    let mut u = unit(id, id);
    u.tags = strings(tags);
    u
}

fn stored(item: &RetainItem) -> MemoryUnit {
    prepare_item("b", item, &None).remove(0).unit
}

// Model

#[test]
fn names_of_types() {
    assert_eq!(FactType::World.as_str(), "world");
    assert_eq!(FactType::from_str("observation"), Some(FactType::Observation));
    assert_eq!(FactType::from_str("x"), None);
    assert_eq!(LinkType::Semantic.as_str(), "semantic");
    assert_eq!(LinkType::from_str("entity"), Some(LinkType::Entity));
    assert_eq!(LinkType::from_str("x"), None);
    assert_eq!(MemoryType::from_tag("insight"), Some(MemoryType::Insight));
    assert_eq!(MemoryType::from_tag("x"), None);
    assert_eq!(MemoryType::Insight.fact_type(), FactType::Observation);
    assert_eq!(MemoryType::Knowledge.fact_type(), FactType::World);
    assert_eq!(Budget::High.per_arm(), 1000);
}

#[test]
fn fresh_values_have_fresh_identifiers() {
    let a = MemoryUnit::new("b", "x", FactType::World);
    let b = MemoryUnit::new("b", "x", FactType::World);
    assert_ne!(a.id, b.id);
    assert!(a.created_at.secs > 1_600_000_000);
    assert_eq!(Entity::new("b", "Ada", None).id.len(), 36);
    assert_eq!(Bank::new("b").bank_id, "b");
    assert_eq!(Document::new("d", "b").id, "d");
}

#[test]
fn an_entry_survives_being_stored() {
    let e = MemoryEntry::new(MemoryType::Preference, "likes tea")
        .with_importance(750_000_000)
        .with_tags(strings(&["drinks"]))
        .with_metadata("source", "\"chat\"")
        .with_metadata("turn", "3");
    let u = e.clone().into_unit("b");
    assert_eq!(u.metadata.get("importance"), Some(&"0.75".to_string()));
    assert_eq!(u.tags, strings(&["drinks", "type:preference"]));
    let back = MemoryEntry::from_unit(&u);
    assert_eq!(back.id, e.id);
    assert_eq!(back.memory_type, MemoryType::Preference);
    assert_eq!(back.importance, 750_000_000);
    assert_eq!(back.tags, strings(&["drinks"]));
    assert_eq!(back.metadata.get("source"), Some(&"\"chat\"".to_string()));
    assert_eq!(back.metadata.get("turn"), Some(&"3".to_string()));
}

#[test]
fn importance_is_clamped() {
    assert_eq!(MemoryEntry::new(MemoryType::Task, "x").importance, HALF);
    assert_eq!(MemoryEntry::new(MemoryType::Task, "x").with_importance(5 * ONE).importance, ONE);
}

// Storage

#[test]
fn tags_are_matched_in_four_modes() {
    let none: Vec<String> = vec![];
    let ab = strings(&["a", "b"]);
    let a = strings(&["a"]);
    assert!(tags_match(&none, &ab, TagMatch::Any));
    assert!(!tags_match(&none, &ab, TagMatch::AnyStrict));
    assert!(tags_match(&a, &ab, TagMatch::Any));
    assert!(tags_match(&a, &ab, TagMatch::AnyStrict));
    assert!(!tags_match(&a, &ab, TagMatch::All));
    assert!(tags_match(&ab, &a, TagMatch::AllStrict));
    assert!(!tags_match(&none, &a, TagMatch::AllStrict));
    assert!(tags_match(&none, &none, TagMatch::AllStrict));
}

#[test]
fn search_expressions_are_quoted() {
    assert_eq!(sanitize_fts_query("don't panic! panic"), "\"dont\" OR \"panic\"");
    assert_eq!(sanitize_fts_query("a_b --- c"), "\"a_b\" OR \"c\"");
    assert_eq!(sanitize_fts_query(" !? "), "\"\"");
    assert_eq!(sanitize_fts_query("a b a"), "\"a\" OR \"b\" OR \"a\"");
}

#[test]
fn embeddings_survive_being_stored() {
    let v: Vec<u32> = vec![1.5f32.to_bits(), (-0.25f32).to_bits()];
    let blob = embedding_to_blob(&v);
    assert_eq!(&blob[..4], &1.5f32.to_le_bytes());
    assert_eq!(blob_to_embedding(&blob), v);
    assert_eq!(blob_to_embedding(&vec![0, 0, 128, 63, 7]), vec![1.0f32.to_bits()]);
}

#[test]
fn times_survive_being_stored() {
    let t = Timestamp { secs: 1_700_000_000, nanos: 123_456_789 };
    let s = stored_dt(t);
    assert_eq!(s, "2023-11-14T22:13:20.123456789+00:00");
    assert_eq!(parse_opt_dt(&Some(s)), Some(t));
    assert_eq!(parse_opt_dt(&some("2023-11-14T23:13:20+01:00")), Some(at(1_700_000_000)));
    assert_eq!(parse_opt_dt(&some("yesterday")), None);
    assert_eq!(parse_opt_dt(&None), None);
}

#[test]
fn units_are_ranked_by_score() {
    let units = vec![tagged("a", &["x"]), tagged("b", &[]), tagged("c", &["y"])];
    let scores = vec![1, 5, 9];
    let x = strings(&["x"]);
    assert_eq!(rank_units(&units, &scores, &[], &[], TagMatch::Any, 10), vec![2, 1, 0]);
    assert_eq!(rank_units(&units, &scores, &[], &x, TagMatch::Any, 10), vec![1, 0]);
    assert!(rank_units(&units, &scores, &[FactType::World], &[], TagMatch::Any, 10).is_empty());
    assert_eq!(rank_units(&units, &scores, &[], &[], TagMatch::Any, 1), vec![2]);
    assert_eq!(filter_hits(&units, &[], &x, TagMatch::AnyStrict, 10), vec![0]);
}

// Retain

fn fact(text: &str, entities: &[&str]) -> ExtractedFact {
    ExtractedFact {
        text: text.to_string(),
        fact_type: "experience".to_string(),
        entities: entities
            .iter()
            .map(|e| ExtractedEntity { text: e.to_string(), entity_type: None })
            .collect(),
        when: some("today"),
        where_: some("home"),
        who: None,
    }
}

#[test]
fn a_raw_item_becomes_one_unit() {
    let item = RetainItem {
        content: "ran".to_string(),
        timestamp: Some(at(5)),
        document_id: some("d"),
        raw_fact_type: Some(FactType::World),
        ..RetainItem::default()
    };
    assert!(!item.needs_extraction());
    let p = prepare_item("b", &item, &Some(vec![fact("ignored", &[])]));
    assert_eq!(p.len(), 1);
    assert_eq!(p[0].unit.text, "ran");
    assert_eq!(p[0].unit.fact_type, FactType::World);
    assert_eq!(p[0].unit.mentioned_at, at(5));
}

#[test]
fn nothing_is_dropped_when_no_fact_is_found() {
    let item = RetainItem { content: "mumble".to_string(), ..RetainItem::default() };
    assert!(item.needs_extraction());
    for facts in [None, Some(vec![])] {
        let p = prepare_item("b", &item, &facts);
        assert_eq!(p.len(), 1);
        assert_eq!(p[0].unit.text, "mumble");
        assert_eq!(p[0].unit.fact_type, FactType::Experience);
    }
}

#[test]
fn facts_become_units() {
    let item = RetainItem { content: "c".to_string(), ..RetainItem::default() };
    let p = prepare_fact("b", &item, &fact("Ada ran", &[" Ada ", " "]), "i".to_string(), at(7));
    assert_eq!(p.unit.text, "Ada ran");
    assert_eq!(p.unit.context, some("home"));
    assert_eq!(p.unit.metadata.get("when"), Some(&"today".to_string()));
    assert_eq!(p.unit.metadata.get("who"), None);
    assert_eq!(p.unit.mentioned_at, at(7));
    assert_eq!(p.entities.len(), 1);
    assert_eq!(p.entities[0].canonical, "Ada");
    let all = prepare_item("b", &item, &Some(vec![fact("one", &[]), fact("two", &[])]));
    assert_eq!(all.len(), 2);
    assert_ne!(all[0].unit.id, all[1].unit.id);
}

fn prepared(id: &str, doc: Option<String>, entities: &[&str]) -> PreparedUnit {
    let item = RetainItem { document_id: doc, ..RetainItem::default() };
    prepare_fact("b", &item, &fact(id, entities), id.to_string(), at(0))
}

#[test]
fn links_are_planned_in_order() {
    let e = RetainEngine::new();
    let batch = vec![prepared("a", some("d"), &["Ada"]), prepared("b", some("d"), &["Ada"])];
    let mut old = unit("old", "x");
    old.embedding = vec![1];
    let bare = unit("bare", "x");
    let one = 1_000_000_000;
    let links = e.plan_links(
        &batch,
        &vec![vec![one, 600_000_000], vec![600_000_000, one]],
        &vec![old, bare],
        &vec![vec![550_000_000, one], vec![549_999_999, one]],
    );
    let shown: Vec<(String, String, LinkType, i64)> = links
        .iter()
        .map(|l| (l.from_unit_id.clone(), l.to_unit_id.clone(), l.link_type, l.weight))
        .collect();
    let l = |a: &str, b: &str, t: LinkType, w: i64| (a.to_string(), b.to_string(), t, w);
    assert_eq!(
        shown,
        vec![
            l("a", "b", LinkType::Temporal, one),
            l("a", "b", LinkType::Semantic, 600_000_000),
            l("a", "old", LinkType::Semantic, 550_000_000),
            l("a", "b", LinkType::Entity, 330_000_000),
        ]
    );
    let writes = plan_writes(&batch);
    assert_eq!(writes.documents, strings(&["d"]));
    assert_eq!(writes.unit_ids, strings(&["a", "b"]));
    assert_eq!(writes.mentions.len(), 2);
    let r = e.result(writes, &links);
    assert_eq!(r.linked_entities, 2);
    assert_eq!(r.created_links, 4);
}

// Consolidation

fn consolidation() -> ConsolidationEngine {
    ConsolidationEngine::new(ConsolidationConfig::default())
}

#[test]
fn consolidated_memories_are_left_out() {
    let e = consolidation();
    let w = unit("w", "world");
    let x = unit("x", "experience");
    let done = e.mark_unit(unit("d", "done"), at(1_700_000_000));
    assert_eq!(
        done.metadata.get("consolidated_at"),
        Some(&"2023-11-14T22:13:20+00:00".to_string())
    );
    let s = e.select_sources(&vec![w, done], &vec![x]);
    assert_eq!(s.len(), 2);
    assert_eq!(e.merged_query(&s), "world\nexperience");
    assert_eq!(e.pairs(&s)[0], ("w".to_string(), "world".to_string()));
    assert!(!e.should_consolidate(9_999));
    assert!(e.should_consolidate(10_000));
}

#[test]
fn similar_memories_are_grouped() {
    let e = consolidation();
    let mut a = unit("a", "tea");
    a.tags = strings(&["t"]);
    let mut b = unit("b", "green tea");
    b.tags = strings(&["t", "u"]);
    let c = unit("c", "coffee");
    let one = 1_000_000_000;
    let sim = vec![
        vec![one, 700_000_000, 0],
        vec![700_000_000, one, one],
        vec![0, one, one],
    ];
    let sources = vec![a, b, c];
    let d = e.settle(ConsolidationDecision::default(), "noop", &sources, &sim);
    assert_eq!(d.creates.len(), e.fallback_decision(&sources, &sim).creates.len());
    assert_eq!(d.creates.len(), 1);
    assert_eq!(d.creates[0].text, "Pattern across 2 memories: tea; green tea");
    assert_eq!(d.creates[0].source_memory_ids, strings(&["a", "b"]));
    assert_eq!(d.creates[0].tags, strings(&["t", "u"]));
    assert!(d.updates.is_empty());
    assert!(e.is_usable(&d, "noop"));
    assert!(!e.is_usable(&ConsolidationDecision::default(), "noop"));
    assert!(e.is_usable(&ConsolidationDecision::default(), "agentrust"));
    let kept = e.settle(ConsolidationDecision::default(), "agentrust", &vec![], &vec![]);
    assert!(kept.creates.is_empty());
}

#[test]
fn observations_are_created_and_updated() {
    let e = consolidation();
    let c = ConsolidatedObservation {
        id: None,
        text: "likes tea".to_string(),
        source_memory_ids: strings(&["a", "b"]),
        tags: strings(&["t"]),
    };
    let u = e.create_unit("b", &c, vec![7]);
    assert_eq!(u.fact_type, FactType::Observation);
    assert_eq!(u.proof_count, 2);
    assert_eq!(u.history.len(), 1);
    assert_eq!(u.history[0].action, "create");
    let more = ConsolidatedObservation {
        id: Some(u.id.clone()),
        text: "loves tea".to_string(),
        source_memory_ids: strings(&["b", "c"]),
        tags: vec![],
    };
    let u = e.update_unit(u, &more, vec![8], at(9));
    assert_eq!(u.text, "loves tea");
    assert_eq!(u.source_memory_ids, strings(&["a", "b", "c"]));
    assert_eq!(u.proof_count, 3);
    assert_eq!(u.tags, strings(&["t"]));
    assert_eq!(u.history[1].action, "update");
    assert_eq!(u.history[1].at, at(9));
    let none = ConsolidatedObservation { source_memory_ids: vec![], ..more };
    assert_eq!(e.create_unit("b", &none, vec![]).proof_count, 1);
}

#[test]
fn runs_are_summarised() {
    let mut e = consolidation();
    assert_eq!(e.last_consolidation(), None);
    let r = e.finish_idle(3, 1, at(5));
    assert_eq!((r.memories_before, r.memories_after), (3, 3));
    assert_eq!(e.last_consolidation(), Some(at(5)));
    let c = ConsolidatedObservation {
        id: None,
        text: "t".to_string(),
        source_memory_ids: vec![],
        tags: vec![],
    };
    let u = ConsolidatedObservation { id: some("o"), ..c.clone() };
    let decision = ConsolidationDecision {
        creates: vec![c.clone(), c.clone()],
        updates: vec![u, c],
        deletes: strings(&["x", "y"]),
    };
    let changes = e.changes(&decision, &vec![unit("a", "tea")]);
    assert_eq!(changes.len(), 6);
    assert!(matches!(&changes[1], Change::Create(o) if o.text == "t"));
    assert!(matches!(&changes[2], Change::Update(id, _) if id == "o"));
    assert!(matches!(&changes[4], Change::Delete(id) if id == "y"));
    assert!(matches!(&changes[5], Change::Mark(m) if m.id == "a"));
    let done = vec![true, false, true, false, false, true];
    let r = e.finish(3, 4, &changes, &done, "noop", 7, at(6));
    assert_eq!((r.observations_created, r.observations_updated), (1, 1));
    assert_eq!(r.observations_deleted, 2);
    assert!(!r.used_llm);
    assert_eq!(e.last_consolidation(), Some(at(6)));
}

// Models

#[test]
fn sentences_are_facts() {
    let fs = NoopLlm {}.extract_facts("I ran. No!  Where to?\nHome it is");
    let texts: Vec<&str> = fs.iter().map(|f| f.text.as_str()).collect();
    assert_eq!(texts, vec!["I ran", "Where to", "Home it is"]);
    assert_eq!(fs[0].fact_type, "world");
    assert_eq!(NoopLlm {}.provider_name(), "noop");
}

#[test]
fn code_fences_are_removed() {
    assert_eq!(strip_code_fence("```json\n{}\n```"), "{}");
    assert_eq!(strip_code_fence(" ```\n[]``` "), "[]");
    assert_eq!(strip_code_fence(" {} "), "{}");
}

#[test]
fn a_consolidation_is_asked_for_in_json() {
    assert_eq!(consolidation_request(&vec![], &vec![], &None), None);
    let pair = |a: &str, b: &str| (a.to_string(), b.to_string());
    let s = consolidation_request(&vec![pair("1", "a")], &vec![pair("2", "b")], &some("m"));
    let v: serde_json::Value = serde_json::from_str(&s.unwrap()).unwrap();
    assert_eq!(v["mission"], "m");
    assert_eq!(v["sources"][0]["id"], "1");
    assert_eq!(v["sources"][0]["text"], "a");
    assert_eq!(v["existing_observations"][0]["text"], "b");
    assert!(worth_extracting("x"));
    assert!(!worth_extracting(" \n"));
}

// Embeddings

#[test]
fn texts_are_hashed_by_trigrams() {
    assert_eq!(features("ABCD"), strings(&["abc", "bcd"]));
    assert_eq!(features("a"), strings(&["a"]));
    assert_eq!(count_buckets(&vec![0, 5, 4, 8], 4), vec![3, 1, 0, 0]);
    let e = HashEmbedder::new();
    assert_eq!(e.dimension(), 64);
    let a = e.encode_one("hello world");
    assert_eq!(a.iter().sum::<u64>(), 9);
    assert_eq!(a, e.encode_one("HELLO world"));
    assert_ne!(a, e.encode_one("something else entirely"));
    assert_eq!(HashEmbedder::with_dim(1).encode_one("a b"), vec![1]);
    assert_eq!(e.provider_name(), "hash");
}

#[test]
fn embeddings_have_their_address() {
    assert_eq!(embeddings_url("https://x.test/"), "https://x.test/v1/embeddings");
    assert_eq!(embeddings_url("https://x.test/embeddings"), "https://x.test/embeddings");
}

// History

#[test]
fn a_history_entry_survives_being_stored() {
    let mut e = HistoryEntry::new(HistoryType::ToolCall, "ls")
        .with_session("s1")
        .with_duration(12)
        .with_success(false);
    e.timestamp = at(50);
    e.metadata = "{\"a\":1}".to_string();
    let item = history_item(&e);
    assert_eq!(
        item.tags,
        strings(&["type:history", "history_type:tool_call", "session:s1", "failed"])
    );
    let back = unit_to_history_entry(&stored(&item));
    assert_eq!(back.id, e.id);
    assert_eq!(back.entry_type, HistoryType::ToolCall);
    assert_eq!(back.timestamp, at(50));
    assert_eq!(back.session_id, some("s1"));
    assert!(!back.success);
    assert_eq!(back.duration_ms, Some(12));
    assert_eq!(back.metadata, "{\"a\":1}");
}

#[test]
fn history_defaults() {
    let mut u = unit("u", "x");
    u.tags = strings(&["history_type:query"]);
    u.document_id = some("d");
    let e = unit_to_history_entry(&u);
    assert_eq!(e.id, "u");
    assert_eq!(e.entry_type, HistoryType::Query);
    assert!(e.success);
    assert_eq!(e.session_id, some("d"));
    assert_eq!(e.metadata, "null");
    assert_eq!(unit_to_history_entry(&unit("v", "x")).entry_type, HistoryType::Command);
    assert_eq!(history_type_from_tag("nonsense"), None);
    assert_eq!(history_type_from_tag(history_type_tag(&HistoryType::Agent)), Some(HistoryType::Agent));
}

fn entry(secs: i64, t: HistoryType, ok: bool) -> MemoryUnit {
    let mut e = HistoryEntry::new(t, "x").with_success(ok);
    e.timestamp = at(secs);
    stored(&history_item(&e))
}

#[test]
fn history_is_filtered_and_sorted() {
    let m = HistoryManager {};
    let units = vec![
        entry(1, HistoryType::Command, true),
        entry(3, HistoryType::Query, false),
        entry(2, HistoryType::Query, true),
    ];
    let times = |f: &HistoryFilter| -> Vec<i64> {
        m.list(f, &units).iter().map(|e| e.timestamp.secs).collect()
    };
    let all = HistoryFilter::default();
    assert_eq!(times(&all), vec![3, 2, 1]);
    assert_eq!(times(&HistoryFilter { success_only: true, ..all.clone() }), vec![2, 1]);
    assert_eq!(times(&HistoryFilter { from_time: Some(at(2)), ..all.clone() }), vec![3, 2]);
    assert_eq!(times(&HistoryFilter { to_time: Some(at(2)), ..all.clone() }), vec![2, 1]);
    assert_eq!(times(&HistoryFilter { limit: 1, ..all.clone() }), vec![3]);
    let s = m.stats(&entries_of(&units));
    assert_eq!((s.total_entries, s.commands, s.queries, s.tool_calls), (3, 1, 2, 0));
    assert_eq!((s.successful, s.failed), (2, 1));
    let id = entries_of(&units)[1].id.clone();
    assert_eq!(m.find(&units, &id), Some(1));
    assert_eq!(m.find(&units, "nonsense"), None);
    assert!(m.is_history(&units[0]));
    assert!(!m.is_history(&unit("u", "x")));
    let r = m.list_request(&HistoryFilter { session_id: some("s"), ..all });
    assert_eq!(r.tags, strings(&["type:history", "session:s"]));
    assert_eq!(m.search_request("q").max_tokens, Some(8192));
}

// Sessions

#[test]
fn a_session_survives_being_stored() {
    let mut s = Session::new(Some("work")).with_project("/p".to_string());
    s.add_message_at("user", "hi", at(60));
    s.status = SessionStatus::Paused;
    let doc = document_of(&s, "b");
    assert_eq!(doc.metadata.get("message_count"), Some(&"1".to_string()));
    let mut other = unit("o", "other");
    other.document_id = some("elsewhere");
    let units = vec![stored(&item_of_message(&s.id, "user", "hi", at(60))), other];
    let back = session_from(&doc, &units, &s.id);
    assert_eq!(back.id, s.id);
    assert_eq!(back.name, "work");
    assert_eq!(back.project_path, some("/p"));
    assert_eq!(back.status, SessionStatus::Paused);
    assert_eq!(back.message_count(), 1);
    assert_eq!(back.messages[0].content, "hi");
    assert_eq!(back.messages[0].timestamp, at(60));
    assert_eq!(document_info(&doc).message_count, 1);
}

#[test]
fn messages_are_tagged() {
    let i = item_of_message("s", "system", "x", at(1));
    assert_eq!(
        i.tags,
        strings(&["type:conversation", "session:s", "role:system", "type:session"])
    );
    assert_eq!(i.context, some("session/s/system"));
    assert_eq!(i.metadata.get("role"), Some(&"system".to_string()));
}

#[test]
fn sessions_are_kept_and_forgotten() {
    let mut m = SessionManager::new("b".to_string());
    let s = m.create(None);
    assert_eq!(s.name, s.id);
    assert!(m.get(&s.id).is_some());
    m.set_active(s.clone());
    let (item, doc) = m.add_message(&s.id, "user", "hi", at(70));
    assert_eq!(item.content, "hi");
    assert_eq!(doc.unwrap().metadata.get("message_count"), Some(&"1".to_string()));
    assert_eq!(m.get(&s.id).unwrap().messages.len(), 1);
    assert_eq!(m.add_message("nobody", "user", "hi", at(70)).1.is_none(), true);
    let d = m.archive(&s.id).unwrap();
    assert_eq!(d.metadata.get("status"), Some(&"archived".to_string()));
    assert!(m.archive("nobody").is_none());
    assert_eq!(m.list(&vec![]).len(), 1);
    assert_eq!(m.list(&vec![d]).len(), 1);
    m.forget(&s.id);
    assert!(m.get(&s.id).is_none());
    assert!(m.get_active().is_none());
}

#[test]
fn sessions_are_found_once() {
    let m = SessionManager::new("b".to_string());
    let mut a = unit("1", "x");
    a.document_id = some("s");
    let mut b = unit("2", "y");
    b.document_id = some("s");
    let found = m.search(&vec![a, b, unit("3", "z")], at(9));
    assert_eq!(found.len(), 1);
    assert_eq!(found[0].id, "s");
    assert_eq!(found[0].created_at, at(9));
    assert_eq!(found[0].updated_at, at(100));
    assert_eq!(m.search_request("q").max_tokens, Some(4096));
    assert_eq!(SessionStatus::from_str("nonsense"), SessionStatus::Active);
    assert_eq!(SessionStatus::Error.as_str(), "error");
}

#[test]
fn a_stored_session_is_loaded_into_the_cache() {
    let mut m = SessionManager::new("b".to_string());
    let doc = Document::new("s", "b");
    let s = m.load(&doc, &vec![], "s");
    assert_eq!(s.name, "s");
    assert!(m.get("s").is_some());
}

// Facade

#[test]
fn entries_are_stored_as_items() {
    let e = MemoryEntry::new(MemoryType::Knowledge, "tea is hot");
    let i = item_of_entry(e, "b");
    assert_eq!(i.raw_fact_type, Some(FactType::World));
    assert_eq!(i.tags, strings(&["type:knowledge"]));
    assert_eq!(bank_or_default(""), "agentrust");
    assert_eq!(bank_or_default("x"), "x");
    assert_eq!(search_request("q").query, "q");
}

#[test]
fn a_memory_is_set_up_from_settings() {
    let d = MemoryConfig::defaults("/home/me");
    assert_eq!(d.bank_id, "agentrust");
    assert_eq!(d.db_path, "/home/me/.agentrust/memory.db");
    assert_eq!(d.embedding_dim, 64);
    let mut s = agentrust::config::Settings::defaults("/").memory;
    assert_eq!(s.path, "/.agentrust/memory.db");
    s.path = "/x/old.json".to_string();
    s.bank_id = String::new();
    let c = MemoryConfig::from_settings(&s);
    assert_eq!(c.db_path, "/x/old.db");
    assert_eq!(c.bank_id, "agentrust");
    assert_eq!(StorageBackend::default(), StorageBackend::Sqlite);
}

#[test]
fn databases_lie_beside_json_files() {
    assert_eq!(database_path("/a/memory.json"), "/a/memory.db");
    assert_eq!(database_path("/a/memory.json/"), "/a/memory.db");
    assert_eq!(database_path("/a/memory.json/."), "/a/memory.db");
    assert_eq!(database_path("/a/memory.json/.//"), "/a/memory.db");
    assert_eq!(database_path("/a/memory.db"), "/a/memory.db");
    assert_eq!(database_path("/a/.json"), "/a/.json");
    assert_eq!(database_path("memory"), "memory");
}

#[test]
fn memories_are_selected() {
    let mut dear = unit("d", "dear");
    dear.metadata.insert("importance", "0.9".to_string());
    let plain = unit("p", "plain");
    let units = vec![dear, plain];
    assert_eq!(show_units(&units).len(), 2);
    assert_eq!(important_memories(&units, 600_000_000).len(), 1);
    assert_eq!(important_memories(&units, HALF).len(), 2);
    assert_eq!(memories_of_type(&units, MemoryType::Conversation).len(), 2);
    assert_eq!(memories_of_type(&units, MemoryType::Knowledge).len(), 0);
}

#[test]
fn a_bank_is_summarised() {
    let mut w = unit("w", "x");
    w.fact_type = FactType::World;
    let units = vec![
        tagged("a", &["type:session"]),
        tagged("b", &["type:conversation"]),
        tagged("c", &["type:knowledge"]),
        w,
    ];
    let s = status_of(&units, 4, Some(at(3)), 10);
    assert_eq!(s.total_memories, 4);
    assert_eq!(s.session_count, 1);
    assert_eq!(s.conversation_count, 1);
    assert_eq!(s.knowledge_count, 2);
    assert_eq!(s.last_consolidation, Some(at(3)));
    assert_eq!(s.storage_size_bytes, 10);
}

// Self-knowledge

#[test]
fn a_proposition_survives_being_stored() {
    let p = SelfProposition::new_at("I am terse", strings(&["style"]), 1_700_000_000_000)
        .with_confidence(250_000_000)
        .with_evidence_count(4);
    let e = proposition_to_entry(&p);
    assert!(e.tags.contains(&SELFPROP_TAG.to_string()));
    let back = unit_to_proposition(&stored(&item_of_entry(e, "b")));
    assert_eq!(back.text, p.text);
    assert_eq!(back.confidence, 250_000_000);
    assert_eq!(back.evidence_count, 4);
    assert_eq!(back.created_at_ms, p.created_at_ms);
    assert_eq!(back.updated_at_ms, p.updated_at_ms);
    assert_eq!(back.tags, p.tags);
    assert_eq!(back.id, p.id);
}

#[test]
fn propositions_are_loaded_from_marked_units() {
    let p = SelfProposition::new_at("I am terse", vec![], 5);
    let kept = stored(&item_of_entry(proposition_to_entry(&p), "b"));
    assert_eq!(load(&vec![kept, unit("u", "other")]).len(), 1);
}

#[test]
fn a_unit_keeps_text_that_is_no_json() {
    let mut u = unit("u", "x");
    u.metadata.insert("note", "plain \"text\"".to_string());
    u.metadata.insert("list", "[1, 2]".to_string());
    u.metadata.insert("importance", "7.5e-1".to_string());
    let e = MemoryEntry::from_unit(&u);
    assert_eq!(e.metadata.get("note"), Some(&"\"plain \\\"text\\\"\"".to_string()));
    assert_eq!(e.metadata.get("list"), Some(&"[1,2]".to_string()));
    assert_eq!(e.metadata.get("importance"), None);
    assert_eq!(e.importance, 750_000_000);
}

#[test]
fn a_reloaded_claim_meets_its_own_copy() {
    let p = SelfProposition::new_at("I am terse", strings(&["style"]), 5).with_evidence_count(4);
    let back = unit_to_proposition(&stored(&item_of_entry(proposition_to_entry(&p), "b")));
    let mut store = SelfModelStore::new();
    store.add_proposition_at(back, 10);
    store.add_proposition_at(SelfProposition::new_at("I am terse", strings(&["style"]), 20), 20);
    assert_eq!(store.propositions().len(), 1);
    assert_eq!(store.propositions()[0].evidence_count, 5);
}

#[test]
fn embeddings_have_their_shape() {
    let two = vec![vec![1, 2, 3], vec![4, 5, 6]];
    assert_eq!(check_embeddings(two.clone(), 2, 3), Ok(two.clone()));
    assert_eq!(
        check_embeddings(two.clone(), 3, 3),
        Err(EmbeddingError::Count { expected: 3, got: 2 })
    );
    assert_eq!(
        check_embeddings(vec![vec![1, 2, 3], vec![4]], 2, 3),
        Err(EmbeddingError::Dimension { text: 1, expected: 3, got: 1 })
    );
}

#[test]
fn a_second_consolidation_is_idle() {
    let mut e = consolidation();
    let world = vec![unit("w", "world")];
    let none: Vec<MemoryUnit> = vec![];
    let sources = match e.begin(3, &world, &none, 0, at(1_700_000_000)) {
        Start::Work(s) => s,
        Start::Idle(_) => panic!("there is a memory to consolidate"),
    };
    assert_eq!(sources.len(), 1);
    let marked: Vec<MemoryUnit> =
        sources.into_iter().map(|u| e.mark_unit(u, at(1_700_000_000))).collect();
    match e.begin(4, &marked, &none, 7, at(1_700_000_001)) {
        Start::Idle(r) => {
            assert_eq!(r.memories_before, 4);
            assert_eq!(r.memories_after, 4);
            assert_eq!(r.observations_created, 0);
            assert_eq!(r.observations_updated, 0);
            assert_eq!(r.observations_deleted, 0);
            assert_eq!(r.duration_ms, 7);
        }
        Start::Work(_) => panic!("all memories are consolidated"),
    }
}

#[test]
fn related_observations_are_asked_for() {
    let e = consolidation();
    let r = e.related_request(&vec![unit("a", "one"), unit("b", "two")]);
    assert_eq!(r.query, "one\ntwo");
    assert_eq!(r.fact_types, vec![FactType::Observation]);
    assert!(r.tags.is_empty());
    assert_eq!(r.tag_match, TagMatch::Any);
    assert_eq!(r.budget, Budget::High);
    assert_eq!(r.max_tokens, None);
}
