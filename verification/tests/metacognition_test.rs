use agentrust::fixed::{HALF, ONE};
use agentrust::metacognition::{
    make_proposition_id, BetaParam, CoTMonitor, EngineConfig, FailureEvent, IterationObservation,
    MetaAction, MetaConfig, MetaController, MetacognitionEngine, ProposalKind, ReviserConfig, SchemaProposal,
    SchemaReviser, SelfBelief, SelfModelStore, SelfProposition,
};

// Belief

#[test]
fn jeffreys_prior_mean_is_half() {
    let bp = BetaParam::default();
    assert_eq!(bp.mean(), HALF);
}

#[test]
fn observe_success_raises_mean() {
    let mut sb = SelfBelief::new();
    let m0 = sb.mean("tool_use");
    for _ in 0..10 {
        sb.observe_success("tool_use", ONE);
    }
    assert!(sb.mean("tool_use") > m0);
}

#[test]
fn observe_failure_lowers_mean() {
    let mut sb = SelfBelief::new();
    let m0 = sb.mean("tool_use");
    for _ in 0..10 {
        sb.observe_failure("tool_use", ONE);
    }
    assert!(sb.mean("tool_use") < m0);
}

#[test]
fn mixed_observation_weights_correctly() {
    let mut sb = SelfBelief::new();
    sb.observe_mixed("reasoning", 700_000_000, ONE);
    let bp = sb.get("reasoning");
    assert_eq!(bp.alpha, 1_700_000_000);
    assert_eq!(bp.beta, 1_300_000_000);
}

#[test]
fn overall_uncertainty_drops_with_evidence() {
    let mut sb = SelfBelief::new();
    let u0 = sb.overall_uncertainty();
    for _ in 0..100 {
        sb.observe_success("tool_use", ONE);
        sb.observe_success("code_edit", ONE);
    }
    assert!(sb.overall_uncertainty() < u0);
}

#[test]
fn belief_moments_have_exact_values() {
    let bp = BetaParam::new(3 * ONE, ONE);
    assert_eq!(bp.mean(), 750_000_000);
    // 3 / (16 * 5) = 0.0375, in billionths squared
    assert_eq!(bp.variance(), 37_500_000_000_000_000);
    // the square root of 0.0375 is 0.19364916...
    assert_eq!(bp.stddev(), 193_649_167);
}

#[test]
fn unknown_dimension_has_the_prior() {
    let sb = SelfBelief::new();
    assert!(!sb.has_dimension("juggling"));
    assert_eq!(sb.mean("juggling"), HALF);
}

#[test]
fn a_dimension_is_added_once() {
    let mut sb = SelfBelief::new();
    let n = sb.dimensions().len();
    sb.add_dimension("juggling", 2 * ONE, ONE);
    sb.add_dimension("juggling", 7 * ONE, ONE);
    assert_eq!(sb.dimensions().len(), n + 1);
    assert_eq!(sb.get("juggling").alpha, 2 * ONE);
}

// Reasoning

#[test]
fn tool_loop_triggers_detection() {
    let mut m = CoTMonitor::new();
    m.on_tool_call("file_read", "path=/etc/passwd");
    m.on_tool_call("file_read", "path=/etc/passwd");
    assert!(m.loop_detected());
    assert!(m.propose_intervention().is_some());
}

#[test]
fn distinct_inputs_dont_trip_loop() {
    let mut m = CoTMonitor::new();
    m.on_tool_call("file_read", "path=/a");
    m.on_tool_call("file_read", "path=/b");
    assert!(!m.loop_detected());
}

#[test]
fn short_repeated_steps_lower_quality() {
    let mut m = CoTMonitor::new();
    for _ in 0..5 {
        m.on_cot_delta("hmm\n\n");
    }
    m.on_cot_block_end();
    assert!(m.quality() < 900_000_000);
}

#[test]
fn rich_unique_steps_keep_quality_high() {
    let mut m = CoTMonitor::new();
    let steps = [
        "First, I will read the configuration file to understand how the agent is set up and which model it uses.\n\n",
        "Next, based on the model identifier, I'll branch and pick an appropriate tokenizer for the prompt budget calculation step.\n\n",
        "Finally, I'll run the budget check and emit a structured summary so downstream consumers can verify the prompt fits within limits.\n\n",
    ];
    for s in steps {
        m.on_cot_delta(s);
    }
    m.on_cot_block_end();
    assert!(m.quality() > 900_000_000, "got {}", m.quality());
}

#[test]
fn no_intervention_without_cause() {
    let m = CoTMonitor::new();
    assert!(m.propose_intervention().is_none());
    assert!(!m.any_text_content());
}

// Engine

#[test]
fn first_iter_returns_a_valid_non_abort_action() {
    let mut e = MetacognitionEngine::new();
    e.on_turn_start("write a hello world program");
    let d = e.before_next_iteration(0);
    assert_ne!(d.action, MetaAction::Abort);
}

#[test]
fn reflect_kicks_in_after_two_tool_errors() {
    let mut e = MetacognitionEngine::new();
    e.on_turn_start("edit a file");
    e.on_tool_use("file_edit", "path=/a");
    e.on_tool_result("file_edit", true);
    e.on_tool_use("file_edit", "path=/b");
    e.on_tool_result("file_edit", true);
    let d = e.before_next_iteration(1);
    assert_eq!(d.action, MetaAction::Reflect);
    assert!(!d.injection.is_empty());
}

#[test]
fn self_model_section_empty_when_no_props() {
    let mut e = MetacognitionEngine::new();
    e.on_turn_start("anything");
    assert!(e.self_model_prompt_section().is_empty());
}

#[test]
fn full_turn_lifecycle_never_picks_act_under_repeated_errors() {
    let mut eng = MetacognitionEngine::new();
    eng.on_turn_start("refactor the authentication module");

    let d = eng.before_next_iteration(0);
    assert_ne!(d.action, MetaAction::Abort);

    eng.on_tool_use("file_edit", r#"{"path":"/auth/mod.rs"}"#);
    eng.on_tool_result("file_edit", true);
    eng.on_tool_use("file_edit", r#"{"path":"/auth/mod.rs"}"#);
    eng.on_tool_result("file_edit", true);
    let d = eng.before_next_iteration(1);
    assert_eq!(d.action, MetaAction::Reflect);
    assert!(!d.injection.is_empty());

    for i in 2..6 {
        eng.on_tool_use("file_edit", &format!(r#"{{"i":{}}}"#, i));
        eng.on_tool_result("file_edit", true);
        let d = eng.before_next_iteration(i);
        assert_ne!(d.action, MetaAction::Act, "iter {}", i);
    }

    eng.on_turn_end();
}

#[test]
fn cot_intervention_overrides_act_when_loop_detected_after_priming() {
    let mut eng = MetacognitionEngine::new();
    for _ in 0..40 {
        eng.controller_mut().observe_tool_result("execute_command", false);
        eng.controller_mut().observe_cot_quality(950_000_000);
        eng.controller_mut().observe_progress(true);
    }
    eng.on_turn_start("anything");
    eng.on_tool_use("file_read", "path=/a");
    eng.on_tool_use("file_read", "path=/a");
    let d = eng.before_next_iteration(0);
    assert_eq!(d.action, MetaAction::Act, "primed controller should pick Act");
    assert!(!d.injection.is_empty(), "loop_detected should override");
    assert!(d.reason.contains("cot_intervention"));
}

#[test]
fn layer3_prompt_section_grows_after_seeding_propositions() {
    let mut eng = MetacognitionEngine::new();
    eng.on_turn_start("write a rust async parser");
    assert!(eng.self_model_prompt_section().is_empty());

    eng.store_mut().add_proposition(SelfProposition::new(
        "I tend to forget to .await futures in Rust async code",
        vec!["rust".into(), "async".into()],
    ));
    let s = eng.self_model_prompt_section();
    assert!(s.contains("Self-knowledge"));
    assert!(s.contains("await"));
}

#[test]
fn layer4_promotes_repeated_failure_cluster_into_a_proposition() {
    let mut reviser = SchemaReviser::with_config(ReviserConfig {
        min_evidence_count: 3,
        review_every_n_episodes: 1,
        cluster_jaccard_thresh: 300_000_000,
        novelty_threshold: 500_000_000,
        max_failures_buffer: 200,
    });
    for _ in 0..5 {
        reviser.record_failure(FailureEvent {
            ts: 0,
            tool: "file_edit".into(),
            description: "file_edit failed: path not found in workspace".into(),
            task_type: String::new(),
        });
    }
    reviser.note_episode_complete();
    assert!(reviser.should_review());

    let belief = SelfBelief::new();
    let store = SelfModelStore::new();
    let props = reviser.propose_revisions(&belief, &store);
    assert!(!props.is_empty(), "should propose at least one revision");
    let p: &SchemaProposal = props.first().unwrap();
    assert!(p.evidence_count >= 3);
    assert!(p.novelty > 0);

    let mut belief = belief;
    let mut store = store;
    let applied = reviser.apply(p, &mut belief, &mut store);
    assert!(applied);
    match p.kind {
        ProposalKind::AddProposition => assert_eq!(store.len(), 1),
        ProposalKind::AddDimension => assert!(belief.has_dimension(&p.name_or_text)),
    }
}

#[test]
fn engine_respects_disable_flags() {
    let cfg = EngineConfig {
        enable_layer3: false,
        enable_layer4: false,
        ..Default::default()
    };
    let mut eng = MetacognitionEngine::with_config(cfg);
    eng.on_turn_start("hello");
    eng.store_mut().add_proposition(SelfProposition::new(
        "I am terse with hello-world tasks",
        vec!["greeting".into()],
    ));
    assert!(eng.self_model_prompt_section().is_empty());
}

#[test]
fn self_belief_overall_competence_rises_with_successes() {
    let mut eng = MetacognitionEngine::new();
    let before = eng.controller().belief().overall_competence();
    for _ in 0..50 {
        eng.on_tool_use("execute_command", "ls");
        eng.on_tool_result("execute_command", false);
    }
    let after = eng.controller().belief().overall_competence();
    assert!(
        after > before,
        "overall competence should rise: before={before}, after={after}"
    );
}

#[test]
fn events_are_handed_out_once() {
    let mut e = MetacognitionEngine::new();
    e.on_turn_start("anything");
    e.before_next_iteration(0);
    assert!(!e.drain_events().is_empty());
    assert!(e.drain_events().is_empty());
}

#[test]
fn tool_results_are_counted_over_the_turn() {
    let mut e = MetacognitionEngine::new();
    e.on_turn_start("anything");
    e.on_tool_use("search", "q=1");
    e.on_tool_result("search", false);
    e.on_tool_use("search", "q=2");
    e.on_tool_result("search", true);
    assert_eq!(e.turn_tool_stats(), (2, 1));
}

// Controller

#[test]
fn act_chosen_when_things_are_fine() {
    let mut mc = MetaController::new();
    for _ in 0..30 {
        mc.observe_tool_result("execute_command", false);
        mc.observe_cot_quality(900_000_000);
        mc.observe_progress(true);
    }
    let d = mc.decide(2);
    assert_eq!(d.action, MetaAction::Act);
}

#[test]
fn reflect_chosen_after_consecutive_errors() {
    let mut mc = MetaController::new();
    mc.observe_tool_result("execute_command", true);
    mc.observe_tool_result("execute_command", true);
    mc.observe_tool_result("execute_command", true);
    let d = mc.decide(1);
    assert_eq!(d.action, MetaAction::Reflect);
    assert!(d.injection.contains("reflect"));
}

#[test]
fn abort_blocked_before_min_iters() {
    let mut mc = MetaController::new();
    for _ in 0..10 {
        mc.observe_tool_result("execute_command", true);
        mc.observe_progress(false);
    }
    let d = mc.decide(1);
    assert_ne!(d.action, MetaAction::Abort);
}

#[test]
fn a_success_ends_a_run_of_errors() {
    let mut mc = MetaController::new();
    mc.observe_tool_result("search", true);
    mc.observe_tool_result("search", true);
    assert_eq!(mc.consecutive_errors(), 2);
    mc.observe_tool_result("search", false);
    assert_eq!(mc.consecutive_errors(), 0);
}

#[test]
fn stalls_are_counted_until_a_clean_iteration() {
    let mut mc = MetaController::new();
    let stuck = IterationObservation { turn: 1, ..IterationObservation::default() };
    mc.record_observation(&stuck);
    mc.record_observation(&stuck);
    assert_eq!(mc.stall_count(), 2);
    let clean = IterationObservation {
        turn: 3,
        tool_calls: 1,
        any_progress: true,
        ..IterationObservation::default()
    };
    mc.record_observation(&clean);
    assert_eq!(mc.stall_count(), 0);
    assert_eq!(mc.iteration(), 3);
}

#[test]
fn progress_weighs_twice_as_much_as_its_absence() {
    let mut mc = MetaController::new();
    let b = mc.belief().get("task_progress");
    mc.observe_progress(true);
    mc.observe_progress(false);
    let a = mc.belief().get("task_progress");
    assert_eq!(a.alpha - b.alpha, ONE);
    assert_eq!(a.beta - b.beta, HALF);
}

#[test]
fn default_controller_config_is_valid() {
    assert!(MetaConfig::default().is_valid());
    let bad = MetaConfig { cost_act: i64::MAX, ..MetaConfig::default() };
    assert!(!bad.is_valid());
}

#[test]
fn action_names() {
    assert_eq!(MetaAction::Act.as_str(), "act");
    assert_eq!(MetaAction::Abort.as_str(), "abort");
    assert_eq!(MetaAction::default(), MetaAction::Act);
}

// Reviser

fn ev(desc: &str, tool: &str) -> FailureEvent {
    FailureEvent {
        ts: 0,
        tool: tool.to_string(),
        description: desc.to_string(),
        task_type: String::new(),
    }
}

#[test]
fn no_review_until_enough_evidence_and_episodes() {
    let mut r = SchemaReviser::new();
    assert!(!r.should_review());
    for _ in 0..3 {
        r.record_failure(ev("file_edit failed: file not found", "file_edit"));
    }
    for _ in 0..2 {
        r.note_episode_complete();
    }
    assert!(!r.should_review());
    for _ in 0..3 {
        r.note_episode_complete();
    }
    assert!(r.should_review());
}

#[test]
fn clusters_similar_failures() {
    let mut r = SchemaReviser::new();
    for _ in 0..5 {
        r.record_failure(ev("file_edit failed: path missing", "file_edit"));
    }
    for _ in 0..3 {
        r.record_failure(ev(
            "execute_command failed: command not found",
            "execute_command",
        ));
    }
    for _ in 0..5 {
        r.note_episode_complete();
    }
    let belief = SelfBelief::new();
    let store = SelfModelStore::new();
    let props = r.propose_revisions(&belief, &store);
    assert!(!props.is_empty());
    assert!(props.iter().all(|p| p.evidence_count >= 3));
}

#[test]
fn apply_blocks_low_novelty() {
    let mut belief = SelfBelief::new();
    let mut store = SelfModelStore::new();
    let r = SchemaReviser::new();
    let p = SchemaProposal {
        kind: ProposalKind::AddDimension,
        name_or_text: "tool_use".to_string(),
        tags: vec![],
        rationale: "test".to_string(),
        evidence_count: 5,
        novelty: 100_000_000,
    };
    assert!(!r.apply(&p, &mut belief, &mut store));
}

#[test]
fn apply_adds_dimension_when_novel() {
    let mut belief = SelfBelief::new();
    let mut store = SelfModelStore::new();
    let r = SchemaReviser::new();
    let p = SchemaProposal {
        kind: ProposalKind::AddDimension,
        name_or_text: "sql_migration".to_string(),
        tags: vec![],
        rationale: "test".to_string(),
        evidence_count: 5,
        novelty: 900_000_000,
    };
    assert!(r.apply(&p, &mut belief, &mut store));
    assert!(belief.has_dimension("sql_migration"));
}

#[test]
fn the_failure_buffer_is_bounded() {
    let mut r = SchemaReviser::with_config(ReviserConfig {
        max_failures_buffer: 2,
        ..ReviserConfig::default()
    });
    r.record_failure(ev("a", "t"));
    r.record_failure(ev("b", "t"));
    r.record_failure(ev("c", "t"));
    assert_eq!(r.failures().len(), 2);
    assert_eq!(r.failures()[0].description, "b");
    assert!(r.failures()[1].ts != 0);
}

// Self-model

#[test]
fn add_proposition_is_idempotent_on_same_text() {
    let mut s = SelfModelStore::new();
    s.add_proposition(SelfProposition::new("I forget noexcept on moves", vec!["c++".into()]));
    s.add_proposition(SelfProposition::new("I forget noexcept on moves", vec!["c++".into()]));
    assert_eq!(s.len(), 1);
    assert_eq!(s.propositions()[0].evidence_count, 2);
}

#[test]
fn retrieve_picks_most_relevant() {
    let mut s = SelfModelStore::new();
    s.add_proposition(SelfProposition::new(
        "I tend to forget noexcept on c++ move constructors",
        vec!["c++".into()],
    ));
    s.add_proposition(SelfProposition::new(
        "I sometimes choose wrong python virtualenv",
        vec!["python".into()],
    ));
    let r = s.retrieve_relevant("review my c++ move constructor code", 1);
    assert_eq!(r.len(), 1);
    assert!(r[0].text.contains("c++"));
}

#[test]
fn render_includes_confidence() {
    let mut s = SelfModelStore::new();
    s.add_proposition(
        SelfProposition::new("I am terse", vec!["style".into()]).with_confidence(900_000_000),
    );
    let out = s.render_for_prompt("write a terse summary", 3);
    assert!(out.contains("confidence=0.90") || out.contains("0.90"));
}

#[test]
fn empty_render_is_empty_string() {
    let s = SelfModelStore::new();
    let out = s.render_for_prompt("anything", 5);
    assert!(out.is_empty());
}

#[test]
fn confidence_moves_within_its_range() {
    let mut s = SelfModelStore::new();
    s.add_proposition(SelfProposition::new("I am terse", vec![]).with_confidence(500_000_000));
    let id = s.propositions()[0].id.clone();
    s.reinforce(&id, 200_000_000);
    assert_eq!(s.propositions()[0].confidence, 700_000_000);
    s.weaken(&id, 2_000_000_000);
    assert_eq!(s.propositions()[0].confidence, 0);
    s.clear();
    assert!(s.is_empty());
}

#[test]
fn loading_replaces_what_is_known() {
    let mut s = SelfModelStore::new();
    s.add_proposition(SelfProposition::new("one", vec![]));
    s.load_from_external(None);
    assert_eq!(s.len(), 1);
    s.load_from_external(Some(vec![
        SelfProposition::new("two", vec![]),
        SelfProposition::new("three", vec![]),
    ]));
    assert_eq!(s.len(), 2);
    assert_eq!(s.propositions()[0].text, "two");
}

#[test]
fn id_is_stable_for_same_text_and_tags() {
    let a = make_proposition_id("foo", &["x".to_string(), "y".to_string()]);
    let b = make_proposition_id("foo", &["x".to_string(), "y".to_string()]);
    assert_eq!(a, b);
}

#[test]
fn id_differs_on_tag_change() {
    let a = make_proposition_id("foo", &["x".to_string()]);
    let b = make_proposition_id("foo", &["y".to_string()]);
    assert_ne!(a, b);
}

#[test]
fn id_differs_on_text_change() {
    let a = make_proposition_id("foo", &[]);
    let b = make_proposition_id("bar", &[]);
    assert_ne!(a, b);
}

#[test]
fn proposition_times_come_from_milliseconds() {
    let p = SelfProposition::new_at("x", vec![], 1_700_000_000_123);
    assert_eq!(p.created_at().secs, 1_700_000_000);
    assert_eq!(p.created_at().nanos, 123_000_000);
    assert_eq!(p.created_at_ms, p.updated_at_ms);
}

#[test]
fn pieces_of_a_text_do_not_matter() {
    let text = "First step.\n\nSecond step.\n\n\nThird";
    let mut whole = CoTMonitor::new();
    whole.on_cot_delta(text);
    let mut pieces = CoTMonitor::new();
    for c in text.chars() {
        pieces.on_cot_delta(&c.to_string());
    }
    assert_eq!(whole.recent_steps, pieces.recent_steps);
    assert_eq!(whole.current_buf, pieces.current_buf);
    assert_eq!(whole.recent_steps.len(), 2);
}

#[test]
fn observations_touch_one_dimension() {
    let mut sb = SelfBelief::new();
    let before = sb.overall_competence();
    sb.observe_success("search", ONE);
    assert_eq!(sb.mean("reasoning"), HALF);
    assert!(sb.overall_competence() > before);
    sb.observe_failure("reasoning", ONE);
    sb.observe_failure("reasoning", ONE);
    assert!(sb.overall_competence() < before);
}

#[test]
fn a_dimension_is_applied_once() {
    let mut belief = SelfBelief::new();
    let mut store = SelfModelStore::new();
    let r = SchemaReviser::new();
    let p = SchemaProposal {
        kind: ProposalKind::AddDimension,
        name_or_text: "sql".to_string(),
        tags: vec![],
        rationale: String::new(),
        evidence_count: 5,
        novelty: ONE,
    };
    assert!(r.apply(&p, &mut belief, &mut store));
    assert_eq!(belief.get("sql").beta, 2 * ONE);
    assert!(!r.apply(&p, &mut belief, &mut store));
}

#[test]
fn failures_are_grouped_by_their_words() {
    let mut r = SchemaReviser::new();
    for _ in 0..3 {
        r.record_failure(ev("compile error borrow checker", "cargo"));
        r.record_failure(ev("network timeout while fetching", "curl"));
    }
    let props = r.propose_revisions(&SelfBelief::new(), &SelfModelStore::new());
    assert_eq!(props.len(), 2);
    assert_eq!(props[0].evidence_count, 3);
    assert_eq!(props[0].name_or_text, "borrow_cargo");
    assert_eq!(props[0].novelty, ONE);
    assert_eq!(
        props[0].rationale,
        "3 failures cluster around tokens [borrow, cargo, checker, compile]"
    );
}

#[test]
fn too_little_evidence_is_refused() {
    let mut belief = SelfBelief::new();
    let mut store = SelfModelStore::new();
    let r = SchemaReviser::new();
    for n in [-1, i32::MIN, 0, 2] {
        let p = SchemaProposal {
            kind: ProposalKind::AddProposition,
            name_or_text: "I rush".to_string(),
            tags: vec![],
            rationale: String::new(),
            evidence_count: n,
            novelty: ONE,
        };
        assert!(!r.apply(&p, &mut belief, &mut store));
    }
    assert_eq!(store.propositions().len(), 0);
}

#[test]
fn the_identifier_of_no_text() {
    assert_eq!(make_proposition_id("", &vec![]), "sp-cbf29ce484222325");
}

#[test]
fn a_full_count_stands_beside_others() {
    let mut store = SelfModelStore::new();
    let full = SelfProposition::new_at("I am terse", vec![], 1).with_evidence_count(i32::MAX);
    store.add_proposition_at(full, 1);
    store.add_proposition_at(SelfProposition::new_at("I am slow", vec![], 2), 2);
    assert_eq!(store.propositions().len(), 2);
}

#[test]
fn proposition_times_have_a_range() {
    let at = |ms: i64| SelfProposition::new_at("I am terse", vec![], ms).created_at();
    let before = at(-1);
    assert_eq!((before.secs, before.nanos), (-1, 999_000_000));
    let first = at(-8_334_601_228_800_000);
    assert_eq!((first.secs, first.nanos), (-8_334_601_228_800, 0));
    let last = at(8_210_266_876_799_999);
    assert_eq!((last.secs, last.nanos), (8_210_266_876_799, 999_000_000));
    for ms in [i64::MIN, -8_334_601_228_800_001, 8_210_266_876_800_000, i64::MAX] {
        let now = at(ms).secs;
        assert!(now > 1_700_000_000 && now < 100_000_000_000);
    }
}

fn growing(decay: i64) -> MetaController {
    MetaController::with_config(MetaConfig {
        gamma_decay: decay,
        allow_abort: false,
        ..MetaConfig::default()
    })
}

#[test]
fn a_growing_weight_is_followed() {
    let one = 1_000_000_000i64;
    // The information is worth more than any cost, and the score grows with the weight.
    let a = growing(10 * one).decide(9);
    let b = growing(10 * one).decide(10);
    assert_eq!(a.action, MetaAction::Decompose);
    assert_eq!(b.action, MetaAction::Decompose);
    // 1.5 * 10^9 and 1.5 * 10^10, each times 1.5 times the uncertainty.
    assert!(a.efe_score / 100_000_000 < -10i128.pow(28));
    assert_eq!((b.efe_score / 10i128.pow(33)) / (a.efe_score / 10i128.pow(33)), 10);
    // Beyond the type the score is held; the choice stays.
    for n in [12, 30, 40, 1000, i32::MAX] {
        let d = growing(10 * one).decide(n);
        assert_eq!(d.action, MetaAction::Decompose);
        assert_eq!(d.efe_score, i128::MIN);
    }
}

#[test]
fn a_negative_base_changes_sides() {
    let one = 1_000_000_000i64;
    // An odd power is negative, and the least weight takes its place.
    let least = growing(0).decide(1);
    let odd = growing(-10 * one).decide(101);
    assert_eq!(odd.efe_score, least.efe_score);
    assert_eq!(odd.action, least.action);
    assert_eq!(growing(-10 * one).decide(100).efe_score, i128::MIN);
}
