use agentrust::agent::runner::{Action, AgentRun};
use agentrust::agent::{
    AgentRunner, Goal, GoalStatus, Persona, PersonaProfile, StepKind, StopReason,
};
use agentrust::ambient::Timestamp;
use agentrust::api::{
    chat_request, chat_url, ChatMessage, ChatResponse, Choice, ImageRef, ToolCall,
    ToolCallFunction, ToolDefinition,
};
use agentrust::config::{find_key, ApiConfig, SettingKey, Settings};
use agentrust::metacognition::MetacognitionEngine;
use agentrust::tools::{bundle, ToolRegistry};
use serde_json::Value;

fn at(secs: i64) -> Timestamp {
    Timestamp { secs, nanos: 0 }
}

fn some(s: &str) -> Option<String> {
    Some(s.to_string())
}

fn json(s: &str) -> Value {
    serde_json::from_str(s).expect("JSON")
}

// Goals

#[test]
fn goal_new_has_pending_status_and_uuid() {
    let g = Goal::new("write a haiku about rust");
    assert_eq!(g.status, GoalStatus::Pending);
    assert!(!g.id.is_empty());
    assert!(g.success_criteria.is_empty());
    assert!(g.context.is_empty());
    assert!(g.deadline.is_none());
    assert_eq!(g.id.len(), 36);
    assert_ne!(g.id, Goal::new("write a haiku about rust").id);
}

#[test]
fn goal_builders_chain() {
    let g = Goal::new("ship feature X")
        .with_criterion("tests pass")
        .with_criterion("docs updated")
        .with_context("affects auth subsystem");

    assert_eq!(g.success_criteria.len(), 2);
    assert_eq!(g.context.len(), 1);
}

#[test]
fn goal_prompt_block_contains_all_sections() {
    let g = Goal::new("ship feature X")
        .with_criterion("tests pass")
        .with_context("see Linear AUTH-42");
    let block = g.to_prompt_block();

    assert!(block.contains("# Goal"));
    assert!(block.contains("ship feature X"));
    assert!(block.contains("## Success criteria"));
    assert!(block.contains("- tests pass"));
    assert!(block.contains("## Context"));
    assert!(block.contains("- see Linear AUTH-42"));
}

#[test]
fn goal_deadline_is_shown_and_passes() {
    let g = Goal::new("x").with_deadline(at(1_700_000_000));
    assert!(g.to_prompt_block().contains("2023-11-14T22:13:20+00:00"));
    assert!(!g.overdue(at(1_700_000_000)));
    assert!(g.overdue(at(1_700_000_001)));
    assert!(!Goal::new("x").overdue(at(1_700_000_001)));
}

// Personas

#[test]
fn persona_from_slug_known() {
    assert_eq!(Persona::from_slug("coder"), Persona::Coder);
    assert_eq!(Persona::from_slug("RESEARCHER"), Persona::Researcher);
    assert_eq!(Persona::from_slug("writing"), Persona::Writer);
    assert_eq!(Persona::from_slug("data"), Persona::Analyst);
    assert_eq!(Persona::from_slug("computer"), Persona::Operator);
    assert_eq!(Persona::from_slug("default"), Persona::General);
}

#[test]
fn persona_from_slug_unknown_becomes_custom() {
    match Persona::from_slug("marketing-copywriter") {
        Persona::Custom(s) => assert_eq!(s, "marketing-copywriter"),
        other => panic!("expected Custom, got {:?}", other),
    }
}

#[test]
fn persona_profile_has_nonempty_prompt_and_bundles() {
    for persona in [
        Persona::General,
        Persona::Coder,
        Persona::Researcher,
        Persona::Writer,
        Persona::Analyst,
        Persona::Operator,
    ] {
        let p = persona.profile();
        assert!(!p.name.is_empty(), "{:?} has empty name", persona);
        assert!(!p.system_prompt.is_empty(), "{:?} has empty prompt", persona);
        assert!(!p.bundles.is_empty(), "{:?} has no bundles", persona);
        assert!(p.temperature <= 1_500_000_000);
    }
}

#[test]
fn persona_default_is_general() {
    assert_eq!(Persona::default(), Persona::General);
}

#[test]
fn slugs_read_back() {
    for p in [Persona::General, Persona::Coder, Persona::Operator] {
        assert_eq!(Persona::from_slug(p.slug()), p);
    }
}

// Bundles

#[test]
fn bundle_lookup_returns_known_bundles() {
    for slug in ["coding", "knowledge", "desktop", "web", "communication"] {
        assert!(bundle::lookup(slug).is_some(), "missing bundle: {}", slug);
    }
    assert!(bundle::lookup("nonexistent").is_none());
}

#[test]
fn bundle_resolve_unions_tools() {
    let union = bundle::resolve(&["coding", "knowledge"]);
    assert!(union.contains("git_operations"));
    assert!(union.contains("execute_command"));
    assert!(union.contains("MemoryRead"));
    assert!(union.contains("Skill"));
    assert!(union.contains("file_read"));
}

#[test]
fn bundle_resolve_unknown_slug_is_silent() {
    let result = bundle::resolve(&["coding", "made_up_slug"]);
    assert!(result.contains("file_edit"));
}

#[test]
fn web_bundle_exposes_native_http_tools() {
    let web = bundle::lookup("web").expect("web bundle");
    assert!(web.tools.contains(&"http_fetch"));
    assert!(web.tools.contains(&"web_search"));
}

#[test]
fn restrict_to_bundles_drops_non_listed_tools() {
    let mut reg = ToolRegistry::new();
    let before = reg.list().len();
    reg.restrict_to_bundles(&["desktop"]);
    let after = reg.list().len();

    assert!(after < before, "restriction did not shrink the registry");
    assert!(reg.get("Computer").is_some());
    assert!(reg.get("git_operations").is_none());
}

#[test]
fn restrict_to_bundles_empty_input_is_noop() {
    let mut reg = ToolRegistry::new();
    let before = reg.list().len();
    let no_slugs: Vec<&str> = Vec::new();
    reg.restrict_to_bundles(&no_slugs);
    assert_eq!(reg.list().len(), before);
}

// Chat messages

#[test]
fn chat_message_plain_text_serialises_as_string() {
    let msg = ChatMessage::user("hello world");
    let json = json(&msg.to_json());
    assert_eq!(json["content"], "hello world");
    assert_eq!(json["role"], "user");
}

#[test]
fn chat_message_with_image_serialises_as_parts_array() {
    let msg = ChatMessage::user_with_images(
        "what's in this image?",
        vec![ImageRef::from_url("https://example.com/cat.png")],
    );
    let json = json(&msg.to_json());
    let parts = json["content"].as_array().expect("content should be array");
    assert_eq!(parts.len(), 2);
    assert_eq!(parts[0]["type"], "text");
    assert_eq!(parts[0]["text"], "what's in this image?");
    assert_eq!(parts[1]["type"], "image_url");
    assert_eq!(parts[1]["image_url"]["url"], "https://example.com/cat.png");
}

#[test]
fn chat_message_with_image_builder_appends() {
    let msg = ChatMessage::user("inspect")
        .with_image(ImageRef::from_url("https://x.test/1.png"))
        .with_image(ImageRef::from_url("https://x.test/2.png"));
    let json = json(&msg.to_json());
    let parts = json["content"].as_array().unwrap();
    assert_eq!(parts.len(), 3);
}

#[test]
fn text_is_escaped() {
    let msg = ChatMessage::user("a \"b\"\n\u{1}");
    assert_eq!(msg.to_json(), "{\"role\":\"user\",\"content\":\"a \\\"b\\\"\\n\\u0001\"}");
}

#[test]
fn images_become_data_uris() {
    let i = ImageRef::from_bytes(&vec![77, 97, 110], &some("jpg"));
    assert_eq!(i.url, "data:image/jpeg;base64,TWFu");
    let i = ImageRef::from_bytes(&vec![77], &None);
    assert_eq!(i.url, "data:image/png;base64,TQ==");
    let i = ImageRef::from_bytes(&vec![251, 255], &None);
    assert_eq!(i.url, "data:image/png;base64,+/8=");
    let i = ImageRef::from_bytes(&vec![], &None);
    assert_eq!(i.url, "data:image/png;base64,");
}

#[test]
fn requests_are_json() {
    let ms = vec![ChatMessage::system("s"), ChatMessage::user("u")];
    let tools = Some(vec![ToolDefinition::new("t", "does t", "{\"type\":\"object\"}")]);
    let v = json(&chat_request("m", &ms, 10, false, &tools));
    assert_eq!(v["model"], "m");
    assert_eq!(v["max_tokens"], 10);
    assert_eq!(v["messages"].as_array().unwrap().len(), 2);
    assert_eq!(v["tools"][0]["function"]["name"], "t");
    assert_eq!(v["tools"][0]["type"], "function");
    assert_eq!(chat_url("https://x.test"), "https://x.test/v1/chat/completions");
}

fn call(id: &str, name: &str, arguments: &str) -> ToolCall {
    ToolCall {
        id: id.to_string(),
        kind: "function".to_string(),
        function: ToolCallFunction { name: name.to_string(), arguments: arguments.to_string() },
    }
}

#[test]
fn tool_messages_carry_their_calls() {
    let v = json(&ChatMessage::assistant_with_tools(vec![call("1", "t", "{}")]).to_json());
    assert_eq!(v["tool_calls"][0]["id"], "1");
    assert_eq!(v["tool_calls"][0]["function"]["arguments"], "{}");
    let v = json(&ChatMessage::tool("1", "out").to_json());
    assert_eq!(v["tool_call_id"], "1");
    assert_eq!(v["content"], "out");
}

#[test]
fn the_first_answer_counts() {
    let choice = |s: &str| Choice {
        index: 0,
        message: ChatMessage::assistant(s),
        finish_reason: None,
    };
    let r = ChatResponse {
        id: String::new(),
        object: String::new(),
        created: 0,
        model: String::new(),
        choices: vec![choice("one"), choice("two")],
        usage: None,
    };
    assert_eq!(r.text(), some("one"));
    assert_eq!(r.into_first().unwrap().content, some("one"));
}

// Settings

#[test]
fn the_environment_comes_before_the_configured_key() {
    let mut c = ApiConfig::default();
    c.api_key = some("configured");
    assert_eq!(c.get_api_key(&vec![None, some("second")]), some("second"));
    assert_eq!(c.get_api_key(&vec![None, None]), some("configured"));
    assert_eq!(c.get_base_url(&None), c.base_url);
    assert_eq!(c.get_base_url(&some("http://l")), "http://l");
}

#[test]
fn model_aliases() {
    let mut c = ApiConfig::default();
    assert_eq!(c.get_model_id("opus"), "opus");
    c.model_family = some("fam");
    assert_eq!(c.get_model_id("opus"), "fam-3-opus-20240229");
    assert_eq!(c.get_model_id("sonnet"), "fam-3-5-sonnet-20241022");
    assert_eq!(c.get_model_id("haiku"), "fam-3-5-haiku-20241022");
    assert_eq!(c.get_model_id("deepseek-chat"), "deepseek-chat");
}

#[test]
fn settings_are_set_by_name() {
    let mut s = Settings::defaults("/home/me");
    assert_eq!(s.model, "sonnet");
    assert!(s.set("model", "opus").is_ok());
    assert_eq!(s.model, "opus");
    assert!(s.set("default_persona", "researcher").is_ok());
    assert_eq!(s.default_persona, "researcher");
    assert!(s.set("enabled_bundles", "knowledge,web").is_ok());
    assert_eq!(s.enabled_bundles, vec!["knowledge".to_string(), "web".to_string()]);
    let e = s.set("nonsense", "1").unwrap_err();
    assert_eq!(e.key, "nonsense");
    assert!(e.message().contains("nonsense"));
    assert_eq!(find_key("model"), Some(SettingKey::Model));
    assert_eq!(find_key("nonsense"), None);
}

#[test]
fn metacognition_settings_reach_the_engine() {
    let s = Settings::defaults("/home/me");
    let c = s.metacog.to_engine_config();
    assert_eq!(c.prompt_top_k, s.metacog.prompt_top_k);
    assert_eq!(c.enable_layer3, s.metacog.enable_layer3);
    assert_eq!(c.layer2.low_quality_thresh, s.metacog.low_quality_thresh);
    assert_eq!(c.layer4.review_every_n_episodes, s.metacog.review_every_n_episodes);
}

// Runs

fn runner() -> AgentRunner {
    AgentRunner::new(Persona::General.profile())
}

fn begin(max_steps: usize, engine: Option<MetacognitionEngine>) -> (AgentRun, Action) {
    let mut run = runner().with_max_steps(max_steps).run(Goal::new("greet"), engine);
    assert!(run.has_room());
    let a = run.start(at(0));
    (run, a)
}

#[test]
fn a_final_answer_succeeds() {
    let (mut run, a) = begin(3, None);
    match a {
        Action::Ask(ms) => {
            assert_eq!(ms[0].role, "system");
            assert!(ms[0].content.as_ref().unwrap().contains("greet"));
        }
        other => panic!("expected a request, got {:?}", other),
    }
    let a = run.on_reply(Some(ChatMessage::assistant("hello")), at(1));
    assert!(matches!(a, Action::Stop(StopReason::AssistantFinal)));
    let (out, _) = run.finish().unwrap();
    assert_eq!(out.final_answer, some("hello"));
    assert_eq!(out.goal.status, GoalStatus::Succeeded);
    assert_eq!(out.steps.last().unwrap().kind, StepKind::Assistant);
}

#[test]
fn tools_are_called_in_turn() {
    let (mut run, _) = begin(3, None);
    let calls = vec![call("1", "Glob", "{ \"a\": 1 }"), call("2", "Glob", "nonsense")];
    let a = run.on_reply(Some(ChatMessage::assistant_with_tools(calls)), at(1));
    match a {
        Action::Call { id, name, arguments } => {
            assert_eq!((id.as_str(), name.as_str()), ("1", "Glob"));
            assert_eq!(arguments, "{\"a\":1}");
        }
        other => panic!("expected a call, got {:?}", other),
    }
    let a = run.on_tool_result(Ok("out".to_string()), at(2));
    match a {
        Action::Call { id, arguments, .. } => {
            assert_eq!(id, "2");
            assert_eq!(arguments, "\"nonsense\"");
        }
        other => panic!("expected a call, got {:?}", other),
    }
    let a = run.on_tool_result(Err("bad".to_string()), at(3));
    match a {
        Action::Ask(ms) => {
            let last = ms.last().unwrap();
            assert_eq!(last.tool_call_id, some("2"));
            assert!(last.content.as_ref().unwrap().contains("bad"));
        }
        other => panic!("expected a request, got {:?}", other),
    }
}

#[test]
fn runs_end_after_their_steps() {
    let (mut run, _) = begin(1, None);
    let a = run.on_reply(
        Some(ChatMessage::assistant_with_tools(vec![call("1", "Glob", "{}")])),
        at(1),
    );
    assert!(matches!(a, Action::Call { .. }));
    let a = run.on_tool_result(Ok(String::new()), at(2));
    assert!(matches!(a, Action::Stop(StopReason::MaxStepsReached)));
    let (out, _) = run.finish().unwrap();
    assert_eq!(out.goal.status, GoalStatus::Failed);
}

#[test]
fn a_failed_request_ends_a_run() {
    let (mut run, _) = begin(3, None);
    let a = run.on_reply(None, at(1));
    assert!(matches!(a, Action::Stop(StopReason::ApiError)));
    assert_eq!(run.finish().unwrap().0.stop_reason, StopReason::ApiError);
}

#[test]
fn no_iteration_starts_past_the_deadline() {
    let goal = Goal::new("greet").with_deadline(at(10));
    let mut run = runner().run(goal, None);
    assert!(matches!(run.start(at(11)), Action::Stop(StopReason::Cancelled)));
}

#[test]
fn an_engine_watches_a_run() {
    let (mut run, a) = begin(3, Some(MetacognitionEngine::new()));
    assert!(matches!(a, Action::Ask(_)));
    run.on_reply(Some(ChatMessage::assistant("hello")), at(1));
    let (_, engine) = run.finish().unwrap();
    assert!(!engine.unwrap().events.is_empty());
}

#[test]
fn a_supplied_profile_is_used_for_a_custom_persona() {
    let p = PersonaProfile {
        name: "mine".to_string(),
        system_prompt: "p".to_string(),
        bundles: vec![],
        temperature: 0,
    };
    let custom = Persona::Custom("mine".to_string());
    assert_eq!(custom.profile_or(Some(p.clone())).name, "mine");
    assert_eq!(Persona::Coder.profile_or(Some(p)).name, Persona::Coder.profile().name);
}

#[test]
fn text_is_escaped_in_requests() {
    let text = "a\"b\\c\n\t\r\u{8}\u{c}\u{1}\u{7f}/\u{e9}\u{1f600}";
    let body = chat_request("m", &vec![ChatMessage::user(text)], 10, false, &None);
    assert!(body.contains("a\\\"b\\\\c\\n\\t\\r\\b\\f\\u0001\u{7f}/\u{e9}\u{1f600}"));
    assert_eq!(json(&body)["messages"][0]["content"], text);
}

#[test]
fn servers_are_none_at_first() {
    assert!(Settings::defaults("/home/me").mcp_servers.is_empty());
}
