use agentrust::tools::computer::{
    exec_linux, exec_macos, is_mutating, package_screenshot, screenshot_command, shq,
    ComputerInput, ComputerStep, Platform,
};
use agentrust::tools::file_memory::{contained, first_non_empty_line, name_is_safe};
use agentrust::tools::http_fetch::{network_error, read_hits, search_output, Fetched};
use agentrust::tools::skill_md_tool::parse_skill;
use agentrust::tools::{
    ComputerTool, FileMemoryEntry, FileMemoryStore, GlobTool, HttpFetchTool,
    MarkdownSkillRegistry, MemoryListTool, MemoryReadTool, MemoryWriteTool, SkillMdTool, TaskTool,
    ToolRegistry, WebSearchTool,
};

fn some(s: &str) -> Option<String> {
    Some(s.to_string())
}

// Registry

#[test]
fn test_tool_registry_creation() {
    let registry = ToolRegistry::new();
    let tools = registry.list();
    assert!(tools.len() >= 6);
    assert_eq!(tools.len(), 21);
}

#[test]
fn file_reading_is_registered() {
    let registry = ToolRegistry::new();
    let tool = registry.get("file_read").expect("file_read tool should exist");
    assert_eq!(tool, "file_read");
}

#[test]
fn test_glob_tool_registered() {
    let registry = ToolRegistry::new();
    let tool = registry.get("Glob").expect("Glob tool should exist");
    assert_eq!(tool, "Glob");
    assert_eq!(tool, GlobTool::new().name());
    assert!(GlobTool::new().description().to_lowercase().contains("glob"));
}

#[test]
fn unknown_tools_are_refused() {
    let registry = ToolRegistry::new();
    assert!(registry.check("Glob").is_ok());
    let e = registry.check("nonsense").unwrap_err();
    assert_eq!(e.message, "Tool not found: nonsense");
    assert_eq!(e.code, some("tool_not_found"));
}

#[test]
fn a_bundle_is_active_when_all_its_tools_are_there() {
    let mut registry = ToolRegistry::new();
    assert!(registry.active_bundles().contains(&"desktop"));
    registry.restrict_to_bundles(&["desktop"]);
    assert_eq!(registry.active_bundles(), vec!["desktop"]);
    let mut none = ToolRegistry::empty();
    assert!(none.active_bundles().is_empty());
    none.register("Computer");
    none.register("Computer");
    assert_eq!(none.list().len(), 1);
}

#[test]
fn restriction_to_unknown_bundles_keeps_everything() {
    let mut registry = ToolRegistry::new();
    let before = registry.list().len();
    registry.restrict_to_bundles(&["made_up_slug"]);
    assert_eq!(registry.list().len(), before);
}

// File memory

#[test]
fn name_safety_basics() {
    assert!(name_is_safe("a.md"));
    assert!(name_is_safe("notes/projects.md"));
    assert!(!name_is_safe(""));
    assert!(!name_is_safe("/etc/passwd"));
    assert!(!name_is_safe("../escape"));
    assert!(!name_is_safe(".hidden"));
    assert!(!name_is_safe("notes/.hidden"));
    assert!(!name_is_safe("notes//double"));
    assert!(!name_is_safe("C:\\windows"));
}

fn store() -> FileMemoryStore {
    FileMemoryStore::new("/m", true)
}

#[test]
fn test_memory_rejects_path_traversal() {
    let tool = MemoryWriteTool::new(store());
    let name = tool.request(&some("../escape.txt")).unwrap();
    assert!(!tool.store.resolves(&name));
    let result = tool.execute(&name, "x", &None);
    assert!(result.is_err(), "path traversal must be rejected");
    assert_eq!(result.unwrap_err().code, some("write_failed"));
}

#[test]
fn test_memory_round_trip() {
    let writer = MemoryWriteTool::with_read_only(store(), false);
    let name = writer.request(&some("notes/example.md")).unwrap();
    assert!(store().resolves(&name));
    assert!(!FileMemoryStore::new("/m", false).resolves(&name));
    let write = writer
        .execute(&name, "first line\nsecond line", &some("/m/notes/example.md"))
        .expect("write should succeed");
    assert_eq!(write.content, "Wrote 22 bytes to /m/notes/example.md");
    let reader = MemoryReadTool::new(store());
    let name = reader.request(&some("notes/example.md")).unwrap();
    let read =
        reader.execute(&name, some("first line\nsecond line")).expect("read should succeed");
    assert!(read.content.contains("first line"));
    let entry = FileMemoryEntry {
        name,
        summary: first_non_empty_line("first line\nsecond line", 80),
        size_bytes: 22,
        full_path: "/m/notes/example.md".to_string(),
    };
    let list = MemoryListTool::new(store()).execute(&vec![entry]).expect("list should succeed");
    assert_eq!(
        list.content,
        "Memory (1 entry, root=/m):\n  notes/example.md  (22B)  first line\n"
    );
}

#[test]
fn memory_errors() {
    let e = MemoryWriteTool::with_read_only(store(), true).request(&some("a.md")).unwrap_err();
    assert_eq!(e.code, some("read_only"));
    let e = MemoryWriteTool::new(store()).request(&some("")).unwrap_err();
    assert_eq!(e.code, some("missing_parameter"));
    let e = MemoryReadTool::new(store()).request(&None).unwrap_err();
    assert_eq!(e.code, some("missing_parameter"));
    let e = MemoryReadTool::new(store()).execute("a.md", None).unwrap_err();
    assert_eq!(e.code, some("not_found"));
    assert_eq!(e.message, "memory entry not found or invalid name: a.md");
    let unready = FileMemoryStore::new("/m", false);
    assert!(!unready.is_ready());
    let e = MemoryListTool::new(unready).execute(&vec![]).unwrap_err();
    assert_eq!(e.message, "Memory store not ready at /m");
    assert_eq!(e.code, some("memory_unready"));
    let empty = MemoryListTool::new(store()).execute(&vec![]).unwrap();
    assert_eq!(empty.content, "Memory (0 entries, root=/m):\n(empty)");
}

#[test]
fn summaries_are_cut() {
    assert_eq!(first_non_empty_line("\n   \n  hello  \nx", 80), "hello");
    assert_eq!(first_non_empty_line("", 80), "");
    assert_eq!(first_non_empty_line("abcdefghij", 5), "abcde...");
}

#[test]
fn memories_are_listed_by_name() {
    let e = |n: &str| FileMemoryEntry {
        name: n.to_string(),
        summary: String::new(),
        size_bytes: 0,
        full_path: String::new(),
    };
    let sorted = store().list(vec![e("b"), e("a"), e("c")]);
    let names: Vec<&str> = sorted.iter().map(|x| x.name.as_str()).collect();
    assert_eq!(names, vec!["a", "b", "c"]);
    assert!(FileMemoryStore::new("/m", false).list(vec![e("a")]).is_empty());
}

#[test]
fn the_memory_root_follows_the_environment() {
    let root = FileMemoryStore::default_root;
    let asked = some("/asked");
    let data = some("/data");
    let home = some("/home/me/");
    assert_eq!(root(&asked, &data, &home), "/asked");
    assert_eq!(root(&some(""), &data, &home), "/data/agentrust/memory");
    assert_eq!(root(&None, &None, &home), "/home/me/.agentrust/memory");
    assert_eq!(root(&None, &None, &None), ".agentrust/memory");
}

// Sub-agent

#[test]
fn test_task_tool_unbound_returns_error() {
    let result = TaskTool::unbound().prepare(&some("say hi"), 0);
    assert!(result.is_err(), "unbound TaskTool must error");
}

#[test]
fn a_task_is_told_to_a_sub_agent() {
    let tool = TaskTool::new().with_system_prompt("be brief");
    let ms = tool.prepare(&some("say hi"), 0).unwrap();
    assert_eq!(ms.len(), 2);
    assert_eq!(ms[0].role, "system");
    assert_eq!(ms[0].content, some("be brief"));
    assert_eq!(ms[1].content, some("say hi"));
}

#[test]
fn nesting_is_bounded() {
    let tool = TaskTool::new();
    assert!(tool.prepare(&some("x"), 1).is_ok());
    let e = tool.prepare(&some("x"), 2).unwrap_err();
    assert_eq!(e.code, some("recursion_limit"));
    assert!(e.message.starts_with("Sub-agent recursion limit reached (depth=2/2)."));
    assert!(TaskTool::new().with_max_depth(3).prepare(&some("x"), 2).is_ok());
    assert_eq!(tool.prepare(&None, 0).unwrap_err().code, some("missing_parameter"));
}

#[test]
fn replies_of_sub_agents_are_reported() {
    let tool = TaskTool::new();
    let out = tool.finish(Ok(some("done")), &some("greet"), 0).unwrap();
    assert!(out.content.contains("done"));
    let e = tool.finish(Ok(None), &None, 0).unwrap_err();
    assert_eq!(e.message, "Sub-agent returned no text");
    let e = tool.finish(Err("down".to_string()), &None, 0).unwrap_err();
    assert_eq!(e.message, "sub-agent API call failed: down");
}

// Skills

const SKILL: &str = "\n---\nname: \"greet\"\r\ndescription: |\n  Say hello\n\n  to people\n: no key\nno colon\n---\nBody\nmore\n";

#[test]
fn a_skill_is_read_from_markdown() {
    let s = parse_skill(SKILL, "/s/greet/SKILL.md", "/s/greet").expect("skill");
    assert_eq!(s.name, "greet");
    assert_eq!(s.description, "Say hello\n\nto people");
    assert_eq!(s.body, "Body\nmore\n\n");
    assert_eq!(s.dir, "/s/greet");
}

#[test]
fn files_without_a_head_hold_no_skill() {
    assert!(parse_skill("", "", "").is_none());
    assert!(parse_skill("name: x\n---\n", "", "").is_none());
    assert!(parse_skill("---\nname: x\n", "", "").is_none());
    assert!(parse_skill("---\ndescription: x\n---\n", "", "").is_none());
    assert!(parse_skill("---\nname: ''\n---\n", "", "").is_none());
}

#[test]
fn the_first_skill_of_a_name_stays() {
    let mut r = MarkdownSkillRegistry::new();
    let a = parse_skill("---\nname: x\n---\none", "", "").unwrap();
    let b = parse_skill("---\nname: x\n---\ntwo", "", "").unwrap();
    assert!(r.add_skill(a));
    assert!(!r.add_skill(b));
    assert_eq!(r.all().len(), 1);
    assert_eq!(r.find("x").unwrap().body, "one\n");
    assert_eq!(SkillMdTool::new(r).execute(&some("x")).unwrap().content, "one\n");
}

#[test]
fn test_skill_tool_registered_with_empty_registry() {
    let registry = ToolRegistry::new();
    let tool = registry.get("Skill").expect("Skill tool should exist");
    assert_eq!(tool, "Skill");
    let skills = SkillMdTool::new(MarkdownSkillRegistry::new());
    assert_eq!(skills.name(), "Skill");
    let e = skills.execute(&some("nonexistent")).unwrap_err();
    assert_eq!(e.message, "skill not found: nonexistent");
    assert_eq!(skills.execute(&None).unwrap_err().code, some("missing_parameter"));
}

// Web

#[test]
fn only_web_addresses_are_fetched() {
    assert!(HttpFetchTool::new().request(&some("https://x.test"), None).is_ok());
    assert_eq!(HttpFetchTool::new().request(&some("file:///x"), None).unwrap_err().code, some("invalid_url"));
    assert_eq!(HttpFetchTool::new().request(&None, None).unwrap_err().code, some("missing_parameter"));
}

#[test]
fn fetched_bytes_become_text() {
    let f = Fetched {
        status: 200,
        url: "https://x.test/".to_string(),
        content_type: "text/plain".to_string(),
        body: vec![104, 105, 255],
    };
    let out = HttpFetchTool::new().report(&f, 100);
    assert!(out.content.contains("hi\u{FFFD}"), "got {}", out.content);
    let cut = HttpFetchTool::new().report(&f, 1);
    assert!(!cut.content.contains("hi"), "got {}", cut.content);
}

#[test]
fn links_are_read_off_a_page() {
    let html = "<a rel=\"nofollow\" class=\"result__a\" href=\"https://x.test/1\">One <b>bold</b></a>\n<a class=\"other\" href=\"https://x.test/2\">Two</a>";
    let q = WebSearchTool::new().request(&some("one"), Some(5)).unwrap();
    let out = WebSearchTool::new().report(&q, html).unwrap();
    assert!(out.content.contains("https://x.test/1"), "got {}", out.content);
    assert!(out.content.contains("One bold"), "got {}", out.content);
    assert!(!out.content.contains("https://x.test/2"));
    assert_eq!(WebSearchTool::new().request(&None, None).unwrap_err().code, some("missing_parameter"));
}

#[test]
fn hits_are_limited() {
    let links = vec![
        ("https://x.test/1".to_string(), "One".to_string()),
        ("https://x.test/2".to_string(), "Two".to_string()),
    ];
    let hits = read_hits(&links, 1);
    assert_eq!(hits.len(), 1);
    assert!(search_output("q", &hits).content.contains("One"));
}

#[test]
fn network_errors_say_what_failed() {
    let e = network_error("request failed", "timeout");
    assert!(e.message.contains("timeout"), "got {}", e.message);
}

// Computer

fn nothing() -> ComputerInput {
    ComputerInput { x: None, y: None, has_point: false, text: None, keys: None, delta: None }
}

fn point(x: i64, y: i64) -> ComputerInput {
    ComputerInput { x: Some(x), y: Some(y), has_point: true, ..nothing() }
}

fn command(s: ComputerStep) -> String {
    match s {
        ComputerStep::Run(c) => c,
        other => panic!("expected a command, got {:?}", other),
    }
}

#[test]
fn test_computer_tool_registered() {
    let registry = ToolRegistry::new();
    let tool = registry.get("Computer").expect("Computer tool should exist");
    assert_eq!(tool, "Computer");
    assert_eq!(tool, ComputerTool::new().name());
    assert!(ComputerTool::new().description().to_lowercase().contains("screen"));
}

#[test]
fn shell_words_are_quoted() {
    assert_eq!(shq("a b"), "'a b'");
    assert_eq!(shq("it's"), "'it'\\''s'");
}

#[test]
fn a_click_becomes_a_command() {
    let linux = |a: &str| command(exec_linux(a, &point(3, 4)).unwrap());
    assert_eq!(linux("mouse_move"), "xdotool mousemove 3 4");
    assert_eq!(linux("left_click"), "xdotool click 1");
    assert_eq!(linux("double_click"), "xdotool click --repeat 2 --delay 100 1");
    let mac = |i: &ComputerInput| command(exec_macos("left_click", i).unwrap());
    assert_eq!(mac(&point(3, 4)), "cliclick c:3,4");
    assert_eq!(mac(&nothing()), "cliclick c:.");
}

#[test]
fn scrolling_and_typing_become_commands() {
    let up = ComputerInput { delta: Some(-3), ..nothing() };
    assert_eq!(command(exec_linux("scroll", &up).unwrap()), "xdotool click --repeat 3 4");
    assert_eq!(exec_macos("scroll", &up).unwrap_err().code, some("unsupported"));
    let text = ComputerInput { text: some("it's"), ..nothing() };
    assert_eq!(
        command(exec_linux("type", &text).unwrap()),
        "xdotool type --delay 12 -- 'it'\\''s'"
    );
    assert_eq!(exec_linux("key", &nothing()).unwrap_err().code, some("missing_parameter"));
    assert_eq!(command(exec_macos("key", &nothing()).unwrap()), "cliclick kp:''");
}

#[test]
fn unknown_actions_are_refused() {
    assert!(exec_linux("juggle", &nothing()).is_err());
    assert!(exec_macos("juggle", &nothing()).is_err());
}

#[test]
fn read_only_blocks_what_changes_the_desktop() {
    assert!(is_mutating("left_click"));
    assert!(!is_mutating("screenshot"));
    let tool = ComputerTool::with_read_only(true);
    assert!(tool.plan(&some("left_click"), &point(1, 1), Platform::Linux).is_err());
    assert!(tool.plan(&some("screenshot"), &nothing(), Platform::Linux).is_ok());
    assert!(ComputerTool::new().plan(&None, &nothing(), Platform::Linux).is_err());
}

#[test]
fn screenshots_are_packed_as_base64() {
    let out = package_screenshot("/tmp/x.png", &Some(vec![77, 97, 110])).unwrap();
    let all = format!("{:?}", out);
    assert!(all.contains("TWFu"), "got {}", all);
    let e = package_screenshot("/tmp/x.png", &None).unwrap_err();
    assert_eq!(e.code, some("screenshot_failed"));
    assert!(screenshot_command(Platform::Linux, 0, "/tmp/x.png").unwrap().contains("/tmp/x.png"));
    assert!(screenshot_command(Platform::Other, 0, "/tmp/x.png").is_none());
}

#[test]
fn commands_are_reported() {
    let tool = ComputerTool::new();
    let out = tool.report("left_click", Platform::Linux, false, 0, String::new()).unwrap();
    assert_eq!(out.content, "ok: left_click");
    let out = tool.report("cursor_position", Platform::Linux, true, 0, "1 2".to_string()).unwrap();
    assert_eq!(out.content, "1 2");
    assert!(tool.report("left_click", Platform::Linux, false, 1, "no".to_string()).is_err());
}

#[test]
fn skills_are_offered_by_name() {
    let parse = |t: &str| serde_json::from_str::<serde_json::Value>(t).unwrap();
    let mut r = MarkdownSkillRegistry::new();
    let none = parse(&SkillMdTool::new(MarkdownSkillRegistry::new()).input_schema());
    assert!(none["properties"]["name"]["enum"].is_null());
    assert_eq!(none["required"][0], "name");
    r.add_skill(parse_skill("---\nname: a\n---\n", "", "").unwrap());
    r.add_skill(parse_skill("---\nname: say \"b\"\n---\n", "", "").unwrap());
    let some = parse(&SkillMdTool::new(r).input_schema());
    assert_eq!(some["properties"]["name"]["enum"][0], "a");
    assert_eq!(some["properties"]["name"]["enum"][1], "say \"b\"");
}

#[test]
fn schemas_are_json() {
    for s in [
        GlobTool::new().input_schema(),
        ComputerTool::new().input_schema(),
        TaskTool::new().input_schema(),
        HttpFetchTool::new().input_schema(),
        WebSearchTool::new().input_schema(),
        MemoryListTool::new(store()).input_schema(),
        MemoryReadTool::new(store()).input_schema(),
        MemoryWriteTool::new(store()).input_schema(),
    ] {
        let v: serde_json::Value = serde_json::from_str(s).expect(s);
        assert_eq!(v["type"], "object");
    }
    assert_eq!(TaskTool::new().name(), "Task");
    assert_eq!(HttpFetchTool::new().name(), "http_fetch");
    assert_eq!(WebSearchTool::new().name(), "web_search");
    assert_eq!(MemoryWriteTool::new(store()).name(), "MemoryWrite");
}

#[test]
fn a_memory_lies_below_its_root() {
    assert!(contained("/home/m", "/home/m/a.md"));
    assert!(contained("/home/m/", "/home/m"));
    assert!(!contained("/home/m", "/home/mm/a.md"));
    assert!(!contained("/home/m", "/home"));
    assert!(!contained("/home/m", "home/m/a.md"));
    assert!(!contained("/home/m", "/etc/passwd"));
}

#[test]
fn a_name_resolves_below_the_root() {
    let s = store();
    assert_eq!(s.resolve("a.md", "/m", "/m/a.md"), some("/m/a.md"));
    assert_eq!(s.resolve("a.md", "/m", "/elsewhere/a.md"), None);
    assert_eq!(s.resolve("../a.md", "/m", "/m/a.md"), None);
    assert_eq!(FileMemoryStore::new("/m", false).resolve("a.md", "/m", "/m/a.md"), None);
}
