//! Tool bundles: named subsets of the tools, so that a run gets just the
//! tools it needs.
use crate::text::same;
use crate::words::WordSet;
use vstd::prelude::*;

verus! {

/// A named subset of the tools.
#[derive(Debug, Clone)]
pub struct Bundle {
    pub name: &'static str,
    pub description: &'static str,
    pub tools: Vec<&'static str>,
}

/// The views of a sequence of string slices.
pub open spec fn str_views(s: Seq<&str>) -> Seq<Seq<char>> {
    s.map_values(|x: &str| x@)
}

/// The tools of the bundle `coding`.
pub open spec fn coding_tools() -> Seq<Seq<char>> {
    seq![
        "file_read"@,
        "file_write"@,
        "file_edit"@,
        "list_files"@,
        "search"@,
        "Glob"@,
        "execute_command"@,
        "git_operations"@,
    ]
}

/// The tools of the bundle `knowledge`.
pub open spec fn knowledge_tools() -> Seq<Seq<char>> {
    seq![
        "file_read"@,
        "note_edit"@,
        "task_management"@,
        "MemoryList"@,
        "MemoryRead"@,
        "MemoryWrite"@,
        "ChannelPublish"@,
        "ChannelRead"@,
        "ChannelList"@,
        "Skill"@,
        "Task"@,
    ]
}

/// The tools of the bundle `desktop`.
pub open spec fn desktop_tools() -> Seq<Seq<char>> {
    seq![
        "Computer"@,
    ]
}

/// The tools of the bundle `web`.
pub open spec fn web_tools() -> Seq<Seq<char>> {
    seq![
        "http_fetch"@,
        "web_search"@,
        "file_read"@,
        "file_write"@,
    ]
}

/// The tools of the bundle `communication`.
pub open spec fn communication_tools() -> Seq<Seq<char>> {
    seq![
        "ChannelPublish"@,
        "ChannelRead"@,
        "ChannelList"@,
        "Task"@,
    ]
}

/// The names of all bundles, in order.
pub open spec fn bundle_names() -> Seq<Seq<char>> {
    seq!["coding"@, "knowledge"@, "desktop"@, "web"@, "communication"@]
}

/// The tools of a bundle, if there is one of that name.
pub open spec fn bundle_tools(slug: Seq<char>) -> Option<Seq<Seq<char>>> {
    if slug == "coding"@ {
        Some(coding_tools())
    } else if slug == "knowledge"@ {
        Some(knowledge_tools())
    } else if slug == "desktop"@ {
        Some(desktop_tools())
    } else if slug == "web"@ {
        Some(web_tools())
    } else if slug == "communication"@ {
        Some(communication_tools())
    } else {
        None
    }
}

/// What a bundle is for.
pub open spec fn bundle_about(slug: Seq<char>) -> Seq<char> {
    if slug == "coding"@ {
        "Read/edit code, run commands, manage git, search source."@
    } else if slug == "knowledge"@ {
        "Notes, durable memory, channels, task lists, sub-agents, markdown skills."@
    } else if slug == "desktop"@ {
        "Drive the user's desktop: screenshot, click, type, keys."@
    } else if slug == "web"@ {
        "Native HTTP fetch + web search; file_read/write for local caching."@
    } else if slug == "communication"@ {
        "Channel bus + sub-agent dispatch."@
    } else {
        ""@
    }
}

/// The tools of some bundles; unknown names add nothing.
pub open spec fn tools_of(slugs: Seq<Seq<char>>) -> Set<Seq<char>>
    decreases slugs.len(),
{
    if slugs.len() == 0 {
        Set::empty()
    } else {
        let before = tools_of(slugs.drop_last());
        match bundle_tools(slugs.last()) {
            Some(ts) => before.union(ts.to_set()),
            None => before,
        }
    }
}

/// Software engineering: edit code, run commands, manage git, search.
pub fn coding() -> (r: Bundle)
    ensures
        r.name@ == "coding"@,
        r.description@ == "Read/edit code, run commands, manage git, search source."@,
        str_views(r.tools@) == coding_tools(),
{
    let mut tools: Vec<&'static str> = Vec::new();
    tools.push("file_read");
    tools.push("file_write");
    tools.push("file_edit");
    tools.push("list_files");
    tools.push("search");
    tools.push("Glob");
    tools.push("execute_command");
    tools.push("git_operations");
    proof {
        assert(str_views(tools@) =~= coding_tools());
    }
    Bundle { name: "coding", description: "Read/edit code, run commands, manage git, search source.", tools }
}

/// Knowledge work: notes, durable memory, channels, task lists, skills.
pub fn knowledge() -> (r: Bundle)
    ensures
        r.name@ == "knowledge"@,
        r.description@ == "Notes, durable memory, channels, task lists, sub-agents, markdown skills."@,
        str_views(r.tools@) == knowledge_tools(),
{
    let mut tools: Vec<&'static str> = Vec::new();
    tools.push("file_read");
    tools.push("note_edit");
    tools.push("task_management");
    tools.push("MemoryList");
    tools.push("MemoryRead");
    tools.push("MemoryWrite");
    tools.push("ChannelPublish");
    tools.push("ChannelRead");
    tools.push("ChannelList");
    tools.push("Skill");
    tools.push("Task");
    proof {
        assert(str_views(tools@) =~= knowledge_tools());
    }
    Bundle { name: "knowledge", description: "Notes, durable memory, channels, task lists, sub-agents, markdown skills.", tools }
}

/// Desktop operation.
pub fn desktop() -> (r: Bundle)
    ensures
        r.name@ == "desktop"@,
        r.description@ == "Drive the user's desktop: screenshot, click, type, keys."@,
        str_views(r.tools@) == desktop_tools(),
{
    let mut tools: Vec<&'static str> = Vec::new();
    tools.push("Computer");
    proof {
        assert(str_views(tools@) =~= desktop_tools());
    }
    Bundle { name: "desktop", description: "Drive the user's desktop: screenshot, click, type, keys.", tools }
}

/// Open-web research.
pub fn web() -> (r: Bundle)
    ensures
        r.name@ == "web"@,
        r.description@ == "Native HTTP fetch + web search; file_read/write for local caching."@,
        str_views(r.tools@) == web_tools(),
{
    let mut tools: Vec<&'static str> = Vec::new();
    tools.push("http_fetch");
    tools.push("web_search");
    tools.push("file_read");
    tools.push("file_write");
    proof {
        assert(str_views(tools@) =~= web_tools());
    }
    Bundle { name: "web", description: "Native HTTP fetch + web search; file_read/write for local caching.", tools }
}

/// Coordination between agents.
pub fn communication() -> (r: Bundle)
    ensures
        r.name@ == "communication"@,
        r.description@ == "Channel bus + sub-agent dispatch."@,
        str_views(r.tools@) == communication_tools(),
{
    let mut tools: Vec<&'static str> = Vec::new();
    tools.push("ChannelPublish");
    tools.push("ChannelRead");
    tools.push("ChannelList");
    tools.push("Task");
    proof {
        assert(str_views(tools@) =~= communication_tools());
    }
    Bundle { name: "communication", description: "Channel bus + sub-agent dispatch.", tools }
}

/// All bundles, in order.
pub fn all() -> (r: Vec<Bundle>)
    ensures
        r@.len() == bundle_names().len(),
        forall|i: int|
            0 <= i < r@.len() ==> (#[trigger] r@[i]).name@ == bundle_names()[i] && bundle_tools(
                r@[i].name@,
            ) == Some(str_views(r@[i].tools@)) && r@[i].description@ == bundle_about(r@[i].name@),
{
    let mut v: Vec<Bundle> = Vec::new();
    v.push(coding());
    v.push(knowledge());
    v.push(desktop());
    v.push(web());
    v.push(communication());
    proof {
        lemma_names_distinct();
    }
    v
}

/// The names of the bundles differ.
pub proof fn lemma_names_distinct()
    ensures
        "coding"@ != "knowledge"@,
        "coding"@ != "desktop"@,
        "coding"@ != "web"@,
        "coding"@ != "communication"@,
        "knowledge"@ != "desktop"@,
        "knowledge"@ != "web"@,
        "knowledge"@ != "communication"@,
        "desktop"@ != "web"@,
        "desktop"@ != "communication"@,
        "web"@ != "communication"@,
{
    reveal_strlit("coding");
    reveal_strlit("knowledge");
    reveal_strlit("desktop");
    reveal_strlit("web");
    reveal_strlit("communication");
    assert("coding"@.len() == 6);
    assert("knowledge"@.len() == 9);
    assert("desktop"@.len() == 7);
    assert("web"@.len() == 3);
    assert("communication"@.len() == 13);
}

/// The bundle of a name.
pub fn lookup(slug: &str) -> (r: Option<Bundle>)
    ensures
        match r {
            Some(b) => b.name@ == slug@ && bundle_tools(slug@) == Some(str_views(b.tools@))
                && b.description@ == bundle_about(slug@),
            None => bundle_tools(slug@) is None,
        },
{
    proof {
        lemma_names_distinct();
    }
    if same(slug, "coding") {
        Some(coding())
    } else if same(slug, "knowledge") {
        Some(knowledge())
    } else if same(slug, "desktop") {
        Some(desktop())
    } else if same(slug, "web") {
        Some(web())
    } else if same(slug, "communication") {
        Some(communication())
    } else {
        None
    }
}

/// The tools of some bundles, each once; unknown names are skipped.
pub fn resolve(slugs: &[&str]) -> (r: WordSet)
    ensures
        r.wf(),
        r@ == tools_of(str_views(slugs@)),
{
    let mut set: WordSet = WordSet::new();
    let ghost sv = str_views(slugs@);
    let n: usize = slugs.len();
    for i in 0..n
        invariant
            n == slugs@.len(),
            sv == str_views(slugs@),
            set.wf(),
            set@ == tools_of(sv.take(i as int)),
    {
        proof {
            assert(sv.take(i + 1).drop_last() =~= sv.take(i as int));
            assert(sv.take(i + 1).last() == slugs@[i as int]@);
        }
        match lookup(slugs[i]) {
            Some(b) => {
                let ghost base = set@;
                let ghost tv = str_views(b.tools@);
                proof {
                    assert(base.union(tv.take(0).to_set()) =~= base);
                }
                for j in 0..b.tools.len()
                    invariant
                        set.wf(),
                        tv == str_views(b.tools@),
                        set@ == base.union(tv.take(j as int).to_set()),
                {
                    set.insert(b.tools[j]);
                    proof {
                        let t = tv.take(j as int);
                        assert(tv.take(j + 1) =~= t.push(tv[j as int]));
                        crate::words::lemma_to_set_push(t, tv[j as int]);
                        assert(set@ =~= base.union(tv.take(j + 1).to_set()));
                    }
                }
                proof {
                    assert(tv.take(tv.len() as int) =~= tv);
                }
            },
            None => {},
        }
    }
    proof {
        assert(sv.take(n as int) =~= sv);
    }
    set
}

/// The tools of some bundles are those of each of them, whatever their
/// order.
pub proof fn law_bundles_add_up(a: Seq<Seq<char>>, b: Seq<Seq<char>>)
    ensures
        tools_of(a + b) == tools_of(a).union(tools_of(b)),
        tools_of(a + b) == tools_of(b + a),
{
    lemma_tools_of_both(a, b);
    lemma_tools_of_both(b, a);
    assert(tools_of(a).union(tools_of(b)) =~= tools_of(b).union(tools_of(a)));
}

proof fn lemma_tools_of_both(a: Seq<Seq<char>>, b: Seq<Seq<char>>)
    ensures
        tools_of(a + b) == tools_of(a).union(tools_of(b)),
    decreases b.len(),
{
    if b.len() == 0 {
        assert(a + b =~= a);
        assert(tools_of(a).union(tools_of(b)) =~= tools_of(a));
    } else {
        lemma_tools_of_both(a, b.drop_last());
        assert((a + b).drop_last() =~= a + b.drop_last());
        assert(tools_of(a + b) =~= tools_of(a).union(tools_of(b)));
    }
}

/// A tool is available where one of the bundles has it, and only there.
pub proof fn law_tools_come_from_bundles(slugs: Seq<Seq<char>>, tool: Seq<char>)
    ensures
        tools_of(slugs).contains(tool) <==> exists|i: int|
            0 <= i < slugs.len() && (bundle_tools(#[trigger] slugs[i]) matches Some(ts)
                && ts.contains(tool)),
    decreases slugs.len(),
{
    if slugs.len() > 0 {
        let d = slugs.drop_last();
        law_tools_come_from_bundles(d, tool);
        if tools_of(d).contains(tool) {
            let i = choose|i: int|
                0 <= i < d.len() && (bundle_tools(#[trigger] d[i]) matches Some(ts) && ts.contains(
                    tool,
                ));
            assert(slugs[i] == d[i]);
        }
        if exists|i: int|
            0 <= i < slugs.len() && (bundle_tools(#[trigger] slugs[i]) matches Some(ts)
                && ts.contains(tool)) {
            let i = choose|i: int|
                0 <= i < slugs.len() && (bundle_tools(#[trigger] slugs[i]) matches Some(ts)
                    && ts.contains(tool));
            if i < slugs.len() - 1 {
                assert(d[i] == slugs[i]);
            }
        }
        assert(slugs[slugs.len() - 1] == slugs.last());
    }
}

} // verus!
