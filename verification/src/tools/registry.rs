//! What tools give back, and which tools there are.
use crate::strmap::StrMap;
use crate::text::{has_string, lemma_views_push, opt_view, owned, views};
use crate::tools::bundle::{self, bundle_names, bundle_tools, str_views, tools_of};
use crate::words::WordSet;
use vstd::prelude::*;

verus! {

/// The output of a tool.
#[derive(Debug, Clone)]
pub struct ToolOutput {
    pub output_type: String,
    pub content: String,
    /// Each value as its compact JSON text.
    pub metadata: StrMap,
}

/// An output as a mathematical value.
pub struct Output {
    pub output_type: Seq<char>,
    pub content: Seq<char>,
    pub metadata: Map<Seq<char>, Seq<char>>,
}

impl View for ToolOutput {
    type V = Output;

    open spec fn view(&self) -> Output {
        Output {
            output_type: self.output_type@,
            content: self.content@,
            metadata: self.metadata@,
        }
    }
}

/// The error of a tool.
#[derive(Debug, Clone)]
pub struct ToolError {
    pub message: String,
    pub code: Option<String>,
}

/// An error as a mathematical value: its message and its code.
pub struct Failed {
    pub message: Seq<char>,
    pub code: Option<Seq<char>>,
}

impl View for ToolError {
    type V = Failed;

    open spec fn view(&self) -> Failed {
        Failed { message: self.message@, code: opt_view(self.code) }
    }
}

/// A plain text output.
pub open spec fn text_output(content: Seq<char>) -> Output {
    Output { output_type: "text"@, content, metadata: Map::empty() }
}

/// An error with a code.
pub open spec fn failed(message: Seq<char>, code: Seq<char>) -> Failed {
    Failed { message, code: Some(code) }
}

/// The view of an outcome.
pub open spec fn outcome(r: Result<ToolOutput, ToolError>) -> Result<Output, Failed> {
    match r {
        Ok(o) => Ok(o@),
        Err(e) => Err(e@),
    }
}

/// A plain text output.
pub fn ok_text(content: String) -> (r: ToolOutput)
    ensures
        r@ == text_output(content@),
        r.metadata.wf(),
{
    ToolOutput { output_type: owned("text"), content, metadata: StrMap::new() }
}

/// An error with a code.
pub fn fail(message: String, code: &str) -> (r: ToolError)
    ensures
        r@ == failed(message@, code@),
{
    ToolError { message, code: Some(owned(code)) }
}

/// The error for a missing parameter.
pub fn missing(message: &str) -> (r: ToolError)
    ensures
        r@ == failed(message@, "missing_parameter"@),
{
    fail(owned(message), "missing_parameter")
}

/// The names of the built-in tools.
pub open spec fn builtin_names() -> Seq<Seq<char>> {
    seq![
        "file_read"@,
        "file_edit"@,
        "file_write"@,
        "execute_command"@,
        "search"@,
        "list_files"@,
        "git_operations"@,
        "task_management"@,
        "note_edit"@,
        "Glob"@,
        "ChannelPublish"@,
        "ChannelRead"@,
        "ChannelList"@,
        "Computer"@,
        "Task"@,
        "http_fetch"@,
        "web_search"@,
        "MemoryList"@,
        "MemoryRead"@,
        "MemoryWrite"@,
        "Skill"@,
    ]
}

/// The error for an unknown tool.
pub open spec fn unknown_tool(name: Seq<char>) -> Failed {
    failed("Tool not found: "@ + name, "tool_not_found"@)
}

/// The names after one was registered: once each, in order of registration.
pub open spec fn with_name(names: Seq<Seq<char>>, name: Seq<char>) -> Seq<Seq<char>> {
    if names.contains(name) {
        names
    } else {
        names.push(name)
    }
}

/// The names that some bundles allow.
pub open spec fn allowed_names(names: Seq<Seq<char>>, slugs: Seq<Seq<char>>) -> Seq<Seq<char>> {
    let allowed = tools_of(slugs);
    if allowed.len() == 0 {
        names
    } else {
        names.filter(|n: Seq<char>| allowed.contains(n))
    }
}

/// Whether all tools of a list are registered.
pub open spec fn all_registered(names: Seq<Seq<char>>, tools: Seq<Seq<char>>) -> bool {
    forall|i: int| 0 <= i < tools.len() ==> names.contains(#[trigger] tools[i])
}

/// The bundles, among the first `n`, all of whose tools are registered.
pub open spec fn active_names(names: Seq<Seq<char>>, n: nat) -> Seq<Seq<char>>
    decreases n,
{
    if n == 0 {
        seq![]
    } else {
        let before = active_names(names, (n - 1) as nat);
        let b = bundle_names()[n - 1];
        if all_registered(names, bundle_tools(b)->0) {
            before.push(b)
        } else {
            before
        }
    }
}

/// The tools that are registered, by name.
#[derive(Debug)]
pub struct ToolRegistry {
    pub names: Vec<String>,
}

impl View for ToolRegistry {
    type V = Seq<Seq<char>>;

    open spec fn view(&self) -> Seq<Seq<char>> {
        views(self.names@)
    }
}

/// Restricting to bundles only ever drops tools, and what stays is allowed
/// by one of them, unless they allow nothing at all.
pub proof fn law_restriction(names: Seq<Seq<char>>, slugs: Seq<Seq<char>>, i: int)
    requires
        0 <= i < allowed_names(names, slugs).len(),
    ensures
        names.contains(allowed_names(names, slugs)[i]),
        tools_of(slugs).len() > 0 ==> tools_of(slugs).contains(allowed_names(names, slugs)[i]),
{
    let allowed = tools_of(slugs);
    if allowed.len() > 0 {
        let p = |n: Seq<char>| allowed.contains(n);
        names.lemma_filter_pred(p, i);
        lemma_filter_member(names, p, i);
    }
}

proof fn lemma_filter_member(s: Seq<Seq<char>>, p: spec_fn(Seq<char>) -> bool, i: int)
    requires
        0 <= i < s.filter(p).len(),
    ensures
        s.contains(s.filter(p)[i]),
    decreases s.len(),
{
    reveal(Seq::filter);
    if s.len() > 0 {
        let d = s.drop_last();
        if i < d.filter(p).len() {
            lemma_filter_member(d, p, i);
            let k = choose|k: int| 0 <= k < d.len() && d[k] == d.filter(p)[i];
            assert(s[k] == s.filter(p)[i]);
        } else {
            assert(s[s.len() - 1] == s.filter(p)[i]);
        }
    }
}

impl ToolRegistry {
    /// A registry of the built-in tools.
    pub fn new() -> (r: ToolRegistry)
        ensures
            r@ == builtin_names(),
    {
        let mut names: Vec<String> = Vec::new();
        names.push(owned("file_read"));
        names.push(owned("file_edit"));
        names.push(owned("file_write"));
        names.push(owned("execute_command"));
        names.push(owned("search"));
        names.push(owned("list_files"));
        names.push(owned("git_operations"));
        names.push(owned("task_management"));
        names.push(owned("note_edit"));
        names.push(owned("Glob"));
        names.push(owned("ChannelPublish"));
        names.push(owned("ChannelRead"));
        names.push(owned("ChannelList"));
        names.push(owned("Computer"));
        names.push(owned("Task"));
        names.push(owned("http_fetch"));
        names.push(owned("web_search"));
        names.push(owned("MemoryList"));
        names.push(owned("MemoryRead"));
        names.push(owned("MemoryWrite"));
        names.push(owned("Skill"));
        proof {
            assert(views(names@) =~= builtin_names());
        }
        ToolRegistry { names }
    }

    /// A registry without tools.
    pub fn empty() -> (r: ToolRegistry)
        ensures
            r@ == Seq::<Seq<char>>::empty(),
    {
        let r = ToolRegistry { names: Vec::new() };
        proof {
            assert(r@ =~= Seq::<Seq<char>>::empty());
        }
        r
    }

    /// Registers a tool; one of the same name is replaced.
    pub fn register(&mut self, name: &str)
        ensures
            final(self)@ == with_name(old(self)@, name@),
    {
        if !has_string(&self.names, name) {
            let s: String = owned(name);
            proof {
                lemma_views_push(self.names@, s);
            }
            self.names.push(s);
        }
    }

    /// Keeps only the tools that the bundles allow. Without bundles, or with
    /// unknown ones alone, everything stays.
    pub fn restrict_to_bundles(&mut self, bundles: &[&str])
        ensures
            final(self)@ == allowed_names(old(self)@, str_views(bundles@)),
    {
        let allowed: WordSet = bundle::resolve(bundles);
        if allowed.len() == 0 {
            return;
        }
        let ghost nv = views(self.names@);
        let ghost p = |n: Seq<char>| allowed@.contains(n);
        let mut kept: Vec<String> = Vec::new();
        proof {
            reveal(Seq::filter);
            assert(views(kept@) =~= nv.take(0).filter(p));
        }
        for i in 0..self.names.len()
            invariant
                nv == views(self.names@),
                p == (|n: Seq<char>| allowed@.contains(n)),
                views(kept@) == nv.take(i as int).filter(p),
        {
            proof {
                reveal(Seq::filter);
                assert(nv.take(i + 1).drop_last() =~= nv.take(i as int));
                assert(nv.take(i + 1).last() == self.names@[i as int]@);
            }
            if allowed.contains(self.names[i].as_str()) {
                let s: String = self.names[i].clone();
                proof {
                    lemma_views_push(kept@, s);
                }
                kept.push(s);
            }
        }
        proof {
            assert(nv.take(nv.len() as int) =~= nv);
        }
        self.names = kept;
    }

    /// The bundles all of whose tools are registered.
    pub fn active_bundles(&self) -> (r: Vec<&'static str>)
        ensures
            str_views(r@) == active_names(self@, bundle_names().len()),
    {
        let all: Vec<bundle::Bundle> = bundle::all();
        let mut out: Vec<&'static str> = Vec::new();
        proof {
            assert(str_views(out@) =~= seq![]);
        }
        for i in 0..all.len()
            invariant
                all@.len() == bundle_names().len(),
                forall|i: int|
                    0 <= i < all@.len() ==> (#[trigger] all@[i]).name@ == bundle_names()[i]
                        && bundle_tools(all@[i].name@) == Some(str_views(all@[i].tools@)),
                str_views(out@) == active_names(self@, i as nat),
        {
            let b: &bundle::Bundle = &all[i];
            let ghost tv = str_views(b.tools@);
            let mut every: bool = true;
            proof {
                assert(all@[i as int].name@ == bundle_names()[i as int]);
            }
            for j in 0..b.tools.len()
                invariant
                    tv == str_views(b.tools@),
                    every == forall|k: int| 0 <= k < j ==> self@.contains(#[trigger] tv[k]),
            {
                if !has_string(&self.names, b.tools[j]) {
                    proof {
                        assert(!self@.contains(tv[j as int]));
                    }
                    every = false;
                }
            }
            if every {
                let ghost before = out@;
                out.push(b.name);
                proof {
                    assert(str_views(out@) =~= str_views(before).push(b.name@));
                }
            }
        }
        out
    }

    /// The registered name, if there is a tool of that name.
    pub fn get(&self, name: &str) -> (r: Option<String>)
        ensures
            match r {
                Some(s) => self@.contains(name@) && s@ == name@,
                None => !self@.contains(name@),
            },
    {
        if has_string(&self.names, name) {
            Some(owned(name))
        } else {
            None
        }
    }

    /// The names of all tools.
    pub fn list(&self) -> (r: &Vec<String>)
        ensures
            views(r@) == self@,
    {
        &self.names
    }

    /// Whether a tool can be executed; else why not.
    pub fn check(&self, name: &str) -> (r: Result<(), ToolError>)
        ensures
            match r {
                Ok(_) => self@.contains(name@),
                Err(e) => !self@.contains(name@) && e@ == unknown_tool(name@),
            },
    {
        if has_string(&self.names, name) {
            Ok(())
        } else {
            let mut m: String = owned("Tool not found: ");
            m.append(name);
            Err(fail(m, "tool_not_found"))
        }
    }
}

impl Default for ToolRegistry {
    fn default() -> (r: ToolRegistry)
        ensures
            r@ == builtin_names(),
    {
        ToolRegistry::new()
    }
}

/// A tool that is registered is there, once, and the others stay where they
/// were.
pub proof fn law_registered_tool_is_there(names: Seq<Seq<char>>, name: Seq<char>, other: Seq<char>)
    ensures
        with_name(names, name).contains(name),
        other != name ==> (with_name(names, name).contains(other) <==> names.contains(other)),
        names.no_duplicates() ==> with_name(names, name).no_duplicates(),
        with_name(with_name(names, name), name) == with_name(names, name),
        with_name(names, name).take(names.len() as int) == names,
{
    let r = with_name(names, name);
    if !names.contains(name) {
        assert(r[names.len() as int] == name);
        if names.contains(other) {
            let k = choose|k: int| 0 <= k < names.len() && names[k] == other;
            assert(r[k] == other);
        }
        assert forall|i: int, j: int|
            names.no_duplicates() && 0 <= i < r.len() && 0 <= j < r.len() && i
                != j implies r[i] != r[j] by {
            if i < names.len() && j < names.len() {
                assert(names[i] != names[j]);
            } else if i < names.len() {
                assert(names.contains(names[i]));
            } else {
                assert(names.contains(names[j]));
            }
        }
    }
    assert(r.take(names.len() as int) =~= names);
}

/// Bundles keep every tool of theirs that is registered; without any, or
/// with unknown ones alone, all tools stay.
pub proof fn law_bundled_tools_stay(names: Seq<Seq<char>>, slugs: Seq<Seq<char>>, name: Seq<char>)
    ensures
        names.contains(name) && tools_of(slugs).contains(name) ==> allowed_names(
            names,
            slugs,
        ).contains(name),
        tools_of(slugs).len() == 0 ==> allowed_names(names, slugs) == names,
{
    let allowed = tools_of(slugs);
    let good = |n: Seq<char>| allowed.contains(n);
    if names.contains(name) && allowed.contains(name) && allowed.len() > 0 {
        let i = choose|i: int| 0 <= i < names.len() && names[i] == name;
        names.lemma_filter_contains(good, i);
    }
}

proof fn lemma_active(names: Seq<Seq<char>>, n: nat, i: int)
    requires
        0 <= i < n <= bundle_names().len(),
    ensures
        all_registered(names, bundle_tools(bundle_names()[i])->0) ==> active_names(
            names,
            n,
        ).contains(bundle_names()[i]),
    decreases n,
{
    let b = bundle_names()[i];
    let r = active_names(names, n);
    if all_registered(names, bundle_tools(b)->0) {
        if i == n - 1 {
            assert(r[r.len() - 1] == b);
        } else {
            lemma_active(names, (n - 1) as nat, i);
            let before = active_names(names, (n - 1) as nat);
            let k = choose|k: int| 0 <= k < before.len() && before[k] == b;
            assert(r[k] == b);
        }
    }
}

proof fn lemma_active_only(names: Seq<Seq<char>>, n: nat)
    requires
        n <= bundle_names().len(),
    ensures
        forall|k: int|
            0 <= k < active_names(names, n).len() ==> all_registered(
                names,
                bundle_tools(#[trigger] active_names(names, n)[k])->0,
            ),
    decreases n,
{
    if n > 0 {
        lemma_active_only(names, (n - 1) as nat);
        let before = active_names(names, (n - 1) as nat);
        let r = active_names(names, n);
        assert forall|k: int| 0 <= k < r.len() implies all_registered(
            names,
            bundle_tools(#[trigger] r[k])->0,
        ) by {
            if k < before.len() {
                assert(r[k] == before[k]);
            }
        }
    }
}

/// A bundle is active just where every one of its tools is registered.
pub proof fn law_active_bundles(names: Seq<Seq<char>>, i: int)
    requires
        0 <= i < bundle_names().len(),
    ensures
        active_names(names, bundle_names().len()).contains(bundle_names()[i]) <==> forall|k: int|
            0 <= k < bundle_tools(bundle_names()[i])->0.len() ==> names.contains(
                #[trigger] bundle_tools(bundle_names()[i])->0[k],
            ),
{
    let n = bundle_names().len();
    lemma_active(names, n, i);
    lemma_active_only(names, n);
    let r = active_names(names, n);
    if r.contains(bundle_names()[i]) {
        let k = choose|k: int| 0 <= k < r.len() && r[k] == bundle_names()[i];
        assert(all_registered(names, bundle_tools(r[k])->0));
    }
}

} // verus!
